use rags::counting_trie::CountingTrie;

fn key(tokens: &[&str]) -> Vec<String> {
    tokens.iter().map(|token| token.to_string()).collect()
}

#[test]
fn counting_trie_trie_construction() {
    let mut trie = CountingTrie::new();
    let v1 = key(&["ls", "-l", "/home"]);
    trie.insert(&v1);
    trie.insert(&v1);
    let v2 = key(&["ls", "-l", "/dev"]);
    trie.insert(&v2);
    let v3 = key(&["cd", "/dev"]);
    trie.insert(&v3);
    let v4 = key(&["ls"]);
    trie.insert(&v4);

    println!("{:#?}", trie);

    // Leaf values
    assert_eq!(trie.get_count(&v1), 2);
    assert_eq!(trie.get_count(&v2), 1);
    assert_eq!(trie.get_count(&v3), 1);
    assert_eq!(trie.get_count(&v1), 2);

    // Intermediate values
    assert_eq!(trie.get_count(&key(&["ls", "-l"])), 3);
    assert_eq!(trie.get_count(&key(&["ls"])), 4);

    // All values
    assert_eq!(trie.get_count(&key(&[])), 5);
}

#[test]
fn a_new_counting_tree_counts_nothing() {
    let trie: CountingTrie<String> = CountingTrie::new();
    assert_eq!(trie.count, 0);
    assert!(trie.children.is_empty());
    assert_eq!(trie.get_count(&key(&[])), 0);
    assert_eq!(trie.get_count(&key(&["ls"])), 0);
    assert!(trie.get(&key(&[])).is_some());
    assert!(trie.get(&key(&["ls"])).is_none());
}

#[test]
fn get_hands_out_the_tree_below_a_key() {
    let mut trie = CountingTrie::new();
    trie.insert(&key(&["ls", "-l", "/home"]));
    trie.insert(&key(&["ls", "-a"]));
    let below = trie.get(&key(&["ls"])).unwrap();
    assert_eq!(below.count, 2);
    assert_eq!(below.children.len(), 2);
    assert_eq!(below.get_count(&key(&["-l"])), 1);
    assert_eq!(below.get_count(&key(&["-l", "/home"])), 1);
    assert_eq!(below.get_count(&key(&["-a"])), 1);
    assert!(trie.get(&key(&["-l"])).is_none());
}

#[test]
fn from_counts_the_keys_that_start_with_a_path() {
    let keys = vec![
        key(&["git", "commit", "-m"]),
        key(&["git", "push"]),
        key(&[]),
        key(&["git"]),
        key(&["git", "commit"]),
        key(&["make"]),
        key(&["git", "commit", "-m"]),
    ];
    let trie = CountingTrie::from(&keys);
    let paths = vec![
        key(&[]),
        key(&["git"]),
        key(&["git", "commit"]),
        key(&["git", "commit", "-m"]),
        key(&["git", "push"]),
        key(&["git", "pull"]),
        key(&["make"]),
        key(&["make", "all"]),
        key(&["commit"]),
    ];
    let expected = [7, 5, 3, 2, 1, 0, 1, 0, 0];
    for (path, count) in paths.iter().zip(expected.iter()) {
        let by_hand = keys.iter().filter(|k| k.starts_with(path)).count() as u32;
        assert_eq!(by_hand, *count);
        assert_eq!(trie.get_count(path), *count);
    }
}

#[test]
fn from_nothing_is_the_new_tree() {
    let trie: CountingTrie<String> = CountingTrie::from(&Vec::new());
    assert_eq!(trie.count, 0);
    assert!(trie.children.is_empty());
}
