use rags::executions::Executions;
use rags::key_value::{KeyValue, TopKExtractor};
use rags::trie::{Collector, Trie};
use std::cmp::min;

fn key(tokens: &[&str]) -> Vec<String> {
    tokens.iter().map(|token| token.to_string()).collect()
}

fn init_trie() -> Trie<String, u32> {
    let mut trie = Trie::new();
    let keys = vec![
        vec!["ls", "-l", "/home"],
        vec!["ls", "-l", "/home"],
        vec!["ls", "-l", "/dev"],
        vec!["cd", "/dev"],
        vec!["ls"],
    ];
    for tokens in keys {
        trie.update_path(key(&tokens), |v| v + 1)
    }
    trie
}

/// Portion of sorted output that has deterministic order
fn sorted() -> Vec<KeyValue<String, u32>> {
    vec![
        KeyValue {
            key: key(&["ls"]),
            value: 4,
        },
        KeyValue {
            key: key(&["ls", "-l"]),
            value: 3,
        },
        KeyValue {
            key: key(&["ls", "-l", "/home"]),
            value: 2,
        },
    ]
}

/// Portion of sorted output that might be in any order
fn rest() -> Vec<KeyValue<String, u32>> {
    vec![
        KeyValue {
            key: key(&["cd"]),
            value: 1,
        },
        KeyValue {
            key: key(&["cd", "/dev"]),
            value: 1,
        },
        KeyValue {
            key: key(&["ls", "-l", "/dev"]),
            value: 1,
        },
    ]
}

fn assert_sorted(items: Vec<KeyValue<String, u32>>) {
    let len_to_compare = min(items.len(), sorted().len());
    assert_eq!(items[..len_to_compare], sorted()[..len_to_compare]);
    if items.len() >= 6 {
        for extra in rest() {
            assert!(items.contains(&extra))
        }
    }
}

#[test]
fn trie_trie_construction() {
    let trie = init_trie();

    // Leaf values
    assert_eq!(trie.get(key(&["ls", "-l", "/home"])), Some(&2));
    assert_eq!(trie.get(key(&["ls", "-l", "/dev"])), Some(&1));
    assert_eq!(trie.get(key(&["cd", "/dev"])), Some(&1));

    // Intermediate values
    assert_eq!(trie.get(key(&["ls", "-l"])), Some(&3));
    assert_eq!(trie.get(key(&["ls"])), Some(&4));
}

#[test]
fn tests_trie_construction() {
    let trie = init_trie();

    // Leaf values
    assert_eq!(trie.get(key(&["ls", "-l", "/home"])), Some(&2));
    assert_eq!(trie.get(key(&["ls", "-l", "/dev"])), Some(&1));
    assert_eq!(trie.get(key(&["cd", "/dev"])), Some(&1));

    // Intermediate values
    assert_eq!(trie.get(key(&["ls", "-l"])), Some(&3));
    assert_eq!(trie.get(key(&["ls"])), Some(&4));
}

#[test]
fn trie_drain_none() {
    let trie = init_trie();
    assert_eq!(trie.drain_top_items(0), vec![]);
}

#[test]
fn trie_drain_one() {
    let trie = init_trie();
    assert_eq!(trie.drain_top_items(1)[..], sorted()[..1]);
}

/// Drains the exact number of items in the trie
#[test]
fn trie_drain_all() {
    let trie = init_trie();
    let drained = trie.drain_top_items(6);
    assert_eq!(drained.len(), 6);
    assert_sorted(drained);
}

/// Attempts to drain more pairs than exist
#[test]
fn trie_drain_more() {
    let trie = init_trie();
    let drained = trie.drain_top_items(50);
    assert_eq!(drained.len(), 6);
    assert_sorted(drained);
}

#[test]
fn a_new_tree_has_only_its_root() {
    let trie: Trie<String, u32> = Trie::new();
    assert_eq!(trie.get(key(&[])), Some(&0));
    assert_eq!(trie.get(key(&["ls"])), None);
    assert_eq!(trie.drain_top_items(5), vec![]);
}

#[test]
fn the_root_sums_up_every_key() {
    let trie = init_trie();
    assert_eq!(trie.get(key(&[])), Some(&5));
}

#[test]
fn an_empty_key_touches_the_root_alone() {
    let mut trie = init_trie();
    trie.update_path(key(&[]), |v| v + 10);
    assert_eq!(trie.get(key(&[])), Some(&15));
    assert_eq!(trie.get(key(&["ls"])), Some(&4));
    assert_eq!(trie.get(key(&["cd"])), Some(&1));
}

#[test]
fn paths_that_were_not_put_in_are_absent() {
    let trie = init_trie();
    assert_eq!(trie.get(key(&["-l"])), None);
    assert_eq!(trie.get(key(&["ls", "/home"])), None);
    assert_eq!(trie.get(key(&["ls", "-l", "/home", "x"])), None);
    assert_eq!(trie.get(key(&["cd", "/dev", ""])), None);
    assert_eq!(trie.get(key(&[""])), None);
}

#[test]
fn an_update_leaves_other_paths_alone() {
    let mut trie = init_trie();
    trie.update_path(key(&["ls", "-a"]), |v| v + 100);
    assert_eq!(trie.get(key(&[])), Some(&105));
    assert_eq!(trie.get(key(&["ls"])), Some(&104));
    assert_eq!(trie.get(key(&["ls", "-a"])), Some(&100));
    assert_eq!(trie.get(key(&["ls", "-l"])), Some(&3));
    assert_eq!(trie.get(key(&["ls", "-l", "/home"])), Some(&2));
    assert_eq!(trie.get(key(&["cd"])), Some(&1));
}

#[test]
fn every_start_of_a_key_counts_the_keys_that_start_with_it() {
    let keys: Vec<Vec<&str>> = vec![
        vec!["git", "commit", "-m"],
        vec!["git", "push"],
        vec!["git"],
        vec!["git", "commit"],
        vec!["make"],
        vec!["git", "commit", "-m"],
    ];
    let mut trie: Trie<String, u32> = Trie::new();
    for tokens in keys.iter() {
        trie.update_path(key(tokens), |v| v + 1);
    }
    let paths: Vec<Vec<&str>> = vec![
        vec![],
        vec!["git"],
        vec!["git", "commit"],
        vec!["git", "commit", "-m"],
        vec!["git", "push"],
        vec!["make"],
    ];
    for path in paths.iter() {
        let expected = keys.iter().filter(|k| k.starts_with(path)).count() as u32;
        assert_eq!(trie.get(key(path)), Some(&expected));
    }
    assert_eq!(trie.get(key(&["git", "pull"])), None);
}

#[test]
fn the_two_most_used_commands_come_first() {
    let mut trie: Trie<String, u32> = Trie::new();
    trie.update_path(key(&["cargo"]), |v| v + 1);
    trie.update_path(key(&["cargo", "run"]), |v| v + 1);
    trie.update_path(key(&["cargo", "run"]), |v| v + 1);
    trie.update_path(key(&["cargo", "run", "--release"]), |v| v + 1);
    assert_eq!(
        trie.drain_top_items(2),
        vec![
            KeyValue {
                key: key(&["cargo"]),
                value: 4,
            },
            KeyValue {
                key: key(&["cargo", "run"]),
                value: 3,
            },
        ]
    );
}

#[test]
fn among_equal_values_the_node_met_first_comes_first() {
    let trie = init_trie();
    assert_eq!(
        trie.drain_top_items(6),
        vec![
            KeyValue {
                key: key(&["ls"]),
                value: 4,
            },
            KeyValue {
                key: key(&["ls", "-l"]),
                value: 3,
            },
            KeyValue {
                key: key(&["ls", "-l", "/home"]),
                value: 2,
            },
            KeyValue {
                key: key(&["ls", "-l", "/dev"]),
                value: 1,
            },
            KeyValue {
                key: key(&["cd"]),
                value: 1,
            },
            KeyValue {
                key: key(&["cd", "/dev"]),
                value: 1,
            },
        ]
    );
}

#[test]
fn a_cut_among_equal_values_keeps_those_met_first() {
    let trie = init_trie();
    let drained = trie.drain_top_items(4);
    assert_eq!(drained.len(), 4);
    assert_eq!(drained[3].key, key(&["ls", "-l", "/dev"]));
    let trie = init_trie();
    let drained = trie.drain_top_items(5);
    assert_eq!(drained[4].key, key(&["cd"]));
}

#[test]
fn a_child_may_rank_above_its_parent() {
    let mut trie: Trie<String, u32> = Trie::new();
    trie.update_path(key(&["low"]), |_| 1);
    trie.update_path(key(&["high"]), |_| 3);
    trie.update_path(key(&["low", "top"]), |v| if *v == 0 { 9 } else { *v });
    // "low" holds 1, its child holds 9, and "high" holds 3
    assert_eq!(trie.get(key(&["low"])), Some(&1));
    assert_eq!(trie.get(key(&["low", "top"])), Some(&9));
    assert_eq!(
        trie.drain_top_items(2),
        vec![
            KeyValue {
                key: key(&["low", "top"]),
                value: 9,
            },
            KeyValue {
                key: key(&["high"]),
                value: 3,
            },
        ]
    );
}

#[test]
fn trees_of_executions_are_ranked_by_count() {
    let mut trie: Trie<String, Executions> = Trie::new();
    trie.update_path(key(&["ls"]), |e| e.update(Some(3)));
    trie.update_path(key(&["cd", "/"]), |e| e.update(None));
    trie.update_path(key(&["cd"]), |e| e.update(Some(9)));
    let drained = trie.drain_top_items(1);
    assert_eq!(
        drained,
        vec![KeyValue {
            key: key(&["cd"]),
            value: Executions {
                count: 2,
                last_executed: Some(9),
            },
        }]
    );
}

#[test]
fn an_extractor_keeps_the_best_of_what_it_is_shown() {
    let mut extractor: TopKExtractor<String, u32> = TopKExtractor::new(2);
    extractor.offer(&key(&["a"]), 5);
    extractor.offer(&key(&["b"]), 9);
    extractor.offer(&key(&["c"]), 5);
    extractor.offer(&key(&["d"]), 7);
    extractor.offer(&key(&["e"]), 7);
    assert_eq!(
        extractor.drain(),
        vec![
            KeyValue {
                key: key(&["b"]),
                value: 9,
            },
            KeyValue {
                key: key(&["d"]),
                value: 7,
            },
        ]
    );
}

#[test]
fn an_extractor_without_room_keeps_nothing() {
    let mut extractor: TopKExtractor<String, u32> = TopKExtractor::new(0);
    extractor.offer(&key(&["a"]), 5);
    extractor.offer(&key(&["b"]), 9);
    assert_eq!(extractor.drain(), vec![]);
}

#[test]
fn the_greatest_values_can_be_ranked() {
    let mut extractor: TopKExtractor<String, u32> = TopKExtractor::new(3);
    extractor.offer(&key(&["a"]), u32::MAX);
    extractor.offer(&key(&["b"]), 0);
    extractor.offer(&key(&["c"]), u32::MAX);
    extractor.offer(&key(&["d"]), 1);
    let drained = extractor.drain();
    assert_eq!(drained.len(), 3);
    assert_eq!(drained[0].key, key(&["a"]));
    assert_eq!(drained[1].key, key(&["c"]));
    assert_eq!(drained[2].key, key(&["d"]));
}

#[test]
fn leaving_out_what_lies_below_a_rejected_node_changes_nothing() {
    for n in 0..8 {
        assert_eq!(
            init_trie().drain_top_items_pruned(n),
            init_trie().drain_top_items(n)
        );
    }
}

#[test]
fn a_wide_tree_is_drawn_from_without_its_depths() {
    let mut trie: Trie<String, u32> = Trie::new();
    for (name, times) in [("a", 1), ("b", 5), ("c", 3), ("d", 5), ("e", 2)] {
        for _ in 0..times {
            trie.update_path(key(&[name, "x", "y"]), |v| v + 1);
        }
        trie.update_path(key(&[name, "z"]), |v| v + 1);
    }
    assert_eq!(
        trie.drain_top_items_pruned(3),
        vec![
            KeyValue {
                key: key(&["b"]),
                value: 6,
            },
            KeyValue {
                key: key(&["d"]),
                value: 6,
            },
            KeyValue {
                key: key(&["b", "x"]),
                value: 5,
            },
        ]
    );
}

#[test]
fn a_new_node_is_listed_behind_those_reached_as_it_is() {
    let mut trie: Trie<String, u32> = Trie::new();
    for tokens in [
        vec!["a", "b"],
        vec!["c"],
        vec!["a", "d"],
        vec!["a", "b", "e"],
        vec!["c", "f"],
        vec!["a"],
    ] {
        trie.update_path(key(&tokens), |_| 1);
    }
    // all nodes rank the same, so they come as the tree lists them
    let listed: Vec<Vec<String>> = trie
        .drain_top_items(10)
        .into_iter()
        .map(|node| node.key)
        .collect();
    assert_eq!(
        listed,
        vec![
            key(&["a"]),
            key(&["a", "b"]),
            key(&["a", "b", "e"]),
            key(&["a", "d"]),
            key(&["c"]),
            key(&["c", "f"]),
        ]
    );
}

#[test]
fn the_last_of_the_least_rank_is_the_first_to_go() {
    let mut extractor: TopKExtractor<String, u32> = TopKExtractor::new(3);
    assert!(extractor.offer(&key(&["a"]), 5));
    assert!(extractor.offer(&key(&["b"]), 5));
    assert!(extractor.offer(&key(&["c"]), 5));
    assert!(extractor.offer(&key(&["d"]), 7));
    assert!(!extractor.offer(&key(&["e"]), 5));
    assert!(extractor.offer(&key(&["f"]), 6));
    assert!(!extractor.offer(&key(&["g"]), 5));
    assert!(!extractor.offer(&key(&["h"]), 4));
    let drained: Vec<Vec<String>> = extractor.drain().into_iter().map(|node| node.key).collect();
    assert_eq!(drained, vec![key(&["d"]), key(&["f"]), key(&["a"])]);
}

#[test]
fn an_extractor_keeps_what_a_stable_sort_puts_first() {
    let mut state: u64 = 0x2545_f491_4f6c_dd1d;
    for round in 0..200 {
        let cap = round % 9;
        let length = 1 + (round * 7) % 40;
        let mut extractor: TopKExtractor<String, u32> = TopKExtractor::new(cap);
        let mut shown: Vec<(Vec<String>, u32)> = Vec::new();
        for i in 0..length {
            state = state.wrapping_mul(6364136223846793005).wrapping_add(1442695040888963407);
            let rank = ((state >> 33) % 6) as u32;
            let path = key(&[&format!("n{}", i)]);
            extractor.offer(&path, rank);
            shown.push((path, rank));
        }
        shown.sort_by(|a, b| b.1.cmp(&a.1));
        shown.truncate(cap);
        let drained: Vec<(Vec<String>, u32)> = extractor
            .drain()
            .into_iter()
            .map(|node| (node.key, node.value))
            .collect();
        assert_eq!(drained, shown, "round {}", round);
    }
}
