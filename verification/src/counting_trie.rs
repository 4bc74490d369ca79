//! A prefix tree that counts.
//!
//! A [`CountingTrie`] is told sequences of tokens and says, of any sequence,
//! how many of those it was told start with it.

use crate::children::{
    child_place, distinct_tokens, find_child, lemma_child_found, lemma_same_children,
};
use crate::trie::{tokens, TrieKey};
use vstd::prelude::*;

verus! {

/// A node of a counting prefix tree, and with it the tree below the node.
#[derive(Debug)]
pub struct CountingTrie<K: TrieKey> {
    /// How many of the sequences told to the tree pass through this node.
    pub count: u32,
    /// The nodes one token further, each with its token.
    pub children: Vec<(K, CountingTrie<K>)>,
}

/// What telling a tree the sequence `key` adds to its count at `path`: one
/// where the sequence starts with the path.
pub open spec fn counted<T>(path: Seq<T>, key: Seq<T>) -> nat {
    if path.is_prefix_of(key) {
        1
    } else {
        0
    }
}

/// The sequences that start with `path`.
pub open spec fn starting_with<T>(path: Seq<T>) -> spec_fn(Seq<T>) -> bool {
    |key: Seq<T>| path.is_prefix_of(key)
}

impl<K: TrieKey> View for CountingTrie<K> {
    type V = Map<Seq<K::V>, nat>;

    /// The paths that lead to a node, each with the count of its node.
    open spec fn view(&self) -> Map<Seq<K::V>, nat> {
        Map::new(
            |path: Seq<K::V>| self.node_at(path) is Some,
            |path: Seq<K::V>| self.count_at(path),
        )
    }
}

impl<K: TrieKey> CountingTrie<K> {
    /// No two children of a node are reached by the same token, and no
    /// child counts more than its parent.
    pub closed spec fn wf(&self) -> bool
        decreases self,
    {
        &&& distinct_tokens(self.children@)
        &&& forall|i: int|
            0 <= i < self.children.len() ==> (#[trigger] self.children[i]).1.wf()
                && self.children[i].1.count <= self.count
    }

    /// The node that `path` leads to, if there is such a node.
    pub closed spec fn node_at(&self, path: Seq<K::V>) -> Option<CountingTrie<K>>
        decreases path.len(),
    {
        if path.len() == 0 {
            Some(*self)
        } else {
            match child_place(self.children@, path[0]) {
                Some(i) => self.children[i].1.node_at(path.skip(1)),
                None => None,
            }
        }
    }

    /// The count of the node that `path` leads to; zero where there is no
    /// such node.
    pub open spec fn count_at(&self, path: Seq<K::V>) -> nat {
        match self.node_at(path) {
            Some(node) => node.count as nat,
            None => 0,
        }
    }

    /// The count of the root.
    pub closed spec fn total(&self) -> nat {
        self.count as nat
    }

    /// A tree that has been told nothing.
    pub fn new() -> (trie: Self)
        ensures
            trie.wf(),
            trie.total() == 0,
            forall|path: Seq<K::V>| #[trigger] trie.count_at(path) == 0,
            forall|path: Seq<K::V>| #[trigger] trie.node_at(path) is Some <==> path.len() == 0,
    {
        CountingTrie { count: 0, children: Vec::new() }
    }

    /// Tells the tree one more sequence.
    ///
    /// The count of every node that a start of the sequence leads to grows
    /// by one, the root and the node of the whole sequence among them.
    /// Nodes that the tree lacks are made first.
    pub fn insert(&mut self, key: &Vec<K>)
        requires
            old(self).wf(),
            old(self).total() < u32::MAX,
        ensures
            final(self).wf(),
            final(self).total() == old(self).total() + 1,
            forall|path: Seq<K::V>|
                #[trigger] final(self).count_at(path) == old(self).count_at(path) + counted(
                    path,
                    tokens(key@),
                ),
            forall|path: Seq<K::V>|
                #[trigger] final(self).node_at(path) is Some <==> old(self).node_at(path) is Some
                    || path.is_prefix_of(tokens(key@)),
    {
        assert(tokens(key@).skip(0) =~= tokens(key@));
        self.insert_from(key, 0);
    }

    /// Counts one more sequence in this node and in those below it that the
    /// rest of `key`, from place `from` on, leads to.
    fn insert_from(&mut self, key: &Vec<K>, from: usize)
        requires
            old(self).wf(),
            old(self).count < u32::MAX,
            from <= key.len(),
        ensures
            final(self).wf(),
            final(self).count == old(self).count + 1,
            forall|path: Seq<K::V>|
                #[trigger] final(self).count_at(path) == old(self).count_at(path) + counted(
                    path,
                    tokens(key@).skip(from as int),
                ),
            forall|path: Seq<K::V>|
                #[trigger] final(self).node_at(path) is Some <==> old(self).node_at(path) is Some
                    || path.is_prefix_of(tokens(key@).skip(from as int)),
        decreases key.len() - from,
    {
        let ghost before = *self;
        let ghost rest = tokens(key@).skip(from as int);
        assert(Seq::<K::V>::empty().is_prefix_of(rest));
        self.count = self.count + 1;
        if from < key.len() {
            let ghost token = key[from as int]@;
            assert(rest[0] == token);
            assert(rest.skip(1) =~= tokens(key@).skip(from + 1));
            let place = match find_child(&self.children, &key[from]) {
                Some(i) => i,
                None => {
                    self.children.push((key[from].duplicate(), CountingTrie::new()));
                    self.children.len() - 1
                },
            };
            let ghost grown = *self;
            proof {
                assert(grown.wf());
                lemma_child_found(grown.children@, place as int);
                if child_place(before.children@, token) is Some {
                    lemma_child_found(before.children@, place as int);
                }
            }
            let child = &mut self.children[place].1;
            child.insert_from(key, from + 1);
            proof {
                let after = *self;
                assert(after.children@ == grown.children@.update(
                    place as int,
                    (grown.children[place as int].0, after.children[place as int].1),
                ));
                assert(after.wf());
                lemma_child_found(after.children@, place as int);
                assert forall|path: Seq<K::V>|
                    #![trigger after.node_at(path)]
                    after.count_at(path) == before.count_at(path) + if path.is_prefix_of(rest) {
                        1nat
                    } else {
                        0nat
                    } && (after.node_at(path) is Some <==> before.node_at(path) is Some
                        || path.is_prefix_of(rest)) by {
                    if path.len() > 0 {
                        if path[0] == token {
                            assert(path.is_prefix_of(rest) <==> path.skip(1).is_prefix_of(
                                rest.skip(1),
                            )) by {
                                if path.skip(1).is_prefix_of(rest.skip(1)) {
                                    assert(path =~= seq![token] + path.skip(1));
                                    assert(path.is_prefix_of(rest));
                                }
                            }
                            let below = path.skip(1);
                            assert(after.children[place as int].1.count_at(below)
                                == grown.children[place as int].1.count_at(below)
                                + if below.is_prefix_of(rest.skip(1)) {
                                1nat
                            } else {
                                0nat
                            });
                            assert(after.children[place as int].1.node_at(below) is Some
                                <==> grown.children[place as int].1.node_at(below) is Some
                                || below.is_prefix_of(rest.skip(1)));
                        } else {
                            lemma_same_children(before.children@, after.children@, path[0]);
                        }
                    }
                }
            }
        } else {
            proof {
                let after = *self;
                assert forall|path: Seq<K::V>|
                    #![trigger after.node_at(path)]
                    after.count_at(path) == before.count_at(path) + if path.is_prefix_of(rest) {
                        1nat
                    } else {
                        0nat
                    } && (after.node_at(path) is Some <==> before.node_at(path) is Some
                        || path.is_prefix_of(rest)) by {
                    if path.len() > 0 {
                        lemma_same_children(before.children@, after.children@, path[0]);
                    }
                }
            }
        }
    }

    /// The node that `key` leads to, if the tree has that node.
    pub fn get(&self, key: &Vec<K>) -> (found: Option<&CountingTrie<K>>)
        requires
            self.wf(),
        ensures
            match found {
                Some(node) => self.node_at(tokens(key@)) == Some(*node),
                None => self.node_at(tokens(key@)) is None,
            },
            key.len() == 0 ==> found == Some(self),
    {
        let ghost path = tokens(key@);
        let mut node = self;
        let mut at: usize = 0;
        assert(path.skip(0) =~= path);
        while at < key.len()
            invariant
                at <= key.len(),
                path == tokens(key@),
                node.wf(),
                self.node_at(path) == node.node_at(path.skip(at as int)),
            decreases key.len() - at,
        {
            let ghost rest = path.skip(at as int);
            assert(rest[0] == key[at as int]@);
            assert(rest.skip(1) =~= path.skip(at + 1));
            match find_child(&node.children, &key[at]) {
                Some(i) => {
                    node = &node.children[i].1;
                },
                None => {
                    return None;
                },
            }
            at += 1;
        }
        Some(node)
    }

    /// How many of the sequences told to the tree start with `key`.
    pub fn get_count(&self, key: &Vec<K>) -> (count: u32)
        requires
            self.wf(),
        ensures
            count == self.count_at(tokens(key@)),
            key.len() == 0 ==> count == self.total(),
    {
        match self.get(key) {
            Some(trie) => trie.count,
            None => 0,
        }
    }

    /// The tree that was told every sequence of `source`.
    ///
    /// Its count at a path is the number of sequences of `source` that start
    /// with the path.
    pub fn from(source: &Vec<Vec<K>>) -> (trie: Self)
        requires
            source.len() <= u32::MAX,
        ensures
            trie.wf(),
            forall|path: Seq<K::V>| #[trigger]
                trie.count_at(path) == told(source@).filter(starting_with(path)).len(),
    {
        let ghost keys = told(source@);
        let mut trie = CountingTrie::new();
        let mut i: usize = 0;
        assert(keys.take(0) =~= Seq::<Seq<K::V>>::empty());
        assert forall|path: Seq<K::V>| #[trigger]
            trie.count_at(path) == keys.take(0).filter(starting_with(path)).len() by {
            keys.take(0).lemma_filter_len(starting_with(path));
        }
        while i < source.len()
            invariant
                i <= source.len(),
                source.len() <= u32::MAX,
                keys == told(source@),
                trie.wf(),
                trie.total() == i,
                forall|path: Seq<K::V>| #[trigger]
                    trie.count_at(path) == keys.take(i as int).filter(starting_with(path)).len(),
            decreases source.len() - i,
        {
            let ghost before = trie;
            let ghost done = keys.take(i as int);
            assert(keys.take(i + 1) =~= done.push(tokens(source[i as int]@)));
            trie.insert(&source[i]);
            assert forall|path: Seq<K::V>| #[trigger]
                trie.count_at(path) == keys.take(i + 1).filter(starting_with(path)).len() by {
                broadcast use Seq::lemma_filter_push;

                assert(before.count_at(path) == done.filter(starting_with(path)).len());
            }
            i += 1;
        }
        assert(keys.take(source.len() as int) =~= keys);
        trie
    }

    /// The empty path leads to the root, and the count there is the count
    /// of the tree.
    pub proof fn lemma_total_is_root_count(&self)
        ensures
            self.node_at(Seq::empty()) == Some(*self),
            self.count_at(Seq::empty()) == self.total(),
            self@.contains_key(Seq::empty()),
    {
    }
}

/// The sequences of tokens that a list of keys stands for.
pub open spec fn told<K: View>(source: Seq<Vec<K>>) -> Seq<Seq<K::V>> {
    source.map_values(|key: Vec<K>| tokens(key@))
}

} // verus!
