//! A prefix tree keyed by sequences of tokens.
//!
//! Every node of a [`Trie`] stands for the sequence of tokens that leads to
//! it from the root, and holds one value. Folding an observation into the
//! tree along a sequence touches the root, every node on the way and the node
//! of the sequence itself, so that a node's value sums up every sequence that
//! starts with its own.
//!
//! A tree is taken apart by showing its nodes to a [`Collector`], which
//! keeps of them what it is made to keep.

use crate::paths::{
    grown, lemma_grown_behind_head, lemma_grown_inside, lemma_last_with_is, lemma_paths_of_joined,
    paths_of, with_path,
};
use crate::counting_trie::starting_with;
use crate::children::{
    child_place, distinct_tokens, find_child, lemma_child_found, lemma_same_children,
};
use vstd::prelude::*;

verus! {

/// A token of a sequence that a [`Trie`] is keyed by.
///
/// Two tokens are the same where their views are equal.
pub trait TrieKey: View + Sized {
    /// Whether the two tokens are the same.
    fn same(&self, other: &Self) -> (same: bool)
        ensures
            same == (self@ == other@),
    ;

    /// A second token that is the same as this one.
    fn duplicate(&self) -> (copy: Self)
        ensures
            copy@ == self@,
    ;
}

impl TrieKey for String {
    fn same(&self, other: &Self) -> (same: bool) {
        *self == *other
    }

    fn duplicate(&self) -> (copy: Self) {
        self.clone()
    }
}

/// A value that a node of a [`Trie`] holds.
pub trait TrieValue: Sized {
    /// The value of a node that no observation has been folded into.
    spec fn initial() -> Self;

    /// Makes the value of a new node.
    fn fresh() -> (value: Self)
        ensures
            value == Self::initial(),
    ;
}

impl TrieValue for u32 {
    open spec fn initial() -> Self {
        0
    }

    fn fresh() -> (value: Self) {
        0
    }
}

/// The sequence of tokens that a key stands for.
pub open spec fn tokens<K: View>(key: Seq<K>) -> Seq<K::V> {
    key.map_values(|k: K| k@)
}

/// Something that is shown the nodes of a tree one after the other.
///
/// It records, in its own way, what it needs of the nodes it was shown;
/// `seen` is the sequence of all of them, each as the path that leads to the
/// node and the value the node held.
pub trait Collector<K: TrieKey, V>: Sized {
    /// What the collector's own data must satisfy.
    spec fn inv(&self) -> bool;

    /// The number of nodes that the collector keeps at most.
    spec fn limit(&self) -> nat;

    /// The nodes shown so far, first to last.
    spec fn seen(&self) -> Seq<(Seq<K::V>, V)>;

    /// Whether a collector of `limit` places that was shown `seen` keeps
    /// `entry` when it is shown it next.
    spec fn keeps(seen: Seq<(Seq<K::V>, V)>, limit: nat, entry: (Seq<K::V>, V)) -> bool;

    /// Shows the collector one more node, and says whether it kept the
    /// node.
    fn offer(&mut self, key: &Vec<K>, value: V) -> (kept: bool)
        requires
            old(self).inv(),
        ensures
            final(self).inv(),
            final(self).limit() == old(self).limit(),
            final(self).seen() == old(self).seen().push((tokens(key@), value)),
            kept == Self::keeps(old(self).seen(), old(self).limit(), (tokens(key@), value)),
    ;
}

/// The collector, shown `seen` and then the entries of `shown` before place
/// `k`, does not keep the entry at place `k`.
pub open spec fn declined<K: TrieKey, V, C: Collector<K, V>>(
    seen: Seq<(Seq<K::V>, V)>,
    limit: nat,
    shown: Seq<(Seq<K::V>, V)>,
    k: int,
) -> bool {
    !C::keeps(seen + shown.take(k), limit, shown[k])
}

/// `shown` is `all` without some of its entries, in the order of `all`:
/// `place` gives for each entry shown its place in `all`, and every entry
/// left out comes behind an entry that was shown and not kept, and has a
/// path that starts with the path of that entry.
pub open spec fn prunes<K: TrieKey, V, C: Collector<K, V>>(
    seen: Seq<(Seq<K::V>, V)>,
    limit: nat,
    shown: Seq<(Seq<K::V>, V)>,
    all: Seq<(Seq<K::V>, V)>,
    place: Seq<int>,
) -> bool {
    &&& place.len() == shown.len()
    &&& forall|k: int|
        0 <= k < shown.len() ==> 0 <= #[trigger] place[k] < all.len() && all[place[k]] == shown[k]
    &&& forall|k: int, l: int|
        0 <= k < l < shown.len() ==> #[trigger] place[k] < #[trigger] place[l]
    &&& forall|i: int|
        #![trigger place.contains(i)]
        0 <= i < all.len() && !place.contains(i) ==> exists|k: int|
            0 <= k < shown.len() && #[trigger] place[k] < i && declined::<K, V, C>(
                seen,
                limit,
                shown,
                k,
            ) && shown[k].0.is_prefix_of(all[i].0)
}

/// What was shown of one list of entries and then of a second is what was
/// shown of the two lists joined.
proof fn lemma_prunes_join<K: TrieKey, V, C: Collector<K, V>>(
    seen: Seq<(Seq<K::V>, V)>,
    limit: nat,
    shown1: Seq<(Seq<K::V>, V)>,
    all1: Seq<(Seq<K::V>, V)>,
    place1: Seq<int>,
    shown2: Seq<(Seq<K::V>, V)>,
    all2: Seq<(Seq<K::V>, V)>,
    place2: Seq<int>,
) -> (place: Seq<int>)
    requires
        prunes::<K, V, C>(seen, limit, shown1, all1, place1),
        prunes::<K, V, C>(seen + shown1, limit, shown2, all2, place2),
    ensures
        prunes::<K, V, C>(seen, limit, shown1 + shown2, all1 + all2, place),
{
    let shift = all1.len() as int;
    let place = place1 + place2.map_values(|x: int| x + shift);
    let shown = shown1 + shown2;
    let all = all1 + all2;
    assert forall|k: int| 0 <= k < shown.len() implies 0 <= #[trigger] place[k] < all.len()
        && all[place[k]] == shown[k] by {
        if k < shown1.len() {
            assert(place[k] == place1[k]);
        } else {
            assert(place[k] == place2[k - shown1.len()] + shift);
        }
    }
    assert forall|k: int, l: int| 0 <= k < l < shown.len() implies #[trigger] place[k]
        < #[trigger] place[l] by {
        if l < shown1.len() {
            assert(place1[k] < place1[l]);
        } else if k >= shown1.len() {
            assert(place2[k - shown1.len()] < place2[l - shown1.len()]);
        } else {
            assert(place[k] == place1[k]);
            assert(place[l] == place2[l - shown1.len()] + shift);
        }
    }
    assert forall|i: int|
        #![trigger place.contains(i)]
        0 <= i < all.len() && !place.contains(i) implies exists|k: int|
        0 <= k < shown.len() && #[trigger] place[k] < i && declined::<K, V, C>(
            seen,
            limit,
            shown,
            k,
        ) && shown[k].0.is_prefix_of(all[i].0) by {
        if i < shift {
            if place1.contains(i) {
                let k = choose|k: int| 0 <= k < place1.len() && place1[k] == i;
                assert(place[k] == i);
            }
            assert(all1[i] == all[i]);
            let k = choose|k: int|
                0 <= k < shown1.len() && #[trigger] place1[k] < i && declined::<K, V, C>(
                    seen,
                    limit,
                    shown1,
                    k,
                ) && shown1[k].0.is_prefix_of(all1[i].0);
            assert(shown.take(k) =~= shown1.take(k));
            assert(place[k] == place1[k]);
        } else {
            let j = i - shift;
            if place2.contains(j) {
                let k = choose|k: int| 0 <= k < place2.len() && place2[k] == j;
                assert(place[shown1.len() + k] == i);
            }
            assert(all2[j] == all[i]);
            let k = choose|k: int|
                0 <= k < shown2.len() && #[trigger] place2[k] < j && declined::<K, V, C>(
                    seen + shown1,
                    limit,
                    shown2,
                    k,
                ) && shown2[k].0.is_prefix_of(all2[j].0);
            let at = shown1.len() + k;
            assert(seen + shown.take(at) =~= (seen + shown1) + shown2.take(k));
            assert(place[at] == place2[k] + shift);
            assert(shown[at] == shown2[k]);
        }
    }
    place
}

/// A prefix tree with one value per node.
pub struct Trie<K: TrieKey, V: TrieValue> {
    value: V,
    children: Vec<(K, Trie<K, V>)>,
}

impl<K: TrieKey, V: TrieValue> View for Trie<K, V> {
    type V = Map<Seq<K::V>, V>;

    /// The paths that lead to a node, each with the value of its node. The
    /// empty path leads to the root.
    open spec fn view(&self) -> Map<Seq<K::V>, V> {
        Map::new(
            |path: Seq<K::V>| self.value_at(path) is Some,
            |path: Seq<K::V>| self.value_at(path)->0,
        )
    }
}

impl<K: TrieKey, V: TrieValue> Trie<K, V> {
    /// No two children of a node are reached by the same token.
    pub closed spec fn wf(&self) -> bool
        decreases self,
    {
        &&& distinct_tokens(self.children@)
        &&& forall|i: int| 0 <= i < self.children.len() ==> (#[trigger] self.children[i]).1.wf()
    }

    /// The value of the node that `path` leads to, if there is such a node.
    pub closed spec fn value_at(&self, path: Seq<K::V>) -> Option<V>
        decreases path.len(),
    {
        if path.len() == 0 {
            Some(self.value)
        } else {
            match child_place(self.children@, path[0]) {
                Some(i) => self.children[i].1.value_at(path.skip(1)),
                None => None,
            }
        }
    }

    /// The value that folding starts from at `path`: the one held there, or
    /// the initial value where the tree has no such node yet.
    pub open spec fn value_or_initial(&self, path: Seq<K::V>) -> V {
        match self.value_at(path) {
            Some(value) => value,
            None => V::initial(),
        }
    }

    /// A tree of one node, the root, which holds the initial value.
    pub fn new() -> (trie: Self)
        ensures
            trie.wf(),
            trie.entries() == Seq::<(Seq<K::V>, V)>::empty(),
            forall|path: Seq<K::V>| #[trigger]
                trie.value_at(path) == if path.len() == 0 {
                    Some(V::initial())
                } else {
                    None
                },
    {
        Self::leaf()
    }

    /// A node without children, which holds the initial value.
    fn leaf() -> (node: Self)
        ensures
            node.wf(),
            node.children.len() == 0,
            node.value == V::initial(),
    {
        Trie { value: V::fresh(), children: Vec::new() }
    }

    /// The value of the node that `key` leads to, if the tree has that node.
    pub fn get(&self, key: Vec<K>) -> (found: Option<&V>)
        requires
            self.wf(),
        ensures
            match found {
                Some(value) => self.value_at(tokens(key@)) == Some(*value),
                None => self.value_at(tokens(key@)) is None,
            },
            key.len() == 0 ==> found is Some,
    {
        let ghost path = tokens(key@);
        let mut node = self;
        let mut at: usize = 0;
        assert(path.skip(0) =~= path);
        while at < key.len()
            invariant
                at <= key.len(),
                path == tokens(key@),
                node.wf(),
                self.value_at(path) == node.value_at(path.skip(at as int)),
            decreases key.len() - at,
        {
            let ghost rest = path.skip(at as int);
            assert(rest[0] == key[at as int]@);
            assert(rest.skip(1) =~= path.skip(at + 1));
            match find_child(&node.children, &key[at]) {
                Some(i) => {
                    node = &node.children[i].1;
                },
                None => {
                    return None;
                },
            }
            at += 1;
        }
        Some(&node.value)
    }

    /// Folds one observation into the tree along `key`.
    ///
    /// The value of the root, of every node on the way and of the node that
    /// `key` leads to is replaced by what `f` makes of it. Nodes that the
    /// tree lacks are made first, with the initial value. Every other node
    /// keeps its value. The tree lists a new node behind the nodes that are
    /// reached as it is up to its last token.
    pub fn update_path<F: Fn(&V) -> V>(&mut self, key: Vec<K>, f: F)
        requires
            old(self).wf(),
            forall|path: Seq<K::V>| #[trigger]
                path.is_prefix_of(tokens(key@)) ==> call_requires(
                    f,
                    (&old(self).value_or_initial(path),),
                ),
        ensures
            final(self).wf(),
            forall|path: Seq<K::V>| #[trigger]
                path.is_prefix_of(tokens(key@)) ==> final(self).value_at(path) is Some
                    && call_ensures(
                    f,
                    (&old(self).value_or_initial(path),),
                    final(self).value_at(path)->0,
                ),
            forall|path: Seq<K::V>|
                !(#[trigger] path.is_prefix_of(tokens(key@))) ==> final(self).value_at(path)
                    == old(self).value_at(path),
            paths_of(final(self).entries()) == grown(
                paths_of(old(self).entries()),
                Seq::empty(),
                tokens(key@),
            ),
    {
        assert(tokens(key@).skip(0) =~= tokens(key@));
        let ghost before = *self;
        self.update_from(&key, 0, &f);
        assert(self.paths_below(Seq::empty()) == grown(
            before.paths_below(Seq::empty()),
            Seq::empty(),
            tokens(key@),
        ));
    }

    /// Folds one observation into this node and into those below it that
    /// the rest of `key`, from place `from` on, leads to.
    fn update_from<F: Fn(&V) -> V>(&mut self, key: &Vec<K>, from: usize, f: &F)
        requires
            old(self).wf(),
            from <= key.len(),
            forall|path: Seq<K::V>| #[trigger]
                path.is_prefix_of(tokens(key@).skip(from as int)) ==> call_requires(
                    *f,
                    (&old(self).value_or_initial(path),),
                ),
        ensures
            final(self).wf(),
            forall|path: Seq<K::V>| #[trigger]
                path.is_prefix_of(tokens(key@).skip(from as int)) ==> final(self).value_at(path)
                    is Some && call_ensures(
                    *f,
                    (&old(self).value_or_initial(path),),
                    final(self).value_at(path)->0,
                ),
            forall|path: Seq<K::V>|
                !(#[trigger] path.is_prefix_of(tokens(key@).skip(from as int)))
                    ==> final(self).value_at(path) == old(self).value_at(path),
            forall|path: Seq<K::V>| #[trigger]
                final(self).paths_below(path) == grown(
                    old(self).paths_below(path),
                    path,
                    tokens(key@).skip(from as int),
                ),
        decreases key.len() - from,
    {
        let ghost before = *self;
        let ghost rest = tokens(key@).skip(from as int);
        assert(Seq::<K::V>::empty().is_prefix_of(rest));
        assert(before.value_at(Seq::empty()) == Some(before.value));
        self.value = f(&self.value);
        if from < key.len() {
            let ghost token = key[from as int]@;
            assert(rest[0] == token);
            assert(rest.skip(1) =~= tokens(key@).skip(from + 1));
            let place = match find_child(&self.children, &key[from]) {
                Some(i) => i,
                None => {
                    self.children.push((key[from].duplicate(), Self::leaf()));
                    self.children.len() - 1
                },
            };
            let ghost wider = *self;
            proof {
                assert(wider.wf());
                lemma_child_found(wider.children@, place as int);
                assert forall|path: Seq<K::V>| #[trigger]
                    path.is_prefix_of(rest.skip(1)) implies call_requires(
                    *f,
                    (&wider.children[place as int].1.value_or_initial(path),),
                ) by {
                    let longer = seq![token] + path;
                    assert(longer.skip(1) =~= path);
                    assert(longer.is_prefix_of(rest));
                    if child_place(before.children@, token) is Some {
                        lemma_child_found(before.children@, place as int);
                    }
                }
            }
            let child = &mut self.children[place].1;
            child.update_from(key, from + 1, f);
            proof {
                let after = *self;
                assert(after.children@ == wider.children@.update(
                    place as int,
                    (wider.children[place as int].0, after.children[place as int].1),
                ));
                assert(after.wf());
                lemma_child_found(after.children@, place as int);
                assert forall|path: Seq<K::V>| #[trigger]
                    path.is_prefix_of(rest) implies after.value_at(path) is Some && call_ensures(
                    *f,
                    (&before.value_or_initial(path),),
                    after.value_at(path)->0,
                ) by {
                    if path.len() > 0 {
                        assert(path[0] == token);
                        assert(path.skip(1).is_prefix_of(rest.skip(1)));
                        if child_place(before.children@, token) is Some {
                            lemma_child_found(before.children@, place as int);
                        }
                    }
                }
                assert forall|path: Seq<K::V>|
                    !(#[trigger] path.is_prefix_of(rest)) implies after.value_at(path)
                    == before.value_at(path) by {
                    assert(path.len() > 0);
                    if path[0] == token {
                        assert(!path.skip(1).is_prefix_of(rest.skip(1))) by {
                            if path.skip(1).is_prefix_of(rest.skip(1)) {
                                assert(path =~= seq![token] + path.skip(1));
                                assert(path.is_prefix_of(rest));
                            }
                        }
                        if child_place(before.children@, token) is Some {
                            lemma_child_found(before.children@, place as int);
                        }
                    } else {
                        lemma_same_children(before.children@, after.children@, path[0]);
                    }
                }
                assert forall|path: Seq<K::V>| #[trigger]
                    after.paths_below(path) == grown(before.paths_below(path), path, rest) by {
                    before.lemma_paths_grow(wider, after, place as int, path, rest);
                }
            }
        } else {
            proof {
                let after = *self;
                assert forall|path: Seq<K::V>| #[trigger]
                    path.is_prefix_of(rest) implies after.value_at(path) is Some && call_ensures(
                    *f,
                    (&before.value_or_initial(path),),
                    after.value_at(path)->0,
                ) by {
                    assert(path.len() == 0);
                }
                assert forall|path: Seq<K::V>|
                    !(#[trigger] path.is_prefix_of(rest)) implies after.value_at(path)
                    == before.value_at(path) by {
                    assert(path.len() > 0);
                    lemma_same_children(before.children@, after.children@, path[0]);
                }
                assert forall|path: Seq<K::V>| #[trigger]
                    after.paths_below(path) == grown(before.paths_below(path), path, rest) by {
                    before.lemma_same_below(after, path, before.children.len() as nat);
                }
            }
        }
    }

    /// The nodes of the tree but for its root, each as the path that leads to
    /// it and the value it holds. A node comes before those below it, and
    /// the children of a node come in the order in which they were made.
    pub closed spec fn entries(&self) -> Seq<(Seq<K::V>, V)> {
        self.below(Seq::empty(), self.children.len() as nat)
    }

    /// The paths of the nodes below this one, which `path` leads to.
    spec fn paths_below(&self, path: Seq<K::V>) -> Seq<Seq<K::V>> {
        paths_of(self.below(path, self.children.len() as nat))
    }

    /// The nodes below this one, reached by `path`, under its children
    /// from the one at place `n` on.
    spec fn behind(&self, path: Seq<K::V>, n: nat) -> Seq<(Seq<K::V>, V)>
        decreases self, 0nat, self.children.len() - n,
    {
        if n >= self.children.len() {
            Seq::empty()
        } else {
            self.children[n as int].1.subtree(path.push(self.children[n as int].0@)) + self.behind(
                path,
                n + 1,
            )
        }
    }

    /// This node, reached by `path`, and then the nodes below it.
    spec fn subtree(&self, path: Seq<K::V>) -> Seq<(Seq<K::V>, V)>
        decreases self, 1nat, 0nat,
    {
        seq![(path, self.value)] + self.below(path, self.children.len() as nat)
    }

    /// The nodes below this one, reached by `path`, under its first `n`
    /// children.
    spec fn below(&self, path: Seq<K::V>, n: nat) -> Seq<(Seq<K::V>, V)>
        decreases self, 0nat, n,
    {
        if n == 0 || n > self.children.len() {
            Seq::empty()
        } else {
            self.below(path, (n - 1) as nat) + self.children[n - 1].1.subtree(
                path.push(self.children[n - 1].0@),
            )
        }
    }

    /// Takes the tree apart and shows `collector` every node but the root:
    /// a node before those below it, children in the order in which they
    /// were made.
    pub fn drain_into<C: Collector<K, V>>(self, collector: &mut C)
        requires
            old(collector).inv(),
        ensures
            final(collector).inv(),
            final(collector).limit() == old(collector).limit(),
            final(collector).seen() == old(collector).seen() + self.entries(),
    {
        let key: Vec<K> = Vec::new();
        assert(tokens(key@) =~= Seq::empty());
        let ghost node = self;
        let Trie { value: _, children } = self;
        Self::show_children(children, &key, collector, Ghost(node));
    }

    /// Shows `collector` this node, which `key` leads to, and then the
    /// nodes below it.
    fn show_subtree<C: Collector<K, V>>(self, key: Vec<K>, collector: &mut C)
        requires
            old(collector).inv(),
        ensures
            final(collector).inv(),
            final(collector).limit() == old(collector).limit(),
            final(collector).seen() == old(collector).seen() + self.subtree(tokens(key@)),
        decreases self, 1nat,
    {
        let ghost node = self;
        let ghost start = collector.seen();
        let Trie { value, children } = self;
        let _ = collector.offer(&key, value);
        Self::show_children(children, &key, collector, Ghost(node));
        assert(collector.seen() =~= start + node.subtree(tokens(key@)));
    }

    /// Shows `collector` the nodes below `node`, which `key` leads to and
    /// whose children are `children`.
    fn show_children<C: Collector<K, V>>(
        children: Vec<(K, Trie<K, V>)>,
        key: &Vec<K>,
        collector: &mut C,
        Ghost(node): Ghost<Self>,
    )
        requires
            children == node.children,
            old(collector).inv(),
        ensures
            final(collector).inv(),
            final(collector).limit() == old(collector).limit(),
            final(collector).seen() == old(collector).seen() + node.below(
                tokens(key@),
                node.children.len() as nat,
            ),
        decreases node, 0nat,
    {
        let ghost path = tokens(key@);
        let ghost start = collector.seen();
        assert(collector.seen() =~= start + node.below(path, 0));
        let ghost limit = collector.limit();
        for pair in it: children
            invariant
                collector.inv(),
                collector.limit() == limit,
                path == tokens(key@),
                it.seq() == node.children@,
                collector.seen() == start + node.below(path, it.index() as nat),
        {
            let ghost at = it.index() as int;
            assert(pair == node.children[at]);
            let (token, child) = pair;
            assert(child == node.children[at].1);
            let longer = extend(key, token);
            child.show_subtree(longer, collector);
            assert(collector.seen() =~= start + node.below(path, (at + 1) as nat));
        }
    }

    /// The entries that a collector of `limit` places, shown `seen` before,
    /// is shown of the tree when nothing below a node that it does not keep
    /// is shown to it.
    pub closed spec fn pruned_entries<C: Collector<K, V>>(
        &self,
        seen: Seq<(Seq<K::V>, V)>,
        limit: nat,
    ) -> Seq<(Seq<K::V>, V)> {
        self.pruned_below::<C>(Seq::empty(), self.children.len() as nat, seen, limit)
    }

    /// This node, reached by `path`, and then what is shown of the nodes
    /// below it, which is nothing where the collector does not keep the
    /// node.
    spec fn pruned_subtree<C: Collector<K, V>>(
        &self,
        path: Seq<K::V>,
        seen: Seq<(Seq<K::V>, V)>,
        limit: nat,
    ) -> Seq<(Seq<K::V>, V)>
        decreases self, 1nat, 0nat,
    {
        let entry = (path, self.value);
        if C::keeps(seen, limit, entry) {
            seq![entry] + self.pruned_below::<C>(
                path,
                self.children.len() as nat,
                seen.push(entry),
                limit,
            )
        } else {
            seq![entry]
        }
    }

    /// What is shown of the nodes under the first `n` children.
    spec fn pruned_below<C: Collector<K, V>>(
        &self,
        path: Seq<K::V>,
        n: nat,
        seen: Seq<(Seq<K::V>, V)>,
        limit: nat,
    ) -> Seq<(Seq<K::V>, V)>
        decreases self, 0nat, n,
    {
        if n == 0 || n > self.children.len() {
            Seq::empty()
        } else {
            let first = self.pruned_below::<C>(path, (n - 1) as nat, seen, limit);
            first + self.children[n - 1].1.pruned_subtree::<C>(
                path.push(self.children[n - 1].0@),
                seen + first,
                limit,
            )
        }
    }

    /// Takes the tree apart and shows `collector` its nodes but the root, a
    /// node before those below it, children in the order in which they were
    /// made; but nothing below a node that the collector did not keep.
    pub fn drain_into_pruned<C: Collector<K, V>>(self, collector: &mut C)
        requires
            old(collector).inv(),
        ensures
            final(collector).inv(),
            final(collector).limit() == old(collector).limit(),
            final(collector).seen() == old(collector).seen() + self.pruned_entries::<C>(
                old(collector).seen(),
                old(collector).limit(),
            ),
    {
        let key: Vec<K> = Vec::new();
        assert(tokens(key@) =~= Seq::empty());
        let ghost node = self;
        let Trie { value: _, children } = self;
        Self::show_kept_children(children, &key, collector, Ghost(node));
    }

    /// Shows `collector` this node, which `key` leads to, and then, if the
    /// collector kept it, the nodes below it in the same way.
    fn show_kept_subtree<C: Collector<K, V>>(self, key: Vec<K>, collector: &mut C)
        requires
            old(collector).inv(),
        ensures
            final(collector).inv(),
            final(collector).limit() == old(collector).limit(),
            final(collector).seen() == old(collector).seen() + self.pruned_subtree::<C>(
                tokens(key@),
                old(collector).seen(),
                old(collector).limit(),
            ),
        decreases self, 1nat,
    {
        let ghost node = self;
        let ghost start = collector.seen();
        let ghost limit = collector.limit();
        let Trie { value, children } = self;
        if collector.offer(&key, value) {
            Self::show_kept_children(children, &key, collector, Ghost(node));
            assert(collector.seen() =~= start + node.pruned_subtree::<C>(
                tokens(key@),
                start,
                limit,
            ));
        } else {
            assert(collector.seen() =~= start + node.pruned_subtree::<C>(
                tokens(key@),
                start,
                limit,
            ));
        }
    }

    /// Shows `collector` what is to be shown of the nodes below `node`,
    /// which `key` leads to and whose children are `children`.
    fn show_kept_children<C: Collector<K, V>>(
        children: Vec<(K, Trie<K, V>)>,
        key: &Vec<K>,
        collector: &mut C,
        Ghost(node): Ghost<Self>,
    )
        requires
            children == node.children,
            old(collector).inv(),
        ensures
            final(collector).inv(),
            final(collector).limit() == old(collector).limit(),
            final(collector).seen() == old(collector).seen() + node.pruned_below::<C>(
                tokens(key@),
                node.children.len() as nat,
                old(collector).seen(),
                old(collector).limit(),
            ),
        decreases node, 0nat,
    {
        let ghost path = tokens(key@);
        let ghost start = collector.seen();
        let ghost limit = collector.limit();
        assert(collector.seen() =~= start + node.pruned_below::<C>(path, 0, start, limit));
        for pair in it: children
            invariant
                collector.inv(),
                collector.limit() == limit,
                path == tokens(key@),
                it.seq() == node.children@,
                collector.seen() == start + node.pruned_below::<C>(
                    path,
                    it.index() as nat,
                    start,
                    limit,
                ),
        {
            let ghost at = it.index() as int;
            assert(pair == node.children[at]);
            let (token, child) = pair;
            assert(child == node.children[at].1);
            let longer = extend(key, token);
            child.show_kept_subtree(longer, collector);
            assert(collector.seen() =~= start + node.pruned_below::<C>(
                path,
                (at + 1) as nat,
                start,
                limit,
            ));
        }
    }

    /// What is shown of the nodes under the first `n` children is what is
    /// left of them when the nodes below a node that was not kept are left
    /// out.
    proof fn lemma_pruned_below<C: Collector<K, V>>(
        &self,
        path: Seq<K::V>,
        n: nat,
        seen: Seq<(Seq<K::V>, V)>,
        limit: nat,
    ) -> (place: Seq<int>)
        requires
            self.wf(),
            n <= self.children.len(),
        ensures
            prunes::<K, V, C>(
                seen,
                limit,
                self.pruned_below::<C>(path, n, seen, limit),
                self.below(path, n),
                place,
            ),
        decreases self, 0nat, n,
    {
        if n == 0 {
            Seq::empty()
        } else {
            let first = self.pruned_below::<C>(path, (n - 1) as nat, seen, limit);
            let child = self.children[n - 1].1;
            let longer = path.push(self.children[n - 1].0@);
            let place1 = self.lemma_pruned_below::<C>(path, (n - 1) as nat, seen, limit);
            let place2 = child.lemma_pruned_subtree::<C>(longer, seen + first, limit);
            lemma_prunes_join::<K, V, C>(
                seen,
                limit,
                first,
                self.below(path, (n - 1) as nat),
                place1,
                child.pruned_subtree::<C>(longer, seen + first, limit),
                child.subtree(longer),
                place2,
            )
        }
    }

    /// What is shown of a node and the nodes below it is what is left of
    /// them when the nodes below a node that was not kept are left out.
    proof fn lemma_pruned_subtree<C: Collector<K, V>>(
        &self,
        path: Seq<K::V>,
        seen: Seq<(Seq<K::V>, V)>,
        limit: nat,
    ) -> (place: Seq<int>)
        requires
            self.wf(),
        ensures
            prunes::<K, V, C>(
                seen,
                limit,
                self.pruned_subtree::<C>(path, seen, limit),
                self.subtree(path),
                place,
            ),
        decreases self, 1nat, 0nat,
    {
        let entry = (path, self.value);
        let n = self.children.len() as nat;
        let under = self.below(path, n);
        let alone = seq![entry];
        let first = seq![0int];
        assert(seen + alone.take(0) =~= seen);
        if C::keeps(seen, limit, entry) {
            assert(prunes::<K, V, C>(seen, limit, alone, alone, first)) by {
                assert forall|i: int| 0 <= i < alone.len() implies first.contains(i) by {
                    assert(first[0] == i);
                }
            }
            assert(seen + alone =~= seen.push(entry));
            let place2 = self.lemma_pruned_below::<C>(path, n, seen.push(entry), limit);
            lemma_prunes_join::<K, V, C>(
                seen,
                limit,
                alone,
                alone,
                first,
                self.pruned_below::<C>(path, n, seen.push(entry), limit),
                under,
                place2,
            )
        } else {
            let all = self.subtree(path);
            self.lemma_below_sound(path, n);
            assert forall|i: int|
                #![trigger first.contains(i)]
                0 <= i < all.len() && !first.contains(i) implies exists|k: int|
                0 <= k < alone.len() && #[trigger] first[k] < i && declined::<K, V, C>(
                    seen,
                    limit,
                    alone,
                    k,
                ) && alone[k].0.is_prefix_of(all[i].0) by {
                if i == 0 {
                    assert(first[0] == i);
                }
                assert(self.names_below(path, n, under[i - 1]));
                assert(first[0] < i);
            }
            first
        }
    }

    /// What a collector is shown of the tree when nothing below a node that
    /// it does not keep is shown to it: the entries of the tree without
    /// some of them, in their order; and every entry left out gives a node
    /// below one that was shown and not kept.
    pub proof fn lemma_pruned_entries<C: Collector<K, V>>(
        &self,
        seen: Seq<(Seq<K::V>, V)>,
        limit: nat,
    ) -> (place: Seq<int>)
        requires
            self.wf(),
        ensures
            prunes::<K, V, C>(
                seen,
                limit,
                self.pruned_entries::<C>(seen, limit),
                self.entries(),
                place,
            ),
    {
        self.lemma_pruned_below::<C>(Seq::empty(), self.children.len() as nat, seen, limit)
    }

    /// `entry` gives a node at or below this one, which `path` leads to: its
    /// path starts with `path` and goes on to a node that holds its value.
    spec fn names_node(&self, path: Seq<K::V>, entry: (Seq<K::V>, V)) -> bool {
        &&& path.is_prefix_of(entry.0)
        &&& self.value_at(entry.0.skip(path.len() as int)) == Some(entry.1)
    }

    /// `entry` gives a node under one of the first `n` children.
    spec fn names_below(&self, path: Seq<K::V>, n: nat, entry: (Seq<K::V>, V)) -> bool {
        &&& self.names_node(path, entry)
        &&& entry.0.len() > path.len()
        &&& child_place(self.children@, entry.0[path.len() as int]) matches Some(c) && c < n
    }

    /// Every entry under the first `n` children gives a node there.
    proof fn lemma_below_sound(&self, path: Seq<K::V>, n: nat)
        requires
            self.wf(),
            n <= self.children.len(),
        ensures
            forall|i: int|
                0 <= i < self.below(path, n).len() ==> self.names_below(
                    path,
                    n,
                    #[trigger] self.below(path, n)[i],
                ),
        decreases self, 0nat, n,
    {
        if n > 0 {
            let token = self.children[n - 1].0@;
            let child = self.children[n - 1].1;
            let longer = path.push(token);
            let before = self.below(path, (n - 1) as nat);
            let under = child.subtree(longer);
            let all = self.below(path, n);
            self.lemma_below_sound(path, (n - 1) as nat);
            child.lemma_subtree_sound(longer);
            lemma_child_found(self.children@, n - 1);
            assert(all =~= before + under);
            assert forall|i: int| 0 <= i < all.len() implies self.names_below(
                path,
                n,
                #[trigger] all[i],
            ) by {
                if i < before.len() {
                    assert(self.names_below(path, (n - 1) as nat, before[i]));
                } else {
                    let entry = under[i - before.len()];
                    assert(child.names_node(longer, entry));
                    lemma_prefix_push(path, token, entry.0);
                }
            }
        }
    }

    /// Every entry of a subtree gives a node of it.
    proof fn lemma_subtree_sound(&self, path: Seq<K::V>)
        requires
            self.wf(),
        ensures
            forall|i: int|
                0 <= i < self.subtree(path).len() ==> self.names_node(
                    path,
                    #[trigger] self.subtree(path)[i],
                ),
        decreases self, 1nat, 0nat,
    {
        let n = self.children.len() as nat;
        let under = self.below(path, n);
        let all = self.subtree(path);
        self.lemma_below_sound(path, n);
        assert forall|i: int| 0 <= i < all.len() implies self.names_node(path, #[trigger] all[i]) by {
            if i == 0 {
                assert(path.skip(path.len() as int) =~= Seq::<K::V>::empty());
            } else {
                assert(self.names_below(path, n, under[i - 1]));
            }
        }
    }

    /// Every node under the first `n` children has an entry.
    proof fn lemma_below_complete(&self, path: Seq<K::V>, n: nat, rest: Seq<K::V>)
        requires
            self.wf(),
            n <= self.children.len(),
            rest.len() > 0,
            self.value_at(rest) is Some,
            child_place(self.children@, rest[0])->0 < n,
        ensures
            exists|i: int|
                0 <= i < self.below(path, n).len() && (#[trigger] self.below(path, n)[i]).0 == path
                    + rest,
        decreases self, 0nat, n,
    {
        let token = self.children[n - 1].0@;
        let child = self.children[n - 1].1;
        let longer = path.push(token);
        let before = self.below(path, (n - 1) as nat);
        let under = child.subtree(longer);
        let all = self.below(path, n);
        assert(all =~= before + under);
        lemma_child_found(self.children@, n - 1);
        let c = child_place(self.children@, rest[0])->0;
        if c < n - 1 {
            self.lemma_below_complete(path, (n - 1) as nat, rest);
            let i = choose|i: int| 0 <= i < before.len() && (#[trigger] before[i]).0 == path + rest;
            assert(all[i] == before[i]);
        } else {
            child.lemma_subtree_complete(longer, rest.skip(1));
            let j = choose|j: int|
                0 <= j < under.len() && (#[trigger] under[j]).0 == longer + rest.skip(1);
            assert(all[before.len() + j] == under[j]);
            assert(longer + rest.skip(1) =~= path + rest);
        }
    }

    /// Every node of a subtree has an entry.
    proof fn lemma_subtree_complete(&self, path: Seq<K::V>, rest: Seq<K::V>)
        requires
            self.wf(),
            self.value_at(rest) is Some,
        ensures
            exists|i: int|
                0 <= i < self.subtree(path).len() && (#[trigger] self.subtree(path)[i]).0 == path
                    + rest,
        decreases self, 1nat, 0nat,
    {
        let n = self.children.len() as nat;
        let under = self.below(path, n);
        let all = self.subtree(path);
        if rest.len() == 0 {
            assert(all[0].0 =~= path + rest);
        } else {
            self.lemma_below_complete(path, n, rest);
            let i = choose|i: int| 0 <= i < under.len() && (#[trigger] under[i]).0 == path + rest;
            assert(all[i + 1] == under[i]);
        }
    }

    /// No two entries under the first `n` children give the same path.
    proof fn lemma_below_distinct(&self, path: Seq<K::V>, n: nat)
        requires
            self.wf(),
            n <= self.children.len(),
        ensures
            forall|i: int, j: int|
                0 <= i < j < self.below(path, n).len() ==> (#[trigger] self.below(path, n)[i]).0 != (
                #[trigger] self.below(path, n)[j]).0,
        decreases self, 0nat, n,
    {
        if n > 0 {
            let token = self.children[n - 1].0@;
            let child = self.children[n - 1].1;
            let longer = path.push(token);
            let before = self.below(path, (n - 1) as nat);
            let under = child.subtree(longer);
            let all = self.below(path, n);
            self.lemma_below_distinct(path, (n - 1) as nat);
            child.lemma_subtree_distinct(longer);
            self.lemma_below_sound(path, (n - 1) as nat);
            child.lemma_subtree_sound(longer);
            lemma_child_found(self.children@, n - 1);
            assert(all =~= before + under);
            assert forall|i: int, j: int| 0 <= i < j < all.len() implies (#[trigger] all[i]).0 != (
            #[trigger] all[j]).0 by {
                if j < before.len() {
                    assert(before[i].0 != before[j].0);
                } else if i >= before.len() {
                    assert(under[i - before.len()].0 != under[j - before.len()].0);
                } else {
                    assert(self.names_below(path, (n - 1) as nat, before[i]));
                    assert(child.names_node(longer, under[j - before.len()]));
                    lemma_prefix_push(path, token, under[j - before.len()].0);
                }
            }
        }
    }

    /// No two entries of a subtree give the same path.
    proof fn lemma_subtree_distinct(&self, path: Seq<K::V>)
        requires
            self.wf(),
        ensures
            forall|i: int, j: int|
                0 <= i < j < self.subtree(path).len() ==> (#[trigger] self.subtree(path)[i]).0 != (
                #[trigger] self.subtree(path)[j]).0,
        decreases self, 1nat, 0nat,
    {
        let n = self.children.len() as nat;
        let under = self.below(path, n);
        let all = self.subtree(path);
        self.lemma_below_distinct(path, n);
        self.lemma_below_sound(path, n);
        assert forall|i: int, j: int| 0 <= i < j < all.len() implies (#[trigger] all[i]).0 != (
        #[trigger] all[j]).0 by {
            if i == 0 {
                assert(self.names_below(path, n, under[j - 1]));
            } else {
                assert(under[i - 1].0 != under[j - 1].0);
            }
        }
    }

    /// `entry` gives a node under one of the children from place `n` on.
    spec fn names_behind(&self, path: Seq<K::V>, n: nat, entry: (Seq<K::V>, V)) -> bool {
        &&& self.names_node(path, entry)
        &&& entry.0.len() > path.len()
        &&& child_place(self.children@, entry.0[path.len() as int]) matches Some(c) && c >= n
    }

    /// Every entry under the children from place `n` on gives a node there.
    proof fn lemma_behind_sound(&self, path: Seq<K::V>, n: nat)
        requires
            self.wf(),
            n <= self.children.len(),
        ensures
            forall|i: int|
                0 <= i < self.behind(path, n).len() ==> self.names_behind(
                    path,
                    n,
                    #[trigger] self.behind(path, n)[i],
                ),
        decreases self.children.len() - n,
    {
        if n < self.children.len() {
            let token = self.children[n as int].0@;
            let child = self.children[n as int].1;
            let longer = path.push(token);
            let under = child.subtree(longer);
            let later = self.behind(path, n + 1);
            let all = self.behind(path, n);
            self.lemma_behind_sound(path, n + 1);
            child.lemma_subtree_sound(longer);
            lemma_child_found(self.children@, n as int);
            assert(all =~= under + later);
            assert forall|i: int| 0 <= i < all.len() implies self.names_behind(
                path,
                n,
                #[trigger] all[i],
            ) by {
                if i < under.len() {
                    let entry = under[i];
                    assert(child.names_node(longer, entry));
                    lemma_prefix_push(path, token, entry.0);
                } else {
                    assert(self.names_behind(path, n + 1, later[i - under.len()]));
                }
            }
        }
    }

    /// The nodes below a node are those under its first children and then
    /// those under the others.
    proof fn lemma_below_split(&self, path: Seq<K::V>, n: nat)
        requires
            n <= self.children.len(),
        ensures
            self.below(path, self.children.len() as nat) == self.below(path, n) + self.behind(
                path,
                n,
            ),
        decreases self.children.len() - n,
    {
        let all = self.below(path, self.children.len() as nat);
        if n < self.children.len() {
            self.lemma_below_split(path, n + 1);
            assert(all =~= self.below(path, n) + self.behind(path, n));
        } else {
            assert(all =~= self.below(path, n) + self.behind(path, n));
        }
    }

    /// Two nodes with the same first children have the same nodes under
    /// them.
    proof fn lemma_same_below(&self, other: Self, path: Seq<K::V>, n: nat)
        requires
            n <= self.children.len(),
            n <= other.children.len(),
            forall|i: int| 0 <= i < n ==> #[trigger] self.children[i] == other.children[i],
        ensures
            self.below(path, n) == other.below(path, n),
        decreases n,
    {
        if n > 0 {
            self.lemma_same_below(other, path, (n - 1) as nat);
            assert(self.children[n - 1] == other.children[n - 1]);
        }
    }

    /// Two nodes with the same last children have the same nodes under
    /// them.
    proof fn lemma_same_behind(&self, other: Self, path: Seq<K::V>, n: nat)
        requires
            self.children.len() == other.children.len(),
            forall|i: int|
                n <= i < self.children.len() ==> #[trigger] self.children[i] == other.children[i],
        ensures
            self.behind(path, n) == other.behind(path, n),
        decreases self.children.len() - n,
    {
        if n < self.children.len() {
            self.lemma_same_behind(other, path, n + 1);
            assert(self.children[n as int] == other.children[n as int]);
        }
    }

    /// Folding an observation in along a key puts the paths of the key
    /// among the paths below a node where they belong: behind the paths
    /// that start as they do.
    proof fn lemma_paths_grow(
        &self,
        wider: Self,
        after: Self,
        place: int,
        path: Seq<K::V>,
        rest: Seq<K::V>,
    )
        requires
            self.wf(),
            wider.wf(),
            after.wf(),
            rest.len() > 0,
            0 <= place < wider.children.len(),
            wider.children[place].0@ == rest[0],
            child_place(self.children@, rest[0]) is Some ==> wider.children@ == self.children@,
            child_place(self.children@, rest[0]) is None ==> wider.children@ == self.children@.push(
                wider.children[place],
            ) && wider.children[place].1.children.len() == 0,
            after.children@ == wider.children@.update(
                place,
                (wider.children[place].0, after.children[place].1),
            ),
            forall|deeper: Seq<K::V>| #[trigger]
                after.children[place].1.paths_below(deeper) == grown(
                    wider.children[place].1.paths_below(deeper),
                    deeper,
                    rest.skip(1),
                ),
        ensures
            after.paths_below(path) == grown(self.paths_below(path), path, rest),
    {
        let token = rest[0];
        let longer = path.push(token);
        let old_child = wider.children[place].1;
        let new_child = after.children[place].1;
        let left = wider.below(path, place as nat);
        let right = wider.behind(path, (place + 1) as nat);
        let head = seq![longer];
        let under = old_child.paths_below(longer);
        lemma_child_found(wider.children@, place);
        // the paths under the node once the child is there
        wider.lemma_first_step(*self, place, path);
        // the paths under the node, child by child
        wider.lemma_below_split(path, place as nat);
        after.lemma_below_split(path, place as nat);
        wider.lemma_same_below(after, path, place as nat);
        wider.lemma_same_behind(after, path, (place + 1) as nat);
        lemma_paths_of_joined(left, wider.behind(path, place as nat));
        lemma_paths_of_joined(left, after.behind(path, place as nat));
        lemma_paths_of_joined(old_child.subtree(longer), right);
        lemma_paths_of_joined(new_child.subtree(longer), right);
        assert(paths_of(old_child.subtree(longer)) =~= head + under);
        assert(paths_of(new_child.subtree(longer)) =~= head + new_child.paths_below(longer));
        assert(wider.paths_below(path) =~= paths_of(left) + (head + under) + paths_of(right));
        assert(after.paths_below(path) =~= paths_of(left) + (head + new_child.paths_below(longer))
            + paths_of(right));
        // what starts with the path of the child lies under the child
        wider.lemma_below_sound(path, place as nat);
        wider.lemma_behind_sound(path, (place + 1) as nat);
        old_child.lemma_below_sound(longer, old_child.children.len() as nat);
        assert forall|i: int| 0 <= i < paths_of(left).len() implies !longer.is_prefix_of(
            #[trigger] paths_of(left)[i],
        ) by {
            assert(wider.names_below(path, place as nat, left[i]));
            if longer.is_prefix_of(left[i].0) {
                lemma_prefix_push(path, token, left[i].0);
            }
        }
        assert forall|i: int| 0 <= i < paths_of(right).len() implies !longer.is_prefix_of(
            #[trigger] paths_of(right)[i],
        ) by {
            assert(wider.names_behind(path, (place + 1) as nat, right[i]));
            if longer.is_prefix_of(right[i].0) {
                lemma_prefix_push(path, token, right[i].0);
            }
        }
        assert forall|i: int| 0 <= i < under.len() implies longer.is_prefix_of(#[trigger] under[i])
            && under[i].len() > longer.len() by {
            let entry = old_child.below(longer, old_child.children.len() as nat)[i];
            assert(old_child.names_below(longer, old_child.children.len() as nat, entry));
        }
        assert((head + under).contains(longer)) by {
            assert((head + under)[0] == longer);
        }
        lemma_grown_inside(paths_of(left), head + under, paths_of(right), longer, rest.skip(1));
        lemma_grown_behind_head(under, longer, rest.skip(1));
    }

    /// The paths below a node that has a child for a token are those it had
    /// before, with the path of the child put in where the child is new.
    proof fn lemma_first_step(&self, before: Self, place: int, path: Seq<K::V>)
        requires
            self.wf(),
            before.wf(),
            0 <= place < self.children.len(),
            child_place(before.children@, self.children[place].0@) is Some ==> self.children@
                == before.children@,
            child_place(before.children@, self.children[place].0@) is None ==> self.children@
                == before.children@.push(self.children[place]) && self.children[place].1.children.len()
                == 0,
        ensures
            self.paths_below(path) == with_path(
                before.paths_below(path),
                path.push(self.children[place].0@),
            ),
    {
        let token = self.children[place].0@;
        let longer = path.push(token);
        let count = before.children.len() as nat;
        let had = before.below(path, count);
        assert(longer.drop_last() =~= path);
        lemma_child_found(self.children@, place);
        before.lemma_below_sound(path, count);
        if child_place(before.children@, token) is Some {
            before.lemma_same_below(*self, path, count);
            let single = seq![token];
            assert(before.value_at(single) is Some) by {
                let c = child_place(before.children@, token)->0;
                assert(single.skip(1) =~= Seq::<K::V>::empty());
                assert(before.children[c].1.value_at(Seq::empty()) is Some);
            }
            before.lemma_below_complete(path, count, single);
            let i = choose|i: int| 0 <= i < had.len() && (#[trigger] had[i]).0 == path + single;
            assert(path + single =~= longer);
            assert(paths_of(had)[i] == longer);
        } else {
            let child = self.children[place].1;
            before.lemma_same_below(*self, path, count);
            assert(child.subtree(longer) =~= seq![(longer, child.value)]);
            assert(self.below(path, (count + 1) as nat) =~= had.push((longer, child.value)));
            assert(self.paths_below(path) =~= paths_of(had).push(longer));
            if paths_of(had).contains(longer) {
                let i = choose|i: int| 0 <= i < had.len() && paths_of(had)[i] == longer;
                assert(before.names_below(path, count, had[i]));
            }
            assert forall|i: int| 0 <= i < had.len() implies path.is_prefix_of(
                #[trigger] paths_of(had)[i],
            ) by {
                assert(before.names_below(path, count, had[i]));
            }
            lemma_last_with_is(paths_of(had), path, had.len() - 1);
            assert(paths_of(had).insert(had.len() as int, longer) =~= paths_of(had).push(longer));
        }
    }

    /// The entries of a tree list its nodes but the root, each once: every
    /// entry gives a path that is not empty and the value of the node that
    /// the path leads to, every such node has an entry, and no two entries
    /// give the same path.
    pub proof fn lemma_entries_list_nodes(&self)
        requires
            self.wf(),
        ensures
            forall|i: int|
                0 <= i < self.entries().len() ==> (#[trigger] self.entries()[i]).0.len() > 0
                    && self.value_at(self.entries()[i].0) == Some(self.entries()[i].1),
            forall|path: Seq<K::V>|
                path.len() > 0 && (#[trigger] self.value_at(path)) is Some ==> exists|i: int|
                    0 <= i < self.entries().len() && (#[trigger] self.entries()[i]).0 == path,
            forall|i: int, j: int|
                0 <= i < j < self.entries().len() ==> (#[trigger] self.entries()[i]).0 != (
                #[trigger] self.entries()[j]).0,
    {
        let n = self.children.len() as nat;
        let root = Seq::<K::V>::empty();
        let all = self.entries();
        self.lemma_below_sound(root, n);
        self.lemma_below_distinct(root, n);
        assert forall|i: int| 0 <= i < all.len() implies (#[trigger] all[i]).0.len() > 0
            && self.value_at(all[i].0) == Some(all[i].1) by {
            assert(self.names_below(root, n, all[i]));
            assert(all[i].0.skip(0) =~= all[i].0);
        }
        assert forall|path: Seq<K::V>|
            path.len() > 0 && (#[trigger] self.value_at(path)) is Some implies exists|i: int|
            0 <= i < all.len() && (#[trigger] all[i]).0 == path by {
            self.lemma_below_complete(root, n, path);
            assert(root + path =~= path);
        }
    }

    /// The empty path leads to the root, so it leads to a node in every
    /// tree.
    pub proof fn lemma_root_has_value(&self)
        ensures
            self.value_at(Seq::empty()) is Some,
            self@.contains_key(Seq::empty()),
    {
    }

    /// Where a path leads to a node, so does every start of the path.
    pub proof fn lemma_starts_lead_to_nodes(&self, path: Seq<K::V>, start: Seq<K::V>)
        requires
            self.value_at(path) is Some,
            start.is_prefix_of(path),
        ensures
            self.value_at(start) is Some,
        decreases path.len(),
    {
        if start.len() > 0 {
            let i = child_place(self.children@, path[0])->0;
            assert(start[0] == path.subrange(0, start.len() as int)[0]);
            assert(start.skip(1) =~= path.skip(1).subrange(0, start.len() - 1));
            self.children[i].1.lemma_starts_lead_to_nodes(path.skip(1), start.skip(1));
        }
    }
}

/// What a tree of counts holds at `path` after one was added along each of
/// `keys`: the number of keys that start with the path, and nothing where
/// the path is not empty and no key starts with it.
pub open spec fn counted<T>(keys: Seq<Seq<T>>, path: Seq<T>) -> Option<u32> {
    let hits = keys.filter(starting_with(path)).len();
    if path.len() > 0 && hits == 0 {
        None
    } else {
        Some(hits as u32)
    }
}

/// The tree holds at every path the number of keys that start with it.
pub open spec fn holds_counts<K: TrieKey>(trie: Trie<K, u32>, keys: Seq<Seq<K::V>>) -> bool {
    forall|path: Seq<K::V>| #[trigger] trie.value_at(path) == counted(keys, path)
}

/// A tree of counts that is new holds the counts of no keys.
pub proof fn lemma_new_tree_counts_nothing<K: TrieKey>(trie: Trie<K, u32>)
    requires
        forall|path: Seq<K::V>| #[trigger]
            trie.value_at(path) == if path.len() == 0 {
                Some(0u32)
            } else {
                None
            },
    ensures
        holds_counts(trie, Seq::empty()),
{
    assert forall|path: Seq<K::V>| #[trigger]
        trie.value_at(path) == counted(Seq::<Seq<K::V>>::empty(), path) by {
        Seq::<Seq<K::V>>::empty().lemma_filter_len(starting_with(path));
    }
}

/// Adding one along a key to a tree that holds the counts of some keys
/// makes it hold the counts of those keys and the new one: whatever keys
/// were folded into a tree of counts, the count at a path is the number of
/// them that start with the path.
///
/// `after` is what `update_path` makes of `before` for `key` and a function
/// that adds one.
pub proof fn lemma_counts_one_more<K: TrieKey>(
    before: Trie<K, u32>,
    after: Trie<K, u32>,
    keys: Seq<Seq<K::V>>,
    key: Seq<K::V>,
)
    requires
        holds_counts(before, keys),
        keys.len() < u32::MAX,
        forall|path: Seq<K::V>| #[trigger]
            path.is_prefix_of(key) ==> after.value_at(path) == Some(
                (before.value_or_initial(path) + 1) as u32,
            ),
        forall|path: Seq<K::V>|
            !(#[trigger] path.is_prefix_of(key)) ==> after.value_at(path) == before.value_at(path),
    ensures
        holds_counts(after, keys.push(key)),
{
    broadcast use Seq::lemma_filter_push;

    assert forall|path: Seq<K::V>| #[trigger]
        after.value_at(path) == counted(keys.push(key), path) by {
        keys.lemma_filter_len(starting_with(path));
        assert(before.value_at(path) == counted(keys, path));
    }
}

/// A tree that holds the counts of some keys holds no count greater than
/// their number.
pub proof fn lemma_counts_fit<K: TrieKey>(trie: Trie<K, u32>, keys: Seq<Seq<K::V>>, path: Seq<K::V>)
    requires
        holds_counts(trie, keys),
        keys.len() <= u32::MAX,
    ensures
        trie.value_or_initial(path) <= keys.len(),
{
    keys.lemma_filter_len(starting_with(path));
    assert(trie.value_at(path) == counted(keys, path));
}

/// A second key that leads where `key` leads.
pub(crate) fn copy_key<K: TrieKey>(key: &Vec<K>) -> (copy: Vec<K>)
    ensures
        tokens(copy@) == tokens(key@),
{
    let mut copy: Vec<K> = Vec::new();
    let mut i: usize = 0;
    while i < key.len()
        invariant
            i <= key.len(),
            tokens(copy@) == tokens(key@).take(i as int),
        decreases key.len() - i,
    {
        let ghost before = copy@;
        let token = key[i].duplicate();
        copy.push(token);
        assert(tokens(copy@) =~= tokens(before).push(token@));
        i += 1;
        assert(tokens(key@).take(i as int) =~= tokens(key@).take(i - 1).push(key[i - 1]@));
    }
    assert(tokens(key@).take(key.len() as int) =~= tokens(key@));
    copy
}

/// A path that starts with a shorter path and one more token starts with the
/// shorter path and has the token next.
proof fn lemma_prefix_push<T>(path: Seq<T>, token: T, full: Seq<T>)
    requires
        path.push(token).is_prefix_of(full),
    ensures
        path.is_prefix_of(full),
        full.len() > path.len(),
        full[path.len() as int] == token,
        full.skip(path.len() as int).skip(1) == full.skip(path.len() as int + 1),
{
    let longer = path.push(token);
    assert(full.subrange(0, longer.len() as int)[path.len() as int] == longer[path.len() as int]);
    assert(path =~= full.subrange(0, path.len() as int)) by {
        assert forall|i: int| 0 <= i < path.len() implies path[i] == full[i] by {
            assert(full.subrange(0, longer.len() as int)[i] == longer[i]);
        }
    }
    assert(full.skip(path.len() as int).skip(1) =~= full.skip(path.len() as int + 1));
}

/// A key that leads one token further than `key`.
fn extend<K: TrieKey>(key: &Vec<K>, token: K) -> (longer: Vec<K>)
    ensures
        tokens(longer@) == tokens(key@).push(token@),
{
    let mut longer = copy_key(key);
    let ghost before = longer@;
    longer.push(token);
    assert(tokens(longer@) =~= tokens(before).push(token@));
    longer
}

} // verus!
