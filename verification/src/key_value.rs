//! Drawing the best nodes from a tree.
//!
//! A [`TopKExtractor`] is shown the nodes of a tree one by one and keeps the
//! best of them, as many as it was made for. A node is better than another if
//! its value ranks higher, or ranks the same and was shown first.
//!
//! The extractor orders the nodes in a [`CappedHeap`]. The heap holds
//! numbers, so each node goes in as its rank; the node itself waits beside
//! the heap, in a queue with the other nodes of its rank, until its rank
//! leaves the heap or the nodes are drained. The extractor never holds more
//! nodes than it was made for.
//!
//! Where no node of a tree ranks higher than a node above it, as in a tree
//! of counts, what lies below a node that the extractor did not keep cannot
//! be among the best, and need not be shown.

use crate::capped_heap::{admits, lemma_retained_greatest, retained, CappedHeap};
use crate::trie::{
    copy_key, declined, prunes, tokens, Collector, Trie, TrieKey, TrieValue,
};
use std::collections::{HashMap, VecDeque};
use vstd::multiset::Multiset;
use vstd::prelude::*;

verus! {

/// A value with a rank, by which values are ordered.
pub trait Ranked {
    /// The rank of the value. A greater rank is better.
    spec fn rank(&self) -> u64;

    /// Computes the rank.
    fn ranking(&self) -> (rank: u64)
        ensures
            rank == self.rank(),
    ;
}

impl Ranked for u32 {
    open spec fn rank(&self) -> u64 {
        *self as u64
    }

    fn ranking(&self) -> (rank: u64) {
        *self as u64
    }
}

/// A node taken out of a tree: the key that led to it and the value it held.
#[derive(Debug, PartialEq, Eq)]
pub struct KeyValue<K: TrieKey, V: TrieValue> {
    pub key: Vec<K>,
    pub value: V,
}

impl<K: TrieKey, V: TrieValue> View for KeyValue<K, V> {
    type V = (Seq<K::V>, V);

    open spec fn view(&self) -> (Seq<K::V>, V) {
        (tokens(self.key@), self.value)
    }
}

/// What a list of nodes stands for.
pub open spec fn views<K: TrieKey, V: TrieValue>(items: Seq<KeyValue<K, V>>) -> Seq<
    (Seq<K::V>, V),
> {
    items.map_values(|item: KeyValue<K, V>| item@)
}

/// The entry at place `i` is better than the one at place `j`: it ranks
/// higher, or ranks the same and comes first.
pub open spec fn outranks<P, V: Ranked>(entries: Seq<(P, V)>, i: int, j: int) -> bool {
    entries[i].1.rank() > entries[j].1.rank() || (entries[i].1.rank() == entries[j].1.rank() && i
        < j)
}

/// `pick` lists the places of the `n` best entries, best first: each is
/// better than the next, and better than every entry left out.
pub open spec fn is_selection<P, V: Ranked>(entries: Seq<(P, V)>, n: nat, pick: Seq<int>) -> bool {
    &&& pick.len() == if entries.len() < n {
        entries.len()
    } else {
        n
    }
    &&& forall|k: int| 0 <= k < pick.len() ==> 0 <= #[trigger] pick[k] < entries.len()
    &&& forall|k: int, l: int|
        0 <= k < l < pick.len() ==> outranks(entries, #[trigger] pick[k], #[trigger] pick[l])
    &&& forall|k: int, i: int|
        0 <= k < pick.len() && 0 <= i < entries.len() && !pick.contains(i) ==> #[trigger] outranks(
            entries,
            pick[k],
            i,
        )
}

/// The places of the `n` best entries, best first.
pub open spec fn selection<P, V: Ranked>(entries: Seq<(P, V)>, n: nat) -> Seq<int> {
    choose|pick: Seq<int>| is_selection(entries, n, pick)
}

/// The `n` best entries, best first; all of them, best first, where there
/// are no more than `n`.
pub open spec fn best<P, V: Ranked>(entries: Seq<(P, V)>, n: nat) -> Seq<(P, V)> {
    selection(entries, n).map_values(|i: int| entries[i])
}

/// There is only one way to list the places of the `n` best entries.
pub proof fn lemma_selection_is_unique<P, V: Ranked>(
    entries: Seq<(P, V)>,
    n: nat,
    a: Seq<int>,
    b: Seq<int>,
)
    requires
        is_selection(entries, n, a),
        is_selection(entries, n, b),
    ensures
        a == b,
{
    assert forall|k: int| 0 <= k < a.len() implies a[k] == b[k] by {
        lemma_selections_agree(entries, n, a, b, k);
    }
    assert(a =~= b);
}

/// Two lists of the places of the `n` best entries agree up to place `k`.
proof fn lemma_selections_agree<P, V: Ranked>(
    entries: Seq<(P, V)>,
    n: nat,
    a: Seq<int>,
    b: Seq<int>,
    k: int,
)
    requires
        is_selection(entries, n, a),
        is_selection(entries, n, b),
        0 <= k < a.len(),
    ensures
        forall|j: int| 0 <= j <= k ==> a[j] == b[j],
    decreases k,
{
    if k > 0 {
        lemma_selections_agree(entries, n, a, b, k - 1);
    }
    if a[k] != b[k] {
        lemma_earlier_or_left_out(entries, n, a, b, k);
        lemma_earlier_or_left_out(entries, n, b, a, k);
    }
}

/// Where two lists agree before place `k` and differ there, the entry that
/// the first has at `k` is better than the one the second has there.
proof fn lemma_earlier_or_left_out<P, V: Ranked>(
    entries: Seq<(P, V)>,
    n: nat,
    a: Seq<int>,
    b: Seq<int>,
    k: int,
)
    requires
        is_selection(entries, n, a),
        is_selection(entries, n, b),
        0 <= k < a.len(),
        forall|j: int| 0 <= j < k ==> a[j] == b[j],
        a[k] != b[k],
    ensures
        outranks(entries, a[k], b[k]),
{
    let other = b[k];
    if a.contains(other) {
        let l = choose|l: int| 0 <= l < a.len() && a[l] == other;
        if l < k {
            assert(b[l] == other);
            assert(outranks(entries, b[l], b[k]));
        }
    }
}

/// No entry ranks higher than an entry whose path starts its own.
pub open spec fn ranks_descend<T, V: Ranked>(entries: Seq<(Seq<T>, V)>) -> bool {
    forall|i: int, j: int|
        0 <= i < entries.len() && 0 <= j < entries.len() && (#[trigger] entries[i]).0.is_prefix_of(
            (#[trigger] entries[j]).0,
        ) ==> entries[j].1.rank() <= entries[i].1.rank()
}

/// Places that grow from one to the next are no less than their number.
proof fn lemma_growing_places(place: Seq<int>, k: int)
    requires
        forall|a: int, b: int| 0 <= a < b < place.len() ==> #[trigger] place[a] < #[trigger] place[b],
        forall|a: int| 0 <= a < place.len() ==> 0 <= #[trigger] place[a],
        0 <= k < place.len(),
    ensures
        place[k] >= k,
    decreases k,
{
    if k > 0 {
        lemma_growing_places(place, k - 1);
        assert(place[k - 1] < place[k]);
    }
}

/// Places that grow from one to the next and leave no place out are as many
/// as the places there are.
proof fn lemma_all_places(place: Seq<int>, total: int, k: int)
    requires
        forall|a: int, b: int| 0 <= a < b < place.len() ==> #[trigger] place[a] < #[trigger] place[b],
        forall|a: int| 0 <= a < place.len() ==> 0 <= #[trigger] place[a] < total,
        forall|i: int| 0 <= i < total ==> place.contains(i),
        0 <= k < total,
    ensures
        k < place.len(),
        place[k] == k,
    decreases k,
{
    assert(place.contains(k));
    let j = choose|j: int| 0 <= j < place.len() && place[j] == k;
    lemma_growing_places(place, j);
    if j < k {
        lemma_all_places(place, total, j);
    }
}

/// Leaving out what lies below a node that was not kept does not change
/// which entries are the best, where no entry ranks higher than an entry
/// whose path starts its own: the `n` best of what was shown are the `n`
/// best of all.
pub proof fn lemma_pruned_best<K: TrieKey, V: TrieValue + Ranked>(
    shown: Seq<(Seq<K::V>, V)>,
    all: Seq<(Seq<K::V>, V)>,
    place: Seq<int>,
    n: nat,
)
    requires
        prunes::<K, V, TopKExtractor<K, V>>(Seq::empty(), n, shown, all, place),
        ranks_descend(all),
        is_selection(shown, n, selection(shown, n)),
        forall|k: int|
            0 <= k < shown.len() && #[trigger] declined::<K, V, TopKExtractor<K, V>>(
                Seq::empty(),
                n,
                shown,
                k,
            ) ==> !selection(shown, n).contains(k) && shown.len() >= n,
    ensures
        is_selection(all, n, selection(all, n)),
        best(all, n) == best(shown, n),
{
    let pick = selection(shown, n);
    let moved = pick.map_values(|k: int| place[k]);
    let none = Seq::<(Seq<K::V>, V)>::empty();
    if shown.len() > 0 {
        lemma_growing_places(place, shown.len() - 1);
    }
    assert(shown.len() <= all.len());
    if exists|k: int| 0 <= k < shown.len() && declined::<K, V, TopKExtractor<K, V>>(none, n, shown, k) {
        let k = choose|k: int|
            0 <= k < shown.len() && declined::<K, V, TopKExtractor<K, V>>(none, n, shown, k);
        assert(shown.len() >= n);
    } else {
        assert forall|i: int| 0 <= i < all.len() implies place.contains(i) by {
            if !place.contains(i) {
                let k = choose|k: int|
                    0 <= k < shown.len() && #[trigger] place[k] < i && declined::<
                        K,
                        V,
                        TopKExtractor<K, V>,
                    >(none, n, shown, k) && shown[k].0.is_prefix_of(all[i].0);
                assert(false);
            }
        }
        if all.len() > 0 {
            lemma_all_places(place, all.len() as int, all.len() - 1);
        }
        assert(shown.len() == all.len());
    }
    assert forall|k: int, l: int| 0 <= k < l < moved.len() implies outranks(
        all,
        #[trigger] moved[k],
        #[trigger] moved[l],
    ) by {
        assert(outranks(shown, pick[k], pick[l]));
        lemma_outranks_moves::<K, V>(shown, all, place, pick[k], pick[l]);
    }
    assert forall|k: int, i: int|
        0 <= k < moved.len() && 0 <= i < all.len() && !moved.contains(i) implies #[trigger] outranks(
        all,
        moved[k],
        i,
    ) by {
        if place.contains(i) {
            let s = choose|s: int| 0 <= s < place.len() && place[s] == i;
            if pick.contains(s) {
                let j = choose|j: int| 0 <= j < pick.len() && pick[j] == s;
                assert(moved[j] == i);
            }
            assert(outranks(shown, pick[k], s));
            lemma_outranks_moves::<K, V>(shown, all, place, pick[k], s);
        } else {
            let d = choose|d: int|
                0 <= d < shown.len() && #[trigger] place[d] < i && declined::<
                    K,
                    V,
                    TopKExtractor<K, V>,
                >(none, n, shown, d) && shown[d].0.is_prefix_of(all[i].0);
            assert(all[place[d]] == shown[d]);
            assert(all[i].1.rank() <= all[place[d]].1.rank());
            assert(!pick.contains(d));
            assert(outranks(shown, pick[k], d));
            lemma_outranks_moves::<K, V>(shown, all, place, pick[k], d);
        }
    }
    assert(is_selection(all, n, moved));
    lemma_selection_is_unique(all, n, moved, selection(all, n));
    assert(best(all, n) =~= best(shown, n));
}

/// An entry that is better than another among those shown is better than
/// it among all.
proof fn lemma_outranks_moves<K: TrieKey, V: TrieValue + Ranked>(
    shown: Seq<(Seq<K::V>, V)>,
    all: Seq<(Seq<K::V>, V)>,
    place: Seq<int>,
    a: int,
    b: int,
)
    requires
        place.len() == shown.len(),
        forall|k: int|
            0 <= k < shown.len() ==> 0 <= #[trigger] place[k] < all.len() && all[place[k]] == shown[k],
        forall|k: int, l: int|
            0 <= k < l < shown.len() ==> #[trigger] place[k] < #[trigger] place[l],
        0 <= a < shown.len(),
        0 <= b < shown.len(),
        outranks(shown, a, b),
    ensures
        outranks(all, place[a], place[b]),
{
    assert(all[place[a]] == shown[a]);
    assert(all[place[b]] == shown[b]);
}

/// Where there is room for every entry, every entry is selected.
pub proof fn lemma_selection_takes_all<P, V: Ranked>(entries: Seq<(P, V)>, n: nat, pick: Seq<int>)
    requires
        is_selection(entries, n, pick),
        n >= entries.len(),
    ensures
        pick.len() == entries.len(),
        forall|i: int| 0 <= i < entries.len() ==> pick.contains(i),
{
    let places = vstd::set_lib::set_int_range(0, entries.len() as int);
    assert forall|k: int, l: int| 0 <= k < pick.len() && 0 <= l < pick.len() && k != l implies pick[k]
        != pick[l] by {
        if k < l {
            assert(outranks(entries, pick[k], pick[l]));
        } else {
            assert(outranks(entries, pick[l], pick[k]));
        }
    }
    pick.unique_seq_to_set();
    vstd::set_lib::lemma_int_range(0, entries.len() as int);
    vstd::seq_lib::seq_to_set_is_finite(pick);
    assert(pick.to_set().subset_of(places)) by {
        assert forall|i: int| pick.to_set().contains(i) implies places.contains(i) by {
            let k = choose|k: int| 0 <= k < pick.len() && pick[k] == i;
            assert(0 <= pick[k] < entries.len());
        }
    }
    vstd::set_lib::lemma_subset_equality(pick.to_set(), places);
    assert forall|i: int| 0 <= i < entries.len() implies pick.contains(i) by {
        assert(places.contains(i));
        assert(pick.to_set().contains(i));
    }
}

/// The best entries come in descending rank, and none of them twice.
pub proof fn lemma_best_descends<P, V: Ranked>(entries: Seq<(P, V)>, n: nat)
    requires
        is_selection(entries, n, selection(entries, n)),
    ensures
        best(entries, n).len() == if entries.len() < n {
            entries.len()
        } else {
            n
        },
        forall|k: int, l: int|
            0 <= k < l < best(entries, n).len() ==> (#[trigger] best(entries, n)[k]).1.rank() >= (
            #[trigger] best(entries, n)[l]).1.rank(),
        selection(entries, n).no_duplicates(),
{
    let pick = selection(entries, n);
    assert forall|k: int, l: int| 0 <= k < l < pick.len() implies (#[trigger] best(
        entries,
        n,
    )[k]).1.rank() >= (#[trigger] best(entries, n)[l]).1.rank() by {
        assert(outranks(entries, pick[k], pick[l]));
    }
    assert forall|k: int, l: int| 0 <= k < pick.len() && 0 <= l < pick.len() && k != l implies pick[k]
        != pick[l] by {
        if k < l {
            assert(outranks(entries, pick[k], pick[l]));
        } else {
            assert(outranks(entries, pick[l], pick[k]));
        }
    }
}

/// The ranks of the nodes shown, in the order in which they were shown.
spec fn ranks<P, V: Ranked>(seen: Seq<(P, V)>) -> Seq<u128> {
    Seq::new(seen.len(), |i: int| seen[i].1.rank() as u128)
}

/// The node shown at place `i` is held: its place is filed under its rank.
spec fn held_at<P, V: Ranked>(seen: Seq<(P, V)>, places: Map<u64, Seq<int>>, i: int) -> bool {
    places.dom().contains(seen[i].1.rank()) && places[seen[i].1.rank()].contains(i)
}

/// What is filed under rank `r` are the places of nodes of that rank, in
/// the order in which they were shown, as many as the heap holds the rank.
spec fn filed<P, V: Ranked>(
    seen: Seq<(P, V)>,
    places: Map<u64, Seq<int>>,
    items: Multiset<u128>,
    r: u64,
) -> bool {
    &&& places[r].len() > 0
    &&& items.count(r as u128) == places[r].len()
    &&& forall|j: int|
        0 <= j < places[r].len() ==> 0 <= #[trigger] places[r][j] < seen.len()
            && seen[places[r][j]].1.rank() == r
    &&& forall|j: int, l: int|
        0 <= j < l < places[r].len() ==> #[trigger] places[r][j] < #[trigger] places[r][l]
}

/// The places of the nodes held are filed by rank, and the heap holds the
/// ranks of the nodes held.
spec fn files<P, V: Ranked>(
    seen: Seq<(P, V)>,
    places: Map<u64, Seq<int>>,
    items: Multiset<u128>,
) -> bool {
    &&& forall|r: u64| #[trigger] places.dom().contains(r) ==> filed(seen, places, items, r)
    &&& forall|x: u128|
        #[trigger] items.count(x) > 0 ==> x <= u64::MAX && places.dom().contains(x as u64)
}

/// Every node held is better than every node shown that is not held.
spec fn leads<P, V: Ranked>(seen: Seq<(P, V)>, places: Map<u64, Seq<int>>) -> bool {
    forall|h: int, i: int|
        0 <= h < seen.len() && 0 <= i < seen.len() && #[trigger] held_at(seen, places, h)
            && !#[trigger] held_at(seen, places, i) ==> outranks(seen, h, i)
}

/// An extractor of `cap` places did not keep the node at place `k` when it
/// was shown it.
spec fn turned_away<P, V: Ranked>(seen: Seq<(P, V)>, cap: nat, k: int) -> bool {
    !admits(retained(ranks(seen.take(k)), cap), cap, seen[k].1.rank() as u128)
}

/// The queue of rank `r` holds the nodes whose places are filed under the
/// rank, in their order.
spec fn stored<K: TrieKey, V: TrieValue + Ranked>(
    held: Map<u64, VecDeque<KeyValue<K, V>>>,
    seen: Seq<(Seq<K::V>, V)>,
    places: Map<u64, Seq<int>>,
    r: u64,
) -> bool {
    &&& held[r]@.len() == places[r].len()
    &&& forall|j: int|
        0 <= j < places[r].len() ==> (#[trigger] held[r]@[j])@ == seen[places[r][j]]
}

/// The nodes are kept where their places are filed.
spec fn stores<K: TrieKey, V: TrieValue + Ranked>(
    held: Map<u64, VecDeque<KeyValue<K, V>>>,
    seen: Seq<(Seq<K::V>, V)>,
    places: Map<u64, Seq<int>>,
) -> bool {
    &&& held.dom() =~= places.dom()
    &&& forall|r: u64| #[trigger] places.dom().contains(r) ==> stored(held, seen, places, r)
}

/// The places with one more under rank `r`.
spec fn with_place(places: Map<u64, Seq<int>>, r: u64, place: int) -> Map<u64, Seq<int>> {
    if places.dom().contains(r) {
        places.insert(r, places[r].push(place))
    } else {
        places.insert(r, seq![place])
    }
}

/// The places without the last under rank `r`.
spec fn without_last(places: Map<u64, Seq<int>>, r: u64) -> Map<u64, Seq<int>> {
    if places[r].len() > 1 {
        places.insert(r, places[r].drop_last())
    } else {
        places.remove(r)
    }
}

/// The places without the first under rank `r`.
spec fn without_first(places: Map<u64, Seq<int>>, r: u64) -> Map<u64, Seq<int>> {
    if places[r].len() > 1 {
        places.insert(r, places[r].drop_first())
    } else {
        places.remove(r)
    }
}

/// Dropping the last node of the least rank leaves the files in order, and
/// every other node held was better than the one dropped.
proof fn lemma_without_last<P, V: Ranked>(
    seen: Seq<(P, V)>,
    places: Map<u64, Seq<int>>,
    items: Multiset<u128>,
    low: u128,
)
    requires
        files(seen, places, items),
        crate::capped_heap::is_least(items, low),
    ensures
        low <= u64::MAX,
        places.dom().contains(low as u64),
        files(seen, without_last(places, low as u64), items.remove(low)),
        forall|i: int|
            0 <= i < seen.len() ==> (#[trigger] held_at(seen, without_last(places, low as u64), i)
                <==> held_at(seen, places, i) && i != places[low as u64].last()),
        forall|h: int|
            0 <= h < seen.len() && #[trigger] held_at(seen, places, h) && h != places[low as u64].last()
                ==> outranks(seen, h, places[low as u64].last()),
        0 <= places[low as u64].last() < seen.len(),
        seen[places[low as u64].last()].1.rank() == low,
{
    broadcast use vstd::multiset::group_multiset_axioms;

    let r = low as u64;
    let next = without_last(places, r);
    let fewer = items.remove(low);
    let last = places[r].last();
    assert(filed(seen, places, items, r));
    assert(places[r][places[r].len() - 1] == last);
    assert forall|q: u64| #[trigger] next.dom().contains(q) implies filed(seen, next, fewer, q) by {
        assert(places.dom().contains(q));
        assert(filed(seen, places, items, q));
        if q == r {
            assert forall|j: int| 0 <= j < next[q].len() implies 0 <= #[trigger] next[q][j]
                < seen.len() && seen[next[q][j]].1.rank() == q by {
                assert(next[q][j] == places[q][j]);
            }
            assert forall|j: int, l: int| 0 <= j < l < next[q].len() implies #[trigger] next[q][j]
                < #[trigger] next[q][l] by {
                assert(next[q][j] == places[q][j] && next[q][l] == places[q][l]);
            }
        } else {
            assert(q as u128 != low);
        }
    }
    assert forall|x: u128| #[trigger] fewer.count(x) > 0 implies x <= u64::MAX && next.dom().contains(
        x as u64,
    ) by {
        assert(items.count(x) > 0);
    }
    assert forall|i: int| 0 <= i < seen.len() implies (#[trigger] held_at(seen, next, i) <==> held_at(
        seen,
        places,
        i,
    ) && i != last) by {
        let q = seen[i].1.rank();
        if places.dom().contains(q) {
            assert(filed(seen, places, items, q));
            if q == r {
                if places[r].len() > 1 {
                    if places[r].contains(i) && i != last {
                        let j = choose|j: int| 0 <= j < places[r].len() && places[r][j] == i;
                        assert(next[r][j] == i);
                    }
                    if next[r].contains(i) {
                        let j = choose|j: int| 0 <= j < next[r].len() && next[r][j] == i;
                        assert(places[r][j] == i);
                        assert(places[r][j] < places[r][places[r].len() - 1]);
                    }
                } else {
                    if places[r].contains(i) {
                        let j = choose|j: int| 0 <= j < places[r].len() && places[r][j] == i;
                    }
                }
            } else {
                assert(seen[last].1.rank() == r);
            }
        }
    }
    assert forall|h: int|
        0 <= h < seen.len() && #[trigger] held_at(seen, places, h) && h != last implies outranks(
        seen,
        h,
        last,
    ) by {
        let q = seen[h].1.rank();
        assert(filed(seen, places, items, q));
        assert(items.count(q as u128) > 0);
        if q == r {
            let j = choose|j: int| 0 <= j < places[r].len() && places[r][j] == h;
            assert(places[r][j] < places[r][places[r].len() - 1]);
        }
    }
}

/// Filing one more node, the one shown last, leaves the files in order.
proof fn lemma_with_place<P, V: Ranked>(
    seen: Seq<(P, V)>,
    places: Map<u64, Seq<int>>,
    items: Multiset<u128>,
    entry: (P, V),
)
    requires
        files(seen, places, items),
    ensures
        files(
            seen.push(entry),
            with_place(places, entry.1.rank(), seen.len() as int),
            items.insert(entry.1.rank() as u128),
        ),
        forall|i: int|
            0 <= i <= seen.len() ==> (#[trigger] held_at(
                seen.push(entry),
                with_place(places, entry.1.rank(), seen.len() as int),
                i,
            ) <==> i == seen.len() || held_at(seen, places, i)),
{
    broadcast use vstd::multiset::group_multiset_axioms;

    let r = entry.1.rank();
    let m = seen.len() as int;
    let all = seen.push(entry);
    let next = with_place(places, r, m);
    let more = items.insert(r as u128);
    assert forall|q: u64| #[trigger] next.dom().contains(q) implies filed(all, next, more, q) by {
        if places.dom().contains(q) {
            assert(filed(seen, places, items, q));
        }
        if q == r {
            if !places.dom().contains(r) {
                if items.count(r as u128) > 0 {
                    assert(places.dom().contains((r as u128) as u64));
                }
            }
            assert forall|j: int| 0 <= j < next[q].len() implies 0 <= #[trigger] next[q][j] < all.len()
                && all[next[q][j]].1.rank() == q by {
                if places.dom().contains(r) && j < places[r].len() {
                    assert(next[q][j] == places[q][j]);
                }
            }
            assert forall|j: int, l: int| 0 <= j < l < next[q].len() implies #[trigger] next[q][j]
                < #[trigger] next[q][l] by {
                if places.dom().contains(r) {
                    assert(next[q][j] == places[q][j]);
                    if l < places[r].len() {
                        assert(next[q][l] == places[q][l]);
                    }
                }
            }
        } else {
            assert(q as u128 != r as u128);
            assert forall|j: int| 0 <= j < next[q].len() implies 0 <= #[trigger] next[q][j] < all.len()
                && all[next[q][j]].1.rank() == q by {
                assert(next[q][j] == places[q][j]);
            }
        }
    }
    assert forall|x: u128| #[trigger] more.count(x) > 0 implies x <= u64::MAX && next.dom().contains(
        x as u64,
    ) by {
        if x != r as u128 {
            assert(items.count(x) > 0);
        }
    }
    assert forall|i: int| 0 <= i <= seen.len() implies (#[trigger] held_at(all, next, i) <==> i == m
        || held_at(seen, places, i)) by {
        if i == m {
            assert(next[r][next[r].len() - 1] == m);
        } else {
            let q = seen[i].1.rank();
            if places.dom().contains(q) {
                assert(filed(seen, places, items, q));
                if q == r {
                    if places[r].contains(i) {
                        let j = choose|j: int| 0 <= j < places[r].len() && places[r][j] == i;
                        assert(next[r][j] == i);
                    }
                    if next[r].contains(i) {
                        let j = choose|j: int| 0 <= j < next[r].len() && next[r][j] == i;
                        assert(places[r][j] == i);
                    }
                }
            } else if q == r {
                if next[r].contains(i) {
                    let j = choose|j: int| 0 <= j < next[r].len() && next[r][j] == i;
                }
            }
        }
    }
}

/// Keeps the best of the nodes it is shown, up to a fixed number of them.
///
/// The heap holds the ranks of the nodes kept. The nodes themselves wait
/// beside it, those of one rank in a queue in the order in which they were
/// shown: the last of a rank is the first to go, and the first of a rank
/// is the first to be drained.
pub struct TopKExtractor<K: TrieKey, V: TrieValue + Ranked> {
    heap: CappedHeap,
    held: HashMap<u64, VecDeque<KeyValue<K, V>>>,
    seen: Ghost<Seq<(Seq<K::V>, V)>>,
    places: Ghost<Map<u64, Seq<int>>>,
}

impl<K: TrieKey, V: TrieValue + Ranked> TopKExtractor<K, V> {
    /// The heap holds the ranks of the nodes held, the nodes held are the
    /// best of those shown, and none of them was ever turned away.
    spec fn holds_kept(&self) -> bool {
        &&& self.heap.wf()
        &&& self.heap.offered() == ranks(self.seen@)
        &&& files(self.seen@, self.places@, self.heap.items())
        &&& stores(self.held@, self.seen@, self.places@)
        &&& leads(self.seen@, self.places@)
        &&& forall|k: int|
            0 <= k < self.seen@.len() && #[trigger] turned_away(self.seen@, self.heap.cap(), k)
                ==> !held_at(self.seen@, self.places@, k) && self.seen@.len() >= self.heap.cap()
        &&& self.seen@.len() <= self.heap.cap() ==> forall|i: int|
            0 <= i < self.seen@.len() ==> #[trigger] held_at(self.seen@, self.places@, i)
    }

    /// An extractor that keeps at most `n` nodes and has been shown none.
    pub fn new(n: usize) -> (extractor: Self)
        ensures
            extractor.inv(),
            extractor.limit() == n,
            extractor.seen() == Seq::<(Seq<K::V>, V)>::empty(),
    {
        broadcast use vstd::std_specs::hash::group_hash_axioms;
        broadcast use vstd::multiset::group_multiset_axioms;

        let extractor = TopKExtractor {
            heap: CappedHeap::new(n),
            held: HashMap::new(),
            seen: Ghost(Seq::empty()),
            places: Ghost(Map::empty()),
        };
        assert(ranks(extractor.seen@) =~= Seq::<u128>::empty());
        extractor
    }

    /// The best of the nodes shown, best first. No node that the extractor
    /// did not keep when it was shown is among them, and if there is such a
    /// node, the extractor is full.
    pub fn drain(self) -> (top: Vec<KeyValue<K, V>>)
        requires
            self.inv(),
        ensures
            views(top@) == best(self.seen(), self.limit()),
            is_selection(self.seen(), self.limit(), selection(self.seen(), self.limit())),
            top.len() == if self.seen().len() < self.limit() {
                self.seen().len()
            } else {
                self.limit()
            },
            forall|k: int|
                0 <= k < self.seen().len() && #[trigger] declined::<K, V, Self>(
                    Seq::empty(),
                    self.limit(),
                    self.seen(),
                    k,
                ) ==> !selection(self.seen(), self.limit()).contains(k) && self.seen().len()
                    >= self.limit(),
    {
        broadcast use vstd::std_specs::hash::group_hash_axioms;
        broadcast use vstd::multiset::group_multiset_axioms;
        broadcast use vstd::seq_lib::group_to_multiset_ensures;

        let ghost seen = self.seen@;
        let ghost cap = self.heap.cap();
        let ghost items = self.heap.items();
        let ghost places = self.places@;
        let TopKExtractor { heap, held, seen: _, places: _ } = self;
        let mut held = held;
        let sorted = heap.drain_sorted_descending();
        let ghost mut left = places;
        let ghost mut pick = Seq::<int>::empty();
        proof {
            lemma_retained_greatest(ranks(seen), cap);
            assert(sorted@.skip(0) =~= sorted@);
        }
        let mut top: Vec<KeyValue<K, V>> = Vec::new();
        let mut k: usize = 0;
        while k < sorted.len()
            invariant
                k <= sorted.len(),
                top.len() == k,
                pick.len() == k,
                forall|i: int, j: int| 0 <= i <= j < sorted.len() ==> sorted[i] >= sorted[j],
                files(seen, left, sorted@.skip(k as int).to_multiset()),
                stores(held@, seen, left),
                forall|j: int|
                    0 <= j < k ==> 0 <= #[trigger] pick[j] < seen.len() && (top[j])@ == seen[pick[j]]
                        && seen[pick[j]].1.rank() as u128 == sorted[j],
                forall|j: int, l: int|
                    0 <= j < l < k ==> outranks(seen, #[trigger] pick[j], #[trigger] pick[l]),
                forall|j: int, h: int|
                    0 <= j < k && 0 <= h < seen.len() && #[trigger] held_at(seen, left, h)
                        ==> outranks(seen, #[trigger] pick[j], h),
                forall|i: int|
                    0 <= i < seen.len() ==> (#[trigger] held_at(seen, places, i) <==> pick.contains(i)
                        || held_at(seen, left, i)),
            decreases sorted.len() - k,
        {
            let ghost rest = sorted@.skip(k as int);
            let ghost fewer = sorted@.skip(k + 1);
            proof {
                assert(rest[0] == sorted[k as int]);
                assert(rest.contains(rest[0]));
                vstd::seq_lib::to_multiset_contains(rest, sorted[k as int]);
                assert(rest.remove(0) =~= fewer);
                vstd::seq_lib::to_multiset_remove(rest, 0);
            }
            let r = sorted[k] as u64;
            assert(left.dom().contains(r));
            assert(filed(seen, left, rest.to_multiset(), r));
            let ghost first = left[r][0];
            let ghost before = left;
            let ghost pick_before = pick;
            let mut queue = held.remove(&r).unwrap();
            let node = queue.pop_front().unwrap();
            if queue.len() > 0 {
                held.insert(r, queue);
            }
            top.push(node);
            proof {
                left = without_first(before, r);
                pick = pick_before.push(first);
                lemma_without_first(seen, before, rest.to_multiset(), r);
                assert(fewer.to_multiset() == rest.to_multiset().remove(sorted[k as int]));
                assert(stores(held@, seen, left)) by {
                    assert forall|q: u64| #[trigger] left.dom().contains(q) implies stored(
                        held@,
                        seen,
                        left,
                        q,
                    ) by {
                        assert(before.dom().contains(q));
                        if q == r {
                            assert forall|j: int| 0 <= j < left[q].len() implies (
                            #[trigger] held@[q]@[j])@ == seen[left[q][j]] by {
                                assert(left[q][j] == before[q][j + 1]);
                            }
                        }
                    }
                }
                assert forall|j: int, h: int|
                    0 <= j < k + 1 && 0 <= h < seen.len() && #[trigger] held_at(seen, left, h)
                    implies outranks(seen, #[trigger] pick[j], h) by {
                    if j == k {
                        let q = seen[h].1.rank();
                        assert(filed(seen, left, fewer.to_multiset(), q));
                        assert(fewer.to_multiset().count(q as u128) > 0);
                        vstd::seq_lib::to_multiset_contains(fewer, q as u128);
                        assert(fewer.contains(q as u128));
                        let at = choose|at: int| 0 <= at < fewer.len() && fewer[at] == q as u128;
                        assert(sorted[k + 1 + at] == q as u128);
                        if q == r {
                            assert(held_at(seen, before, h));
                            let l = choose|l: int| 0 <= l < before[r].len() && before[r][l] == h;
                            assert(before[r][0] < before[r][l]);
                        }
                    } else {
                        assert(pick[j] == pick_before[j]);
                        assert(held_at(seen, before, h));
                    }
                }
                assert forall|j: int, l: int| 0 <= j < l < k + 1 implies outranks(
                    seen,
                    #[trigger] pick[j],
                    #[trigger] pick[l],
                ) by {
                    assert(pick[j] == pick_before[j]);
                    if l == k {
                        assert(held_at(seen, before, first)) by {
                            assert(before[r][0] == first);
                        }
                    } else {
                        assert(pick[l] == pick_before[l]);
                    }
                }
                assert forall|i: int| 0 <= i < seen.len() implies (#[trigger] held_at(seen, places, i)
                    <==> pick.contains(i) || held_at(seen, left, i)) by {
                    if pick_before.contains(i) {
                        let j = choose|j: int| 0 <= j < pick_before.len() && pick_before[j] == i;
                        assert(pick[j] == i);
                    }
                    if pick.contains(i) {
                        let j = choose|j: int| 0 <= j < pick.len() && pick[j] == i;
                        if j < k {
                            assert(pick_before[j] == i);
                        } else {
                            assert(held_at(seen, before, first)) by {
                                assert(before[r][0] == first);
                            }
                        }
                    }
                    if i == first {
                        assert(pick[k as int] == first);
                    }
                }
                assert forall|j: int| 0 <= j < k + 1 implies 0 <= #[trigger] pick[j] < seen.len() && (
                top[j])@ == seen[pick[j]] && seen[pick[j]].1.rank() as u128 == sorted[j] by {
                    if j < k {
                        assert(pick[j] == pick_before[j]);
                    }
                }
            }
            k += 1;
        }
        proof {
            assert(sorted@.skip(sorted.len() as int) =~= Seq::<u128>::empty());
            assert forall|i: int| 0 <= i < seen.len() implies !held_at(seen, left, i) by {
                if held_at(seen, left, i) {
                    assert(filed(
                        seen,
                        left,
                        sorted@.skip(sorted.len() as int).to_multiset(),
                        seen[i].1.rank(),
                    ));
                }
            }
            vstd::seq_lib::to_multiset_len(sorted@);
            vstd::seq_lib::to_multiset_len(ranks(seen));
            assert forall|j: int, i: int|
                0 <= j < pick.len() && 0 <= i < seen.len() && !pick.contains(i)
                implies #[trigger] outranks(seen, pick[j], i) by {
                assert(pick.contains(pick[j]));
                assert(held_at(seen, places, pick[j]));
                assert(!held_at(seen, places, i));
            }
            assert(is_selection(seen, cap, pick));
            lemma_selection_is_unique(seen, cap, pick, selection(seen, cap));
            assert(views(top@) =~= best(seen, cap));
            assert forall|k: int|
                0 <= k < seen.len() && #[trigger] declined::<K, V, Self>(
                    Seq::empty(),
                    cap,
                    seen,
                    k,
                ) implies !pick.contains(k) && seen.len() >= cap by {
                assert(Seq::<(Seq<K::V>, V)>::empty() + seen.take(k) =~= seen.take(k));
                assert(turned_away(seen, cap, k));
            }
        }
        top
    }
}

/// Taking the first node of a rank out of the files leaves the files in
/// order.
proof fn lemma_without_first<P, V: Ranked>(
    seen: Seq<(P, V)>,
    places: Map<u64, Seq<int>>,
    items: Multiset<u128>,
    r: u64,
)
    requires
        files(seen, places, items),
        places.dom().contains(r),
    ensures
        files(seen, without_first(places, r), items.remove(r as u128)),
        forall|i: int|
            0 <= i < seen.len() ==> (#[trigger] held_at(seen, without_first(places, r), i) <==> held_at(
                seen,
                places,
                i,
            ) && i != places[r][0]),
{
    broadcast use vstd::multiset::group_multiset_axioms;

    let next = without_first(places, r);
    let fewer = items.remove(r as u128);
    let first = places[r][0];
    assert(filed(seen, places, items, r));
    assert forall|q: u64| #[trigger] next.dom().contains(q) implies filed(seen, next, fewer, q) by {
        assert(places.dom().contains(q));
        assert(filed(seen, places, items, q));
        if q == r {
            assert forall|j: int| 0 <= j < next[q].len() implies 0 <= #[trigger] next[q][j]
                < seen.len() && seen[next[q][j]].1.rank() == q by {
                assert(next[q][j] == places[q][j + 1]);
            }
            assert forall|j: int, l: int| 0 <= j < l < next[q].len() implies #[trigger] next[q][j]
                < #[trigger] next[q][l] by {
                assert(next[q][j] == places[q][j + 1] && next[q][l] == places[q][l + 1]);
            }
        } else {
            assert(q as u128 != r as u128);
        }
    }
    assert forall|x: u128| #[trigger] fewer.count(x) > 0 implies x <= u64::MAX && next.dom().contains(
        x as u64,
    ) by {
        assert(items.count(x) > 0);
    }
    assert forall|i: int| 0 <= i < seen.len() implies (#[trigger] held_at(seen, next, i) <==> held_at(
        seen,
        places,
        i,
    ) && i != first) by {
        let q = seen[i].1.rank();
        if places.dom().contains(q) {
            assert(filed(seen, places, items, q));
            if q == r {
                if places[r].len() > 1 {
                    if places[r].contains(i) && i != first {
                        let j = choose|j: int| 0 <= j < places[r].len() && places[r][j] == i;
                        assert(next[r][j - 1] == i);
                    }
                    if next[r].contains(i) {
                        let j = choose|j: int| 0 <= j < next[r].len() && next[r][j] == i;
                        assert(places[r][j + 1] == i);
                        assert(places[r][0] < places[r][j + 1]);
                    }
                } else {
                    if places[r].contains(i) {
                        let j = choose|j: int| 0 <= j < places[r].len() && places[r][j] == i;
                    }
                }
            } else {
                assert(seen[first].1.rank() == r);
            }
        }
    }
}

impl<K: TrieKey, V: TrieValue + Ranked> Collector<K, V> for TopKExtractor<K, V> {
    closed spec fn inv(&self) -> bool {
        self.holds_kept()
    }

    closed spec fn limit(&self) -> nat {
        self.heap.cap()
    }

    closed spec fn seen(&self) -> Seq<(Seq<K::V>, V)> {
        self.seen@
    }

    closed spec fn keeps(seen: Seq<(Seq<K::V>, V)>, limit: nat, entry: (Seq<K::V>, V)) -> bool {
        admits(retained(ranks(seen), limit), limit, entry.1.rank() as u128)
    }

    /// Keeps the node if fewer than `cap` were shown, or if it ranks
    /// strictly higher than the worst node kept, which is then dropped.
    fn offer(&mut self, key: &Vec<K>, value: V) -> (kept: bool) {
        broadcast use vstd::std_specs::hash::group_hash_axioms;
        broadcast use vstd::multiset::group_multiset_axioms;

        let ghost seen = self.seen@;
        let ghost entry = (tokens(key@), value);
        let ghost all = seen.push(entry);
        let ghost items = self.heap.items();
        let ghost cap = self.heap.cap();
        let ghost places = self.places@;
        let ghost none = Seq::<(Seq<K::V>, V)>::empty();
        let rank = value.ranking();
        let low = self.heap.peek_min();
        proof {
            lemma_retained_greatest(ranks(seen), cap);
            vstd::seq_lib::to_multiset_len(ranks(seen));
            assert(ranks(all) =~= ranks(seen).push(rank as u128));
            assert(none + seen =~= seen);
            assert(all.take(seen.len() as int) =~= seen);
            assert forall|k: int| 0 <= k < seen.len() implies turned_away(all, cap, k) == turned_away(
                seen,
                cap,
                k,
            ) by {
                assert(all.take(k) =~= seen.take(k));
            }
        }
        let full = self.heap.len() > 0 && self.heap.len() >= self.heap.capacity();
        let kept = self.heap.insert(rank as u128);
        let ghost mut next = places;
        if kept {
            if full {
                let worst = low.unwrap() as u64;
                proof {
                    lemma_without_last(seen, places, items, low->0);
                    next = without_last(places, worst);
                }
                let mut queue = self.held.remove(&worst).unwrap();
                let _ = queue.pop_back();
                if queue.len() > 0 {
                    self.held.insert(worst, queue);
                }
                assert(stores(self.held@, seen, next)) by {
                    assert forall|q: u64| #[trigger] next.dom().contains(q) implies stored(
                        self.held@,
                        seen,
                        next,
                        q,
                    ) by {
                        assert(places.dom().contains(q));
                        if q == worst {
                            assert forall|j: int| 0 <= j < next[q].len() implies (
                            #[trigger] self.held@[q]@[j])@ == seen[next[q][j]] by {
                                assert(next[q][j] == places[q][j]);
                            }
                        }
                    }
                }
            }
            let ghost mid = next;
            let ghost fewer = if full {
                items.remove(low->0)
            } else {
                items
            };
            let node = KeyValue { key: copy_key(key), value };
            let mut queue = match self.held.remove(&rank) {
                Some(queue) => queue,
                None => VecDeque::new(),
            };
            queue.push_back(node);
            self.held.insert(rank, queue);
            proof {
                lemma_with_place(seen, mid, fewer, entry);
                next = with_place(mid, rank, seen.len() as int);
                assert(self.heap.items() =~= fewer.insert(rank as u128));
                assert(stores(self.held@, all, next)) by {
                    assert forall|q: u64| #[trigger] next.dom().contains(q) implies stored(
                        self.held@,
                        all,
                        next,
                        q,
                    ) by {
                        if q == rank {
                            assert forall|j: int| 0 <= j < next[q].len() implies (
                            #[trigger] self.held@[q]@[j])@ == all[next[q][j]] by {
                                if mid.dom().contains(q) && j < mid[q].len() {
                                    assert(next[q][j] == mid[q][j]);
                                    assert(filed(seen, mid, fewer, q));
                                }
                            }
                        } else {
                            assert(mid.dom().contains(q));
                            assert(filed(seen, mid, fewer, q));
                            assert forall|j: int| 0 <= j < next[q].len() implies (
                            #[trigger] self.held@[q]@[j])@ == all[next[q][j]] by {
                                assert(next[q][j] == mid[q][j]);
                            }
                        }
                    }
                }
                assert(leads(all, next)) by {
                    assert forall|h: int, i: int|
                        0 <= h < all.len() && 0 <= i < all.len() && #[trigger] held_at(all, next, h)
                            && !#[trigger] held_at(all, next, i) implies outranks(all, h, i) by {
                        assert(i < seen.len());
                        assert(held_at(seen, mid, i) == held_at(all, next, i));
                        if full {
                            let gone = places[low->0 as u64].last();
                            if h == seen.len() {
                                if i != gone {
                                    assert(!held_at(seen, places, i));
                                    assert(held_at(seen, places, gone)) by {
                                        assert(places[low->0 as u64][places[low->0 as u64].len() - 1]
                                            == gone);
                                    }
                                    assert(outranks(seen, gone, i));
                                }
                            } else {
                                assert(held_at(seen, mid, h));
                                assert(held_at(seen, places, h));
                                if i != gone {
                                    assert(!held_at(seen, places, i));
                                    assert(outranks(seen, h, i));
                                } else {
                                    assert(outranks(seen, h, gone));
                                }
                            }
                        } else {
                            // a heap with room holds every node shown
                            assert(held_at(seen, places, i));
                        }
                    }
                }
            }
        } else {
            proof {
                assert(files(all, places, items)) by {
                    assert forall|q: u64| #[trigger] places.dom().contains(q) implies filed(
                        all,
                        places,
                        items,
                        q,
                    ) by {
                        assert(filed(seen, places, items, q));
                    }
                }
                assert(!held_at(all, places, seen.len() as int)) by {
                    if held_at(all, places, seen.len() as int) {
                        assert(filed(seen, places, items, rank));
                        let j = choose|j: int|
                            0 <= j < places[rank].len() && places[rank][j] == seen.len();
                    }
                }
                assert(stores(self.held@, all, places)) by {
                    assert forall|q: u64| #[trigger] places.dom().contains(q) implies stored(
                        self.held@,
                        all,
                        places,
                        q,
                    ) by {
                        assert(filed(seen, places, items, q));
                    }
                }
                assert(leads(all, places)) by {
                    assert forall|h: int, i: int|
                        0 <= h < all.len() && 0 <= i < all.len() && #[trigger] held_at(all, places, h)
                            && !#[trigger] held_at(all, places, i) implies outranks(all, h, i) by {
                        assert(h < seen.len());
                        assert(held_at(seen, places, h));
                        if i == seen.len() {
                            let q = seen[h].1.rank();
                            assert(filed(seen, places, items, q));
                            assert(items.count(q as u128) > 0);
                        } else {
                            assert(!held_at(seen, places, i));
                        }
                    }
                }
            }
        }
        self.seen = Ghost(all);
        self.places = Ghost(next);
        proof {
            assert forall|k: int|
                0 <= k < all.len() && #[trigger] turned_away(all, cap, k) implies !held_at(
                all,
                next,
                k,
            ) && all.len() >= cap by {
                if k < seen.len() {
                    assert(turned_away(seen, cap, k));
                    assert(!held_at(seen, places, k));
                    if kept {
                        if full {
                            assert(held_at(seen, without_last(places, low->0 as u64), k) ==> held_at(
                                seen,
                                places,
                                k,
                            ));
                        }
                    }
                }
            }
            if all.len() <= cap {
                assert forall|i: int| 0 <= i < all.len() implies #[trigger] held_at(all, next, i) by {
                    if i < seen.len() {
                        assert(held_at(seen, places, i));
                    }
                }
            }
        }
        kept
    }
}

impl<K: TrieKey, V: TrieValue + Ranked> Trie<K, V> {
    /// Takes the tree apart and returns its `n` best nodes, best first; all
    /// of them where the tree has no more than `n`. The root is no node in
    /// this sense. A node is better than another if its value ranks higher,
    /// or ranks the same and comes first in the order of `entries`.
    pub fn drain_top_items(self, n: usize) -> (top: Vec<KeyValue<K, V>>)
        ensures
            views(top@) == best(self.entries(), n as nat),
            is_selection(self.entries(), n as nat, selection(self.entries(), n as nat)),
            top.len() == if self.entries().len() < n {
                self.entries().len()
            } else {
                n as nat
            },
    {
        let mut extractor = TopKExtractor::new(n);
        self.drain_into(&mut extractor);
        assert(extractor.seen() =~= self.entries());
        extractor.drain()
    }

    /// Takes the tree apart and returns its `n` best nodes, best first, as
    /// `drain_top_items` does, without looking at what lies below a node
    /// that is not among the best when it is met. This is for trees in which
    /// no node ranks higher than a node above it.
    pub fn drain_top_items_pruned(self, n: usize) -> (top: Vec<KeyValue<K, V>>)
        requires
            self.wf(),
            ranks_descend(self.entries()),
        ensures
            views(top@) == best(self.entries(), n as nat),
            is_selection(self.entries(), n as nat, selection(self.entries(), n as nat)),
            top.len() == if self.entries().len() < n {
                self.entries().len()
            } else {
                n as nat
            },
    {
        let ghost none = Seq::<(Seq<K::V>, V)>::empty();
        let ghost shown = self.pruned_entries::<TopKExtractor<K, V>>(none, n as nat);
        let mut extractor = TopKExtractor::new(n);
        self.drain_into_pruned(&mut extractor);
        assert(extractor.seen() =~= shown);
        let top = extractor.drain();
        proof {
            let place = self.lemma_pruned_entries::<TopKExtractor<K, V>>(none, n as nat);
            lemma_pruned_best::<K, V>(shown, self.entries(), place, n as nat);
            lemma_best_descends(self.entries(), n as nat);
        }
        top
    }
}

} // verus!
