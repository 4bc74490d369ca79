//! A priority container of bounded size.
//!
//! A [`CappedHeap`] is offered items one at a time and never holds more than
//! its capacity. Once full, it admits an item only by giving up its least
//! one, and only when the newcomer is strictly greater. The items are kept in
//! a double-ended heap of the `min_max_heap` crate, whose behaviour is stated
//! here without proof; everything built on it is verified.

use min_max_heap::MinMaxHeap;
use vstd::multiset::Multiset;
use vstd::prelude::*;

verus! {

#[verifier::external_type_specification]
#[verifier::external_body]
#[verifier::reject_recursive_types(T)]
pub struct ExMinMaxHeap<T>(MinMaxHeap<T>);

/// The items that a heap of the `min_max_heap` crate holds, each as often as
/// it was put in and not yet taken out.
pub uninterp spec fn heap_items(heap: MinMaxHeap<u128>) -> Multiset<u128>;

/// `x` occurs in `items` and nothing in `items` is below it.
pub open spec fn is_least(items: Multiset<u128>, x: u128) -> bool {
    &&& items.count(x) > 0
    &&& forall|y: u128| items.count(y) > 0 ==> x <= y
}

/// The least item of a non-empty multiset.
pub open spec fn least(items: Multiset<u128>) -> u128 {
    choose|x: u128| is_least(items, x)
}

/// What a capped heap holding `kept` holds after it was offered `item`.
pub open spec fn step(kept: Multiset<u128>, cap: nat, item: u128) -> Multiset<u128> {
    if kept.len() < cap {
        kept.insert(item)
    } else if cap > 0 && item > least(kept) {
        kept.remove(least(kept)).insert(item)
    } else {
        kept
    }
}

/// Whether a capped heap holding `kept` keeps `item` when offered it.
pub open spec fn admits(kept: Multiset<u128>, cap: nat, item: u128) -> bool {
    kept.len() < cap || (cap > 0 && item > least(kept))
}

/// What an empty capped heap holds after it was offered `offered`, first to
/// last.
pub open spec fn retained(offered: Seq<u128>, cap: nat) -> Multiset<u128>
    decreases offered.len(),
{
    if offered.len() == 0 {
        Multiset::empty()
    } else {
        step(retained(offered.drop_last(), cap), cap, offered.last())
    }
}

/// `kept` is made of the `cap` greatest items of `all`, or of all of them
/// where there are fewer.
pub open spec fn holds_greatest(kept: Multiset<u128>, all: Multiset<u128>, cap: nat) -> bool {
    &&& kept.subset_of(all)
    &&& kept.len() == if all.len() < cap { all.len() } else { cap }
    &&& forall|x: u128, y: u128|
        #![trigger kept.count(x), all.sub(kept).count(y)]
        kept.count(x) > 0 && all.sub(kept).count(y) > 0 ==> x >= y
}

/// `MinMaxHeap::new`: the new heap holds nothing.
#[verifier::external_body]
fn heap_new() -> (heap: MinMaxHeap<u128>)
    ensures
        heap_items(heap) == Multiset::<u128>::empty(),
{
    MinMaxHeap::new()
}

/// `MinMaxHeap::len`: the number of items held, counting repetitions.
#[verifier::external_body]
fn heap_len(heap: &MinMaxHeap<u128>) -> (n: usize)
    ensures
        n == heap_items(*heap).len(),
{
    heap.len()
}

/// `MinMaxHeap::push`: the item is added and nothing else changes.
#[verifier::external_body]
fn heap_push(heap: &mut MinMaxHeap<u128>, item: u128)
    ensures
        heap_items(*final(heap)) == heap_items(*old(heap)).insert(item),
{
    heap.push(item)
}

/// `MinMaxHeap::peek_min`: nothing for an empty heap, else an item of the
/// heap that none of its items is below.
#[verifier::external_body]
fn heap_peek_min(heap: &MinMaxHeap<u128>) -> (low: Option<u128>)
    ensures
        heap_items(*heap).len() == 0 ==> low is None,
        heap_items(*heap).len() > 0 ==> low is Some && is_least(heap_items(*heap), low->0),
{
    heap.peek_min().copied()
}

/// `MinMaxHeap::replace_min`: on an empty heap the item is added and nothing
/// comes back; otherwise a least item leaves the heap and is returned, and
/// the new item takes its place.
#[verifier::external_body]
fn heap_replace_min(heap: &mut MinMaxHeap<u128>, item: u128) -> (gone: Option<u128>)
    ensures
        heap_items(*old(heap)).len() == 0 ==> gone is None && heap_items(*final(heap))
            == heap_items(*old(heap)).insert(item),
        heap_items(*old(heap)).len() > 0 ==> gone is Some && is_least(
            heap_items(*old(heap)),
            gone->0,
        ) && heap_items(*final(heap)) == heap_items(*old(heap)).remove(gone->0).insert(item),
{
    heap.replace_min(item)
}

/// `MinMaxHeap::into_vec_desc`: the items of the heap, each as often as it was
/// held, greatest first.
#[verifier::external_body]
fn heap_into_vec_desc(heap: MinMaxHeap<u128>) -> (sorted: Vec<u128>)
    ensures
        sorted@.to_multiset() == heap_items(heap),
        forall|i: int, j: int| 0 <= i <= j < sorted.len() ==> sorted[i] >= sorted[j],
{
    heap.into_vec_desc()
}

/// A heap that holds the greatest items it was offered, up to a fixed number.
pub struct CappedHeap {
    cap: usize,
    heap: MinMaxHeap<u128>,
    offered: Ghost<Seq<u128>>,
}

impl View for CappedHeap {
    type V = Multiset<u128>;

    /// The items the heap holds.
    open spec fn view(&self) -> Multiset<u128> {
        self.items()
    }
}

impl CappedHeap {
    /// The greatest number of items the heap holds.
    pub closed spec fn cap(&self) -> nat {
        self.cap as nat
    }

    /// The items the heap holds now.
    pub closed spec fn items(&self) -> Multiset<u128> {
        heap_items(self.heap)
    }

    /// Every item the heap was offered since it was made, kept or not, in
    /// the order of the offers.
    pub closed spec fn offered(&self) -> Seq<u128> {
        self.offered@
    }

    /// The heap holds what a heap of its capacity keeps of what it was
    /// offered.
    pub open spec fn wf(&self) -> bool {
        self.items() == retained(self.offered(), self.cap())
    }

    /// An empty heap that will hold at most `cap` items.
    pub fn new(cap: usize) -> (heap: Self)
        ensures
            heap.wf(),
            heap.cap() == cap,
            heap.offered() == Seq::<u128>::empty(),
            heap.items() == Multiset::<u128>::empty(),
    {
        CappedHeap { cap, heap: heap_new(), offered: Ghost(Seq::empty()) }
    }

    /// The greatest number of items the heap holds.
    pub fn capacity(&self) -> (cap: usize)
        ensures
            cap == self.cap(),
    {
        self.cap
    }

    /// The number of items held.
    pub fn len(&self) -> (n: usize)
        requires
            self.wf(),
        ensures
            n == self.items().len(),
            n <= self.cap(),
    {
        proof {
            lemma_retained_greatest(self.offered@, self.cap as nat);
        }
        heap_len(&self.heap)
    }

    /// The least item held, if the heap holds any.
    pub fn peek_min(&self) -> (low: Option<u128>)
        ensures
            match low {
                Some(x) => is_least(self.items(), x) && x == least(self.items()),
                None => self.items().len() == 0,
            },
    {
        let low = heap_peek_min(&self.heap);
        proof {
            if low is Some {
                lemma_least_is_unique(heap_items(self.heap), low->0);
            }
        }
        low
    }

    /// Offers `item` to the heap and says whether the heap kept it.
    ///
    /// A heap with room keeps every item. A full heap keeps an item only if
    /// it is strictly greater than the least one held, which then leaves.
    pub fn insert(&mut self, item: u128) -> (kept: bool)
        requires
            old(self).wf(),
        ensures
            final(self).wf(),
            final(self).cap() == old(self).cap(),
            final(self).offered() == old(self).offered().push(item),
            final(self).items() == step(old(self).items(), old(self).cap(), item),
            kept == admits(old(self).items(), old(self).cap(), item),
    {
        proof {
            lemma_retained_greatest(self.offered@, self.cap as nat);
        }
        let ghost before = self.offered@;
        let ghost held = heap_items(self.heap);
        assert(before.push(item).drop_last() =~= before);
        if heap_len(&self.heap) < self.cap {
            heap_push(&mut self.heap, item);
            self.offered = Ghost(before.push(item));
            return true;
        }
        if self.cap > 0 {
            let low = heap_peek_min(&self.heap);
            proof {
                lemma_least_is_unique(held, low->0);
            }
            if item > low.unwrap() {
                let gone = heap_replace_min(&mut self.heap, item);
                proof {
                    lemma_least_is_unique(held, gone->0);
                }
                self.offered = Ghost(before.push(item));
                return true;
            }
        }
        self.offered = Ghost(before.push(item));
        false
    }

    /// Empties the heap and returns what it held, greatest first.
    pub fn drain_sorted_descending(self) -> (sorted: Vec<u128>)
        ensures
            sorted@.to_multiset() == self.items(),
            forall|i: int, j: int| 0 <= i <= j < sorted.len() ==> sorted[i] >= sorted[j],
    {
        heap_into_vec_desc(self.heap)
    }
}

/// A multiset has at most one least item.
pub proof fn lemma_least_is_unique(items: Multiset<u128>, x: u128)
    requires
        is_least(items, x),
    ensures
        least(items) == x,
{
    let y = least(items);
    assert(is_least(items, y));
}

/// Offering one more item to a heap that holds the greatest items of `all`
/// leaves it holding the greatest items of `all` and the new one.
pub proof fn lemma_step_keeps_greatest(
    kept: Multiset<u128>,
    all: Multiset<u128>,
    cap: nat,
    item: u128,
)
    requires
        holds_greatest(kept, all, cap),
    ensures
        holds_greatest(step(kept, cap, item), all.insert(item), cap),
{
    broadcast use vstd::multiset::group_multiset_axioms;

    let next = step(kept, cap, item);
    let more = all.insert(item);
    if kept.len() < cap {
        assert(kept =~= all) by {
            assert forall|v: u128| kept.count(v) == all.count(v) by {
                lemma_subset_of_same_size(kept, all);
            }
        }
        assert(more.sub(next) =~= Multiset::<u128>::empty());
    } else if cap > 0 && item > least(kept) {
        assert(kept.len() > 0);
        lemma_has_least(kept);
        let low = least(kept);
        assert forall|x: u128, y: u128|
            #![trigger next.count(x), more.sub(next).count(y)]
            next.count(x) > 0 && more.sub(next).count(y) > 0 implies x >= y by {
            if y != low {
                assert(all.sub(kept).count(y) > 0);
                assert(kept.count(low) > 0);
            }
            if x != item {
                assert(kept.count(x) > 0);
            }
        }
    } else {
        if cap > 0 {
            lemma_has_least(kept);
            let low = least(kept);
            assert forall|x: u128, y: u128|
                #![trigger next.count(x), more.sub(next).count(y)]
                next.count(x) > 0 && more.sub(next).count(y) > 0 implies x >= y by {
                if y != item {
                    assert(all.sub(kept).count(y) > 0);
                }
            }
        } else {
            assert(kept.len() == 0);
            assert(kept =~= Multiset::<u128>::empty());
        }
    }
}

/// A non-empty multiset of integers has a least item.
pub proof fn lemma_has_least(items: Multiset<u128>)
    requires
        items.len() > 0,
    ensures
        is_least(items, least(items)),
    decreases items.len(),
{
    broadcast use vstd::multiset::group_multiset_axioms;

    let a = items.choose();
    let rest = items.remove(a);
    if rest.len() == 0 {
        assert forall|y: u128| items.count(y) > 0 implies a <= y by {
            if y != a {
                assert(rest.count(y) > 0);
                assert(rest.len() > 0);
            }
        }
        assert(is_least(items, a));
    } else {
        lemma_has_least(rest);
        let b = least(rest);
        let low = if a <= b {
            a
        } else {
            b
        };
        assert forall|y: u128| items.count(y) > 0 implies low <= y by {
            if y != a {
                assert(rest.count(y) > 0);
            }
        }
        assert(is_least(items, low));
    }
}

/// A multiset inside another of the same size is the other.
pub proof fn lemma_subset_of_same_size<A>(inner: Multiset<A>, outer: Multiset<A>)
    requires
        inner.subset_of(outer),
        inner.len() == outer.len(),
    ensures
        inner == outer,
{
    broadcast use vstd::multiset::group_multiset_axioms;

    let gap = outer.sub(inner);
    assert(outer =~= inner.add(gap));
    assert(gap.len() == 0);
    assert(gap =~= Multiset::<A>::empty()) by {
        assert forall|v: A| gap.count(v) == 0 by {
            if gap.count(v) > 0 {
                assert(gap.len() > 0);
            }
        }
    }
    assert(inner =~= outer);
}

/// Whatever a capped heap was offered, it holds the greatest of it: as many
/// items as its capacity allows, none of them below one it let go.
pub proof fn lemma_retained_greatest(offered: Seq<u128>, cap: nat)
    ensures
        holds_greatest(retained(offered, cap), offered.to_multiset(), cap),
        retained(offered, cap).len() <= cap,
    decreases offered.len(),
{
    broadcast use vstd::multiset::group_multiset_axioms;
    broadcast use vstd::seq_lib::group_to_multiset_ensures;

    if offered.len() == 0 {
        assert(offered.to_multiset() =~= Multiset::<u128>::empty());
        assert(offered.to_multiset().sub(retained(offered, cap)) =~= Multiset::<u128>::empty());
    } else {
        let before = offered.drop_last();
        lemma_retained_greatest(before, cap);
        lemma_step_keeps_greatest(retained(before, cap), before.to_multiset(), cap, offered.last());
        assert(before.push(offered.last()) =~= offered);
    }
}

/// A heap without room keeps nothing of what it is offered.
pub proof fn lemma_zero_capacity(offered: Seq<u128>, item: u128)
    ensures
        retained(offered, 0) == Multiset::<u128>::empty(),
        !admits(retained(offered, 0), 0, item),
    decreases offered.len(),
{
    if offered.len() > 0 {
        lemma_zero_capacity(offered.drop_last(), offered.last());
    }
}

/// Only one multiset is made of the `cap` greatest items of `all`.
pub proof fn lemma_greatest_is_unique(
    a: Multiset<u128>,
    b: Multiset<u128>,
    all: Multiset<u128>,
    cap: nat,
)
    requires
        holds_greatest(a, all, cap),
        holds_greatest(b, all, cap),
    ensures
        a == b,
{
    broadcast use vstd::multiset::group_multiset_axioms;

    if a != b {
        lemma_differ_somewhere(a, b);
        let (x, y) = choose|x: u128, y: u128| a.count(x) > b.count(x) && b.count(y) > a.count(y);
        assert(a.count(x) > 0 && all.sub(a).count(y) > 0);
        assert(b.count(y) > 0 && all.sub(b).count(x) > 0);
    }
}

/// Two multisets of the same size that differ hold different amounts of some
/// item, each more of one than the other.
proof fn lemma_differ_somewhere(a: Multiset<u128>, b: Multiset<u128>)
    requires
        a.len() == b.len(),
        a != b,
    ensures
        exists|x: u128, y: u128| a.count(x) > b.count(x) && b.count(y) > a.count(y),
{
    broadcast use vstd::multiset::group_multiset_axioms;

    let only_a = a.sub(b);
    let only_b = b.sub(a);
    let both = a.sub(only_a);
    assert(a =~= both.add(only_a));
    assert(b =~= both.add(only_b));
    if only_a.len() == 0 {
        assert(only_b.len() == 0);
        assert(only_a =~= Multiset::<u128>::empty()) by {
            assert forall|v: u128| only_a.count(v) == 0 by {
                if only_a.count(v) > 0 {
                    assert(only_a.len() > 0);
                }
            }
        }
        assert(only_b =~= Multiset::<u128>::empty()) by {
            assert forall|v: u128| only_b.count(v) == 0 by {
                if only_b.count(v) > 0 {
                    assert(only_b.len() > 0);
                }
            }
        }
        assert(a =~= b);
    } else {
        let x = only_a.choose();
        let y = only_b.choose();
        assert(only_a.count(x) > 0);
        assert(only_b.count(y) > 0);
    }
}

} // verus!
