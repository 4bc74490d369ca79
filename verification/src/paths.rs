//! The order in which a prefix tree lists its paths.
//!
//! A tree lists a path before the paths that start with it, and the paths
//! that go on from one path with different tokens in the order in which the
//! tree came to hold them. The functions here say, for a list of paths in
//! that order, where the paths of one more key go.

use vstd::prelude::*;

verus! {

/// The paths that entries give.
pub open spec fn paths_of<T, V>(entries: Seq<(Seq<T>, V)>) -> Seq<Seq<T>> {
    entries.map_values(|entry: (Seq<T>, V)| entry.0)
}

/// The paths of two lists of entries joined are the paths of the one and
/// then those of the other.
pub proof fn lemma_paths_of_joined<T, V>(first: Seq<(Seq<T>, V)>, second: Seq<(Seq<T>, V)>)
    ensures
        paths_of(first + second) == paths_of(first) + paths_of(second),
{
    assert(paths_of(first + second) =~= paths_of(first) + paths_of(second));
}

/// The place of the last path that starts with `start`; one before the
/// first place where there is none.
pub open spec fn last_with<T>(paths: Seq<Seq<T>>, start: Seq<T>) -> int
    decreases paths.len(),
{
    if paths.len() == 0 {
        -1
    } else if start.is_prefix_of(paths.last()) {
        paths.len() - 1
    } else {
        last_with(paths.drop_last(), start)
    }
}

/// The list with `path` in it: where the list lacks the path, the path goes
/// behind the last path that starts as it does up to its last token.
pub open spec fn with_path<T>(paths: Seq<Seq<T>>, path: Seq<T>) -> Seq<Seq<T>> {
    if paths.contains(path) || path.len() == 0 {
        paths
    } else {
        paths.insert(last_with(paths, path.drop_last()) + 1, path)
    }
}

/// The list with every path in it that starts with `base`, goes on with
/// tokens of `rest` and is longer than `base`, the shorter paths put in
/// first.
pub open spec fn grown<T>(paths: Seq<Seq<T>>, base: Seq<T>, rest: Seq<T>) -> Seq<Seq<T>>
    decreases rest.len(),
{
    if rest.len() == 0 {
        paths
    } else {
        let longer = base.push(rest[0]);
        grown(with_path(paths, longer), longer, rest.skip(1))
    }
}

/// The place of the last path with a given start is a place of the list or
/// one before the first, holds such a path, and no place behind it does.
pub proof fn lemma_last_with<T>(paths: Seq<Seq<T>>, start: Seq<T>)
    ensures
        -1 <= last_with(paths, start) < paths.len(),
        last_with(paths, start) >= 0 ==> start.is_prefix_of(paths[last_with(paths, start)]),
        forall|i: int|
            last_with(paths, start) < i < paths.len() ==> !start.is_prefix_of(#[trigger] paths[i]),
    decreases paths.len(),
{
    if paths.len() > 0 && !start.is_prefix_of(paths.last()) {
        let shorter = paths.drop_last();
        lemma_last_with(shorter, start);
        assert forall|i: int| last_with(paths, start) < i < paths.len() implies !start.is_prefix_of(
            #[trigger] paths[i],
        ) by {
            if i < shorter.len() {
                assert(paths[i] == shorter[i]);
            }
        }
        if last_with(paths, start) >= 0 {
            assert(paths[last_with(paths, start)] == shorter[last_with(shorter, start)]);
        }
    }
}

/// A place that holds a path with the start and has none behind it is the
/// place of the last such path.
pub proof fn lemma_last_with_is<T>(paths: Seq<Seq<T>>, start: Seq<T>, at: int)
    requires
        -1 <= at < paths.len(),
        at >= 0 ==> start.is_prefix_of(paths[at]),
        forall|i: int| at < i < paths.len() ==> !start.is_prefix_of(#[trigger] paths[i]),
    ensures
        last_with(paths, start) == at,
{
    lemma_last_with(paths, start);
}

/// In a list of three parts of which only the middle one holds paths with
/// a given start, the last such path is the last of the middle part.
pub proof fn lemma_last_with_inside<T>(
    left: Seq<Seq<T>>,
    inner: Seq<Seq<T>>,
    right: Seq<Seq<T>>,
    start: Seq<T>,
)
    requires
        forall|i: int| 0 <= i < left.len() ==> !start.is_prefix_of(#[trigger] left[i]),
        forall|i: int| 0 <= i < right.len() ==> !start.is_prefix_of(#[trigger] right[i]),
        last_with(inner, start) >= 0,
    ensures
        last_with(left + inner + right, start) == left.len() + last_with(inner, start),
{
    let all = left + inner + right;
    let at = left.len() + last_with(inner, start);
    lemma_last_with(inner, start);
    assert(all[at] == inner[last_with(inner, start)]);
    assert forall|i: int| at < i < all.len() implies !start.is_prefix_of(#[trigger] all[i]) by {
        if i < left.len() + inner.len() {
            assert(all[i] == inner[i - left.len()]);
        } else {
            assert(all[i] == right[i - left.len() - inner.len()]);
        }
    }
    lemma_last_with_is(all, start, at);
}

/// A path that starts with a longer path starts with a shorter one that
/// the longer starts with.
pub proof fn lemma_start_of_start<T>(short: Seq<T>, long: Seq<T>, path: Seq<T>)
    requires
        short.is_prefix_of(long),
        long.is_prefix_of(path),
    ensures
        short.is_prefix_of(path),
{
    assert(short =~= path.subrange(0, short.len() as int)) by {
        assert forall|i: int| 0 <= i < short.len() implies short[i] == path[i] by {
            assert(short[i] == long.subrange(0, short.len() as int)[i]);
            assert(long[i] == path.subrange(0, long.len() as int)[i]);
        }
    }
}

/// Putting a path into a list of three parts puts it into the middle part,
/// where the path goes on from a path of the middle part by one token and
/// the other parts hold no path that starts with that path.
pub proof fn lemma_with_path_inside<T>(
    left: Seq<Seq<T>>,
    inner: Seq<Seq<T>>,
    right: Seq<Seq<T>>,
    base: Seq<T>,
    token: T,
)
    requires
        forall|i: int| 0 <= i < left.len() ==> !base.is_prefix_of(#[trigger] left[i]),
        forall|i: int| 0 <= i < right.len() ==> !base.is_prefix_of(#[trigger] right[i]),
        inner.contains(base),
    ensures
        with_path(left + inner + right, base.push(token)) == left + with_path(
            inner,
            base.push(token),
        ) + right,
        with_path(inner, base.push(token)).contains(base.push(token)),
{
    let all = left + inner + right;
    let path = base.push(token);
    assert(path.drop_last() =~= base);
    assert(base.is_prefix_of(path)) by {
        assert(base =~= path.subrange(0, base.len() as int));
    }
    let i = choose|i: int| 0 <= i < inner.len() && inner[i] == base;
    assert(base.is_prefix_of(inner[i])) by {
        assert(base =~= base.subrange(0, base.len() as int));
    }
    lemma_last_with(inner, base);
    assert(last_with(inner, base) >= 0);
    lemma_last_with_inside(left, inner, right, base);
    if inner.contains(path) {
        let j = choose|j: int| 0 <= j < inner.len() && inner[j] == path;
        assert(all[left.len() + j] == path);
    } else {
        if all.contains(path) {
            let j = choose|j: int| 0 <= j < all.len() && all[j] == path;
            if j < left.len() {
                assert(left[j] == path);
            } else if j < left.len() + inner.len() {
                assert(inner[j - left.len()] == path);
            } else {
                assert(right[j - left.len() - inner.len()] == path);
            }
        }
        let at = last_with(inner, base) + 1;
        assert(all.insert(left.len() + at, path) =~= left + inner.insert(at, path) + right);
        assert(inner.insert(at, path)[at] == path);
    }
}

/// Putting the paths of a key into a list of three parts puts them into the
/// middle part, where the middle part holds the path that they go on from
/// and the other parts hold no path that starts with that path.
pub proof fn lemma_grown_inside<T>(
    left: Seq<Seq<T>>,
    inner: Seq<Seq<T>>,
    right: Seq<Seq<T>>,
    base: Seq<T>,
    rest: Seq<T>,
)
    requires
        forall|i: int| 0 <= i < left.len() ==> !base.is_prefix_of(#[trigger] left[i]),
        forall|i: int| 0 <= i < right.len() ==> !base.is_prefix_of(#[trigger] right[i]),
        inner.contains(base),
    ensures
        grown(left + inner + right, base, rest) == left + grown(inner, base, rest) + right,
    decreases rest.len(),
{
    if rest.len() > 0 {
        let longer = base.push(rest[0]);
        lemma_with_path_inside(left, inner, right, base, rest[0]);
        assert(base.is_prefix_of(longer)) by {
            assert(base =~= longer.subrange(0, base.len() as int));
        }
        assert forall|i: int| 0 <= i < left.len() implies !longer.is_prefix_of(#[trigger] left[i]) by {
            if longer.is_prefix_of(left[i]) {
                lemma_start_of_start(base, longer, left[i]);
            }
        }
        assert forall|i: int| 0 <= i < right.len() implies !longer.is_prefix_of(
            #[trigger] right[i],
        ) by {
            if longer.is_prefix_of(right[i]) {
                lemma_start_of_start(base, longer, right[i]);
            }
        }
        lemma_grown_inside(left, with_path(inner, longer), right, longer, rest.skip(1));
    }
}

/// Putting the paths of a key into a list that begins with the path they go
/// on from, and holds only paths that start with it, leaves that path at
/// the head.
pub proof fn lemma_grown_behind_head<T>(below: Seq<Seq<T>>, base: Seq<T>, rest: Seq<T>)
    requires
        forall|i: int|
            0 <= i < below.len() ==> base.is_prefix_of(#[trigger] below[i]) && below[i].len()
                > base.len(),
    ensures
        grown(seq![base] + below, base, rest) == seq![base] + grown(below, base, rest),
{
    if rest.len() > 0 {
        let head = seq![base];
        let all = head + below;
        let longer = base.push(rest[0]);
        assert(longer.drop_last() =~= base);
        assert(base.is_prefix_of(base)) by {
            assert(base =~= base.subrange(0, base.len() as int));
        }
        lemma_last_with(below, base);
        lemma_last_with_is(below, base, below.len() - 1);
        assert forall|i: int| all.len() - 1 < i < all.len() implies !base.is_prefix_of(
            #[trigger] all[i],
        ) by {}
        assert(base.is_prefix_of(all[all.len() - 1])) by {
            if below.len() > 0 {
                assert(all[all.len() - 1] == below[below.len() - 1]);
            }
        }
        lemma_last_with_is(all, base, all.len() - 1);
        if below.contains(longer) {
            let j = choose|j: int| 0 <= j < below.len() && below[j] == longer;
            assert(all[j + 1] == longer);
        } else if all.contains(longer) {
            let j = choose|j: int| 0 <= j < all.len() && all[j] == longer;
            assert(j > 0);
            assert(below[j - 1] == longer);
        }
        let next = with_path(below, longer);
        assert(with_path(all, longer) =~= head + next);
        assert(next.contains(longer)) by {
            if below.contains(longer) {
            } else {
                assert(below.insert(below.len() as int, longer)[below.len() as int] == longer);
            }
        }
        assert forall|i: int| 0 <= i < head.len() implies !longer.is_prefix_of(#[trigger] head[i]) by {}
        let none = Seq::<Seq<T>>::empty();
        lemma_grown_inside(head, next, none, longer, rest.skip(1));
        assert(head + next + none =~= head + next);
        assert(head + grown(next, longer, rest.skip(1)) + none =~= head + grown(
            next,
            longer,
            rest.skip(1),
        ));
    }
}

} // verus!
