//! The children of a node of a prefix tree.
//!
//! A node keeps its children in a list, each with the token that leads to
//! it, in the order in which they were made. No two children of a node are
//! reached by the same token. The list is searched from its start: a node
//! of a tree of commands has few children, and the order of the list is the
//! order in which the tree lists its nodes.

use crate::trie::TrieKey;
use vstd::prelude::*;

verus! {

/// No two children are reached by the same token.
pub open spec fn distinct_tokens<K: View, T>(children: Seq<(K, T)>) -> bool {
    forall|i: int, j: int|
        0 <= i < j < children.len() ==> (#[trigger] children[i]).0@ != (#[trigger] children[j]).0@
}

/// The place among the children of the one reached by `token`, if any.
pub open spec fn child_place<K: View, T>(children: Seq<(K, T)>, token: K::V) -> Option<int> {
    if exists|i: int| 0 <= i < children.len() && (#[trigger] children[i]).0@ == token {
        Some(choose|i: int| 0 <= i < children.len() && (#[trigger] children[i]).0@ == token)
    } else {
        None
    }
}

/// Finds the child that `token` leads to.
pub fn find_child<K: TrieKey, T>(children: &Vec<(K, T)>, token: &K) -> (place: Option<usize>)
    requires
        distinct_tokens(children@),
    ensures
        match place {
            Some(i) => child_place(children@, token@) == Some(i as int) && i < children.len(),
            None => child_place(children@, token@) is None,
        },
{
    let mut i: usize = 0;
    while i < children.len()
        invariant
            i <= children.len(),
            distinct_tokens(children@),
            forall|j: int| 0 <= j < i ==> (#[trigger] children[j]).0@ != token@,
        decreases children.len() - i,
    {
        if children[i].0.same(token) {
            proof {
                lemma_child_found(children@, i as int);
            }
            return Some(i);
        }
        i += 1;
    }
    None
}

/// The child that a token leads to is the only one with that token.
pub proof fn lemma_child_found<K: View, T>(children: Seq<(K, T)>, i: int)
    requires
        distinct_tokens(children),
        0 <= i < children.len(),
    ensures
        child_place(children, children[i].0@) == Some(i),
{
    let token = children[i].0@;
    let chosen = child_place(children, token)->0;
    assert(children[chosen].0@ == token);
}

/// A token leads to the same child in two lists of children that agree on
/// every token but possibly one other.
pub proof fn lemma_same_children<K: View, T>(
    mine: Seq<(K, T)>,
    other: Seq<(K, T)>,
    token: K::V,
)
    requires
        distinct_tokens(mine),
        distinct_tokens(other),
        mine.len() <= other.len(),
        forall|i: int| 0 <= i < mine.len() ==> (#[trigger] mine[i]).0@ == other[i].0@,
        forall|i: int| 0 <= i < mine.len() && (#[trigger] mine[i]).0@ == token ==> mine[i] == other[i],
        forall|i: int| mine.len() <= i < other.len() ==> (#[trigger] other[i]).0@ != token,
    ensures
        child_place(mine, token) == child_place(other, token),
        child_place(mine, token) matches Some(i) ==> mine[i] == other[i],
{
    if child_place(mine, token) is Some {
        let i = child_place(mine, token)->0;
        assert(other[i].0@ == token);
        lemma_child_found(other, i);
    } else if child_place(other, token) is Some {
        let i = child_place(other, token)->0;
        assert(other[i].0@ == token);
        assert(i < mine.len());
        assert(mine[i].0@ == token);
    }
}

} // verus!
