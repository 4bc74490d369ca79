//! From a history to the commands that are worth an alias.
//!
//! The commands of a history are tallied in a prefix tree: one node for
//! every command and for every way a command starts, holding how often it
//! was executed and when last. The nodes are then turned into suggestions,
//! of which a [`Shortlist`] keeps the best.

use crate::executions::{latest, Executions};
use crate::history::{History, Record};
use crate::key_value::{best, ranks_descend, KeyValue, Ranked};
use crate::paths::{grown, paths_of};
use crate::suggestion::{order, suggested, Suggestion, SuggestionView};
use crate::trie::{copy_key, tokens, Collector, Trie};
use std::cmp::Ordering;
use vstd::prelude::*;

verus! {

/// The records whose command starts with `path`.
pub open spec fn starts_with(path: Seq<Seq<char>>) -> spec_fn(Record) -> bool {
    |record: Record| path.is_prefix_of(record.0)
}

/// The latest time that the records give, if any gives one.
pub open spec fn latest_of(records: Seq<Record>) -> Option<u32>
    decreases records.len(),
{
    if records.len() == 0 {
        None
    } else {
        latest(latest_of(records.drop_last()), records.last().1)
    }
}

/// What the records say of the commands that start with `path`: how many
/// there are and when the last was executed. Nothing where `path` is not
/// empty and no command starts with it.
pub open spec fn tally(records: Seq<Record>, path: Seq<Seq<char>>) -> Option<Executions> {
    let hits = records.filter(starts_with(path));
    if path.len() > 0 && hits.len() == 0 {
        None
    } else {
        Some(Executions { count: hits.len() as u32, last_executed: latest_of(hits) })
    }
}

/// The ways in which the commands of the records start, in the order in
/// which a tree comes to list them when the commands are folded into it one
/// after the other.
pub open spec fn tallied_paths(records: Seq<Record>) -> Seq<Seq<Seq<char>>>
    decreases records.len(),
{
    if records.len() == 0 {
        Seq::empty()
    } else {
        grown(tallied_paths(records.drop_last()), Seq::empty(), records.last().0)
    }
}

/// The ways in which the commands of the records start, each with its
/// tally.
pub open spec fn tallied(records: Seq<Record>) -> Seq<(Seq<Seq<char>>, Executions)> {
    tallied_paths(records).map_values(|path: Seq<Seq<char>>| (path, tally(records, path)->0))
}

/// The tree has a node for every way a command of the records starts, the
/// node holds the tally of the commands that start so, and the tree lists
/// its nodes in the order in which the records brought them.
pub open spec fn holds_tally(trie: Trie<String, Executions>, records: Seq<Record>) -> bool {
    &&& trie.wf()
    &&& forall|path: Seq<Seq<char>>| #[trigger] trie.value_at(path) == tally(records, path)
    &&& paths_of(trie.entries()) == tallied_paths(records)
}

/// A tree that holds the tally of the records lists the ways in which
/// their commands start, each with its tally.
pub proof fn lemma_tally_entries(trie: Trie<String, Executions>, records: Seq<Record>)
    requires
        holds_tally(trie, records),
    ensures
        trie.entries() == tallied(records),
{
    let entries = trie.entries();
    trie.lemma_entries_list_nodes();
    assert(entries.len() == tallied(records).len()) by {
        assert(paths_of(entries).len() == entries.len());
    }
    assert forall|i: int| 0 <= i < entries.len() implies entries[i] == tallied(records)[i] by {
        assert(paths_of(entries)[i] == entries[i].0);
        assert(trie.value_at(entries[i].0) == tally(records, entries[i].0));
    }
    assert(entries =~= tallied(records));
}

/// One more record adds one execution to the tally of every path that its
/// command starts with, and leaves the other tallies as they are.
proof fn lemma_tally_push(records: Seq<Record>, record: Record, path: Seq<Seq<char>>)
    requires
        records.len() < u32::MAX,
    ensures
        tally(records, path) matches Some(before) ==> before.count <= records.len(),
        path.is_prefix_of(record.0) ==> tally(records.push(record), path) == Some(
            (match tally(records, path) {
                Some(before) => before,
                None => Executions { count: 0, last_executed: None },
            }).updated(record.1),
        ),
        !path.is_prefix_of(record.0) ==> tally(records.push(record), path) == tally(records, path),
{
    broadcast use Seq::lemma_filter_push;

    let hits = records.filter(starts_with(path));
    records.lemma_filter_len(starts_with(path));
    if path.is_prefix_of(record.0) {
        assert(hits.push(record).drop_last() =~= hits);
    }
}

/// Tallies the commands of a history.
pub fn build(history: History) -> (trie: Trie<String, Executions>)
    requires
        history.commands.len() <= u32::MAX,
    ensures
        holds_tally(trie, history@),
        trie.entries() == tallied(history@),
{
    let ghost records = history@;
    let mut trie: Trie<String, Executions> = Trie::new();
    assert(records.take(0) =~= Seq::<Record>::empty());
    assert(paths_of(trie.entries()) =~= tallied_paths(Seq::<Record>::empty()));
    assert forall|path: Seq<Seq<char>>| #[trigger]
        trie.value_at(path) == tally(Seq::<Record>::empty(), path) by {
        assert(Seq::<Record>::empty().filter(starts_with(path)).len() == 0) by {
            Seq::<Record>::empty().lemma_filter_len(starts_with(path));
        }
    }
    let History { commands } = history;
    let ghost total = commands.len();
    for command in it: commands
        invariant
            total == it.seq().len(),
            total <= u32::MAX,
            records == it.seq().map_values(|command: crate::history::ExecutedCommand| command@),
            holds_tally(trie, records.take(it.index() as int)),
    {
        let ghost done = records.take(it.index() as int);
        let ghost before = trie;
        let ghost record = command@;
        assert(records.take(it.index() + 1) =~= done.push(record));
        assert(done.push(record).drop_last() =~= done);
        let crate::history::ExecutedCommand { args, time } = command;
        assert(tokens(args@) =~= record.0);
        let fold = |known: &Executions| -> (next: Executions)
            requires
                known.count < u32::MAX,
            ensures
                next == known.updated(time),
            { known.update(time) };
        assert forall|path: Seq<Seq<char>>| #[trigger]
            path.is_prefix_of(tokens(args@)) implies call_requires(
            fold,
            (&before.value_or_initial(path),),
        ) by {
            lemma_tally_push(done, record, path);
        }
        trie.update_path(args, fold);
        assert forall|path: Seq<Seq<char>>| #[trigger]
            trie.value_at(path) == tally(done.push(record), path) by {
            lemma_tally_push(done, record, path);
        }
    }
    assert(records.take(total as int) =~= records);
    proof {
        lemma_tally_entries(trie, records);
    }
    trie
}

/// No more records start with a path than start with a start of the path.
proof fn lemma_fewer_hits(records: Seq<Record>, shorter: Seq<Seq<char>>, longer: Seq<Seq<char>>)
    requires
        shorter.is_prefix_of(longer),
    ensures
        records.filter(starts_with(longer)).len() <= records.filter(starts_with(shorter)).len(),
    decreases records.len(),
{
    broadcast use Seq::lemma_filter_push;

    if records.len() > 0 {
        let before = records.drop_last();
        let record = records.last();
        lemma_fewer_hits(before, shorter, longer);
        assert(before.push(record) =~= records);
        if longer.is_prefix_of(record.0) {
            assert(shorter =~= record.0.subrange(0, shorter.len() as int)) by {
                assert forall|i: int| 0 <= i < shorter.len() implies shorter[i] == record.0[i] by {
                    assert(shorter[i] == longer.subrange(0, shorter.len() as int)[i]);
                    assert(longer[i] == record.0.subrange(0, longer.len() as int)[i]);
                }
            }
        }
    } else {
        records.lemma_filter_len(starts_with(longer));
    }
}

/// In a tree that holds a tally, no node counts more than a node above it.
pub proof fn lemma_tally_descends(trie: Trie<String, Executions>, records: Seq<Record>)
    requires
        holds_tally(trie, records),
        records.len() <= u32::MAX,
    ensures
        ranks_descend(trie.entries()),
{
    let entries = trie.entries();
    trie.lemma_entries_list_nodes();
    assert forall|i: int, j: int|
        0 <= i < entries.len() && 0 <= j < entries.len() && (#[trigger] entries[i]).0.is_prefix_of(
            (#[trigger] entries[j]).0,
        ) implies entries[j].1.rank() <= entries[i].1.rank() by {
        let shorter = entries[i].0;
        let longer = entries[j].0;
        assert(trie.value_at(shorter) == tally(records, shorter));
        assert(trie.value_at(longer) == tally(records, longer));
        lemma_fewer_hits(records, shorter, longer);
        records.lemma_filter_len(starts_with(shorter));
        records.lemma_filter_len(starts_with(longer));
    }
}

/// The `n` most executed commands and starts of commands of the history,
/// the most executed first, each with its tally. Among those executed
/// equally often, the one that the tally lists first comes first.
pub fn most_used(history: History, n: usize) -> (top: Vec<KeyValue<String, Executions>>)
    requires
        history.commands.len() <= u32::MAX,
    ensures
        crate::key_value::views(top@) == best(tallied(history@), n as nat),
{
    let trie = build(history);
    proof {
        lemma_tally_descends(trie, history@);
    }
    trie.drain_top_items_pruned(n)
}

/// Suggestion `a` is strictly better than suggestion `b`.
pub open spec fn beats(a: SuggestionView, b: SuggestionView) -> bool {
    order(a, b) == Ordering::Greater
}

/// The place of a new suggestion in a list kept best first: behind the
/// last suggestion that it does not beat.
pub open spec fn slot(list: Seq<SuggestionView>, item: SuggestionView) -> int
    decreases list.len(),
{
    if list.len() > 0 && beats(item, list.last()) {
        slot(list.drop_last(), item)
    } else {
        list.len() as int
    }
}

/// The list after `item` was put in its place and what then exceeds `cap`
/// suggestions was cut off at the end.
pub open spec fn placed(list: Seq<SuggestionView>, cap: nat, item: SuggestionView) -> Seq<
    SuggestionView,
> {
    let longer = list.insert(slot(list, item), item);
    if longer.len() <= cap {
        longer
    } else {
        longer.take(cap as int)
    }
}

/// What a shortlist of `cap` places holds after it was shown `items`, first
/// to last.
pub open spec fn shortlist(items: Seq<SuggestionView>, cap: nat) -> Seq<SuggestionView>
    decreases items.len(),
{
    if items.len() == 0 {
        Seq::empty()
    } else {
        placed(shortlist(items.drop_last(), cap), cap, items.last())
    }
}

/// The suggestions that nodes of a tree give.
pub open spec fn as_suggestions(nodes: Seq<(Seq<Seq<char>>, Executions)>) -> Seq<SuggestionView> {
    nodes.map_values(|node: (Seq<Seq<char>>, Executions)| suggested(node.0, node.1))
}

/// What a list of suggestions stands for.
pub open spec fn views(list: Seq<Suggestion>) -> Seq<SuggestionView> {
    list.map_values(|suggestion: Suggestion| suggestion@)
}

/// After a suggestion was put in its place, the list holds it at that
/// place unless that is behind the last place, the suggestions before it
/// where they were and those behind it one place further on, as far as the
/// places go.
proof fn lemma_placed(list: Seq<SuggestionView>, cap: nat, item: SuggestionView)
    requires
        list.len() <= cap,
    ensures
        placed(list, cap, item).len() == if list.len() < cap {
            list.len() + 1
        } else {
            cap
        },
        forall|k: int|
            0 <= k < placed(list, cap, item).len() ==> #[trigger] placed(list, cap, item)[k] == if k
                < slot(list, item) {
                list[k]
            } else if k == slot(list, item) {
                item
            } else {
                list[k - 1]
            },
{
    lemma_slot(list, item);
}

/// A shortlist holds as many suggestions as it was shown, up to its number
/// of places, and each of them is one it was shown.
pub proof fn lemma_shortlist_holds_shown(items: Seq<SuggestionView>, cap: nat)
    ensures
        shortlist(items, cap).len() == if items.len() < cap {
            items.len()
        } else {
            cap
        },
        forall|k: int|
            0 <= k < shortlist(items, cap).len() ==> items.contains(
                #[trigger] shortlist(items, cap)[k],
            ),
    decreases items.len(),
{
    if items.len() > 0 {
        let shown = items.drop_last();
        let item = items.last();
        let list = shortlist(shown, cap);
        let at = slot(list, item);
        let next = shortlist(items, cap);
        lemma_shortlist_holds_shown(shown, cap);
        lemma_placed(list, cap, item);
        lemma_slot(list, item);
        assert forall|k: int| 0 <= k < next.len() implies items.contains(#[trigger] next[k]) by {
            if k == at {
                assert(items[items.len() - 1] == item);
            } else {
                let from = if k < at {
                    k
                } else {
                    k - 1
                };
                assert(next[k] == list[from]);
                assert(shown.contains(list[from]));
                let i = choose|i: int| 0 <= i < shown.len() && shown[i] == list[from];
                assert(items[i] == list[from]);
            }
        }
    }
}

/// In a shortlist no suggestion is strictly better than the one before it.
pub proof fn lemma_shortlist_is_ordered(items: Seq<SuggestionView>, cap: nat)
    ensures
        forall|k: int|
            0 < k < shortlist(items, cap).len() ==> !beats(
                #[trigger] shortlist(items, cap)[k],
                shortlist(items, cap)[k - 1],
            ),
    decreases items.len(),
{
    if items.len() > 0 {
        let shown = items.drop_last();
        let item = items.last();
        let list = shortlist(shown, cap);
        let at = slot(list, item);
        let next = shortlist(items, cap);
        lemma_shortlist_is_ordered(shown, cap);
        lemma_shortlist_holds_shown(shown, cap);
        lemma_placed(list, cap, item);
        lemma_slot(list, item);
        assert forall|k: int| 0 < k < next.len() implies !beats(#[trigger] next[k], next[k - 1]) by {
            if k < at {
                assert(next[k] == list[k] && next[k - 1] == list[k - 1]);
            } else if k == at {
                assert(next[k] == item && next[k - 1] == list[at - 1]);
            } else if k == at + 1 {
                assert(next[k] == list[at] && next[k - 1] == item);
                assert(beats(item, list[at]));
                lemma_beats_one_way(item, list[at]);
            } else {
                assert(next[k] == list[k - 1] && next[k - 1] == list[k - 2]);
            }
        }
    }
}

/// The suggestions are compared as a ranking would compare them: where a
/// third beats a first, it beats a second, or the second beats the first,
/// whichever second is taken.
pub open spec fn consistent(items: Seq<SuggestionView>) -> bool {
    forall|a: SuggestionView, b: SuggestionView, c: SuggestionView|
        #![trigger beats(b, a), beats(c, b)]
        items.contains(a) && items.contains(b) && items.contains(c) && !beats(b, a) && !beats(c, b)
            ==> !beats(c, a)
}

/// Short commands are compared consistently.
pub proof fn lemma_short_commands_are_consistent(items: Seq<SuggestionView>)
    requires
        forall|i: int|
            0 <= i < items.len() ==> (#[trigger] items[i]).length < crate::suggestion::BASELINE_LEN,
    ensures
        consistent(items),
{
    assert forall|a: SuggestionView, b: SuggestionView, c: SuggestionView|
        #![trigger beats(b, a), beats(c, b)]
        items.contains(a) && items.contains(b) && items.contains(c) && !beats(b, a) && !beats(
            c,
            b,
        ) implies !beats(c, a) by {
        let i = choose|i: int| 0 <= i < items.len() && items[i] == a;
        let j = choose|j: int| 0 <= j < items.len() && items[j] == b;
        let k = choose|k: int| 0 <= k < items.len() && items[k] == c;
        assert(items[i].length < crate::suggestion::BASELINE_LEN);
        assert(items[j].length < crate::suggestion::BASELINE_LEN);
        assert(items[k].length < crate::suggestion::BASELINE_LEN);
    }
}

/// `list` holds the best of `items`, best first: each of its suggestions is
/// one of `items`, none is strictly better than one before it, and none is
/// beaten by a suggestion that `items` holds more often than `list` does.
pub open spec fn holds_best(list: Seq<SuggestionView>, items: Seq<SuggestionView>) -> bool {
    &&& list.to_multiset().subset_of(items.to_multiset())
    &&& forall|k: int, l: int|
        0 <= k < l < list.len() ==> !beats(#[trigger] list[l], #[trigger] list[k])
    &&& forall|k: int, v: SuggestionView|
        #![trigger beats(v, list[k])]
        0 <= k < list.len() && items.to_multiset().count(v) > list.to_multiset().count(v) ==> !beats(
            v,
            list[k],
        )
}

/// Where the suggestions shown are compared consistently, a shortlist
/// holds the best of them.
pub proof fn lemma_shortlist_holds_best(items: Seq<SuggestionView>, cap: nat)
    requires
        consistent(items),
    ensures
        holds_best(shortlist(items, cap), items),
    decreases items.len(),
{
    broadcast use vstd::multiset::group_multiset_axioms;

    if items.len() == 0 {
        assert(shortlist(items, cap) =~= items);
    } else {
        let shown = items.drop_last();
        let item = items.last();
        assert(shown.push(item) =~= items);
        assert(consistent(shown)) by {
            assert forall|a: SuggestionView| shown.contains(a) implies items.contains(a) by {
                let i = choose|i: int| 0 <= i < shown.len() && shown[i] == a;
                assert(items[i] == a);
            }
        }
        lemma_shortlist_holds_best(shown, cap);
        lemma_shortlist_holds_shown(shown, cap);
        lemma_placed_holds_best(shortlist(shown, cap), shown, cap, item);
    }
}

/// Putting one more suggestion in its place leaves a list that holds the
/// best holding the best.
proof fn lemma_placed_holds_best(
    list: Seq<SuggestionView>,
    shown: Seq<SuggestionView>,
    cap: nat,
    item: SuggestionView,
)
    requires
        holds_best(list, shown),
        consistent(shown.push(item)),
        list.len() == if shown.len() < cap {
            shown.len()
        } else {
            cap
        },
    ensures
        holds_best(placed(list, cap, item), shown.push(item)),
{
    broadcast use vstd::multiset::group_multiset_axioms;
    broadcast use vstd::seq_lib::group_to_multiset_ensures;

    let items = shown.push(item);
    let next = placed(list, cap, item);
    let at = slot(list, item);
    let held = list.to_multiset();
    let all = shown.to_multiset();
    lemma_slot(list, item);
    lemma_placed(list, cap, item);
    assert(items.contains(item)) by {
        assert(items[shown.len() as int] == item);
    }
    assert forall|k: int| 0 <= k < list.len() implies items.contains(#[trigger] list[k]) by {
        assert(list.contains(list[k]));
        assert(held.count(list[k]) > 0);
        assert(all.count(list[k]) > 0);
        assert(shown.contains(list[k]));
        let i = choose|i: int| 0 <= i < shown.len() && shown[i] == list[k];
        assert(items[i] == list[k]);
    }
    // every suggestion before the place is no worse than the new one
    assert forall|k: int| 0 <= k < at implies !beats(item, #[trigger] list[k]) by {
        if k < at - 1 {
            assert(!beats(list[at - 1], list[k]));
            assert(!beats(item, list[at - 1]));
        }
    }
    assert forall|k: int| at <= k < list.len() implies !beats(#[trigger] list[k], item) by {
        lemma_beats_one_way(item, list[k]);
    }
    assert forall|k: int, l: int| 0 <= k < l < next.len() implies !beats(
        #[trigger] next[l],
        #[trigger] next[k],
    ) by {
        let from_k = if k < at {
            k
        } else {
            k - 1
        };
        let from_l = if l < at {
            l
        } else {
            l - 1
        };
        if k == at {
            assert(next[l] == list[from_l]);
        } else if l == at {
            assert(next[k] == list[from_k]);
        } else {
            assert(next[k] == list[from_k] && next[l] == list[from_l]);
        }
    }
    if list.len() < cap {
        assert(next =~= list.insert(at, item));
        vstd::seq_lib::to_multiset_len(list);
        vstd::seq_lib::to_multiset_len(shown);
        crate::capped_heap::lemma_subset_of_same_size(held, all);
        assert(next.to_multiset() =~= items.to_multiset());
    } else if at < list.len() {
        let worst = list.last();
        let rest = list.drop_last();
        assert(rest =~= list.remove(list.len() - 1));
        assert(next =~= rest.insert(at, item));
        assert(next.to_multiset() =~= held.remove(worst).insert(item));
        assert(held.count(worst) > 0) by {
            assert(list.contains(worst));
        }
        assert(beats(item, worst));
        assert forall|k: int, v: SuggestionView|
            #![trigger beats(v, next[k])]
            0 <= k < next.len() && items.to_multiset().count(v) > next.to_multiset().count(
                v,
            ) implies !beats(v, next[k]) by {
            assert(items.to_multiset().count(v) > 0);
            assert(items.contains(v));
            if v == worst && all.count(v) <= held.count(v) {
                if k == at {
                    lemma_beats_one_way(item, worst);
                } else {
                    let from = if k < at {
                        k
                    } else {
                        k - 1
                    };
                    assert(next[k] == list[from]);
                    assert(!beats(list[list.len() - 1], list[from]));
                }
            } else {
                assert(all.count(v) > held.count(v));
                if k == at {
                    assert(!beats(v, list[list.len() - 1]));
                    lemma_beats_one_way(item, worst);
                    assert(!beats(worst, item));
                } else {
                    let from = if k < at {
                        k
                    } else {
                        k - 1
                    };
                    assert(next[k] == list[from]);
                    assert(!beats(v, list[from]));
                }
            }
        }
    } else {
        assert(next =~= list);
        assert forall|k: int, v: SuggestionView|
            #![trigger beats(v, next[k])]
            0 <= k < next.len() && items.to_multiset().count(v) > next.to_multiset().count(
                v,
            ) implies !beats(v, next[k]) by {
            if all.count(v) > held.count(v) {
                assert(!beats(v, list[k]));
            } else {
                assert(v == item);
                assert(!beats(item, list[at - 1]));
                if k < at - 1 {
                    assert(!beats(list[at - 1], list[k]));
                }
            }
        }
    }
}

/// Of two suggestions at most one beats the other.
proof fn lemma_beats_one_way(a: SuggestionView, b: SuggestionView)
    requires
        beats(a, b),
    ensures
        !beats(b, a),
{
    crate::suggestion::lemma_order_turns(a, b);
}

/// A new suggestion goes behind one that it does not beat and before those
/// that it beats.
proof fn lemma_slot(list: Seq<SuggestionView>, item: SuggestionView)
    ensures
        0 <= slot(list, item) <= list.len(),
        slot(list, item) > 0 ==> !beats(item, list[slot(list, item) - 1]),
        forall|k: int| slot(list, item) <= k < list.len() ==> beats(item, #[trigger] list[k]),
    decreases list.len(),
{
    if list.len() > 0 && beats(item, list.last()) {
        let shorter = list.drop_last();
        lemma_slot(shorter, item);
        assert forall|k: int| slot(list, item) <= k < list.len() implies beats(
            item,
            #[trigger] list[k],
        ) by {
            if k < shorter.len() {
                assert(list[k] == shorter[k]);
            }
        }
        if slot(list, item) > 0 {
            assert(list[slot(list, item) - 1] == shorter[slot(shorter, item) - 1]);
        }
    }
}

/// Keeps the best of the suggestions that the nodes it is shown give, best
/// first, up to a fixed number of them.
pub struct Shortlist {
    cap: usize,
    list: Vec<Suggestion>,
    seen: Ghost<Seq<(Seq<Seq<char>>, Executions)>>,
}

/// Whether the first suggestion is strictly better than the second.
fn is_better(a: &Suggestion, b: &Suggestion) -> (better: bool)
    ensures
        better == beats(a@, b@),
{
    match a.compare(b) {
        Ordering::Greater => true,
        _ => false,
    }
}

impl Shortlist {
    /// A shortlist of `cap` places that has been shown nothing.
    pub fn new(cap: usize) -> (list: Self)
        ensures
            list.inv(),
            list.limit() == cap,
            list.seen() == Seq::<(Seq<Seq<char>>, Executions)>::empty(),
    {
        let list = Shortlist { cap, list: Vec::new(), seen: Ghost(Seq::empty()) };
        assert(views(list.list@) =~= Seq::<SuggestionView>::empty());
        list
    }

    /// The suggestions kept, best first.
    pub fn into_vec(self) -> (list: Vec<Suggestion>)
        requires
            self.inv(),
        ensures
            views(list@) == shortlist(as_suggestions(self.seen()), self.limit()),
    {
        self.list
    }
}

impl Collector<String, Executions> for Shortlist {
    closed spec fn inv(&self) -> bool {
        &&& self.list.len() <= self.cap
        &&& views(self.list@) == shortlist(as_suggestions(self.seen@), self.cap as nat)
    }

    closed spec fn limit(&self) -> nat {
        self.cap as nat
    }

    closed spec fn seen(&self) -> Seq<(Seq<Seq<char>>, Executions)> {
        self.seen@
    }

    closed spec fn keeps(
        seen: Seq<(Seq<Seq<char>>, Executions)>,
        limit: nat,
        entry: (Seq<Seq<char>>, Executions),
    ) -> bool {
        slot(shortlist(as_suggestions(seen), limit), suggested(entry.0, entry.1)) < limit
    }

    /// Puts the suggestion that the node gives in its place, if it has one.
    fn offer(&mut self, key: &Vec<String>, value: Executions) -> (kept: bool) {
        let ghost seen = self.seen@;
        let ghost node = (tokens(key@), value);
        let ghost before = views(self.list@);
        let ghost item = suggested(node.0, node.1);
        proof {
            assert(as_suggestions(seen.push(node)).drop_last() =~= as_suggestions(seen));
            assert(as_suggestions(seen.push(node)).last() == item);
        }
        self.seen = Ghost(seen.push(node));
        if self.cap == 0 {
            assert(placed(before, 0, item) =~= before);
            proof {
                lemma_slot(before, item);
            }
            return false;
        }
        let suggestion = Suggestion::new(copy_key(key), value);
        let mut at: usize = self.list.len();
        assert(before.take(self.list.len() as int) =~= before);
        while at > 0 && is_better(&suggestion, &self.list[at - 1])
            invariant
                at <= self.list.len(),
                before == views(self.list@),
                suggestion@ == item,
                slot(before, item) == slot(before.take(at as int), item),
            decreases at,
        {
            assert(before.take(at as int).drop_last() =~= before.take(at - 1));
            at -= 1;
        }
        assert(slot(before, item) == at);
        if at == self.list.len() && self.list.len() == self.cap {
            assert(placed(before, self.cap as nat, item) =~= before);
            return false;
        }
        self.list.insert(at, suggestion);
        assert(views(self.list@) =~= before.insert(at as int, item));
        if self.list.len() > self.cap {
            let ghost longer = views(self.list@);
            self.list.pop();
            assert(views(self.list@) =~= longer.take(self.cap as int));
        }
        true
    }
}

/// A line of the table of suggestions.
#[derive(Debug, PartialEq, Eq)]
pub struct Row {
    /// How many times the command has been executed.
    pub uses: u32,
    /// When the command was last executed, or `Unknown`.
    pub last_used: String,
    /// The command.
    pub command: String,
}

/// Whether the row shows the suggestion.
pub open spec fn shows(row: Row, suggestion: Suggestion) -> bool {
    &&& row.uses == suggestion.executions.count
    &&& row.command@ == suggestion.command@
    &&& suggestion.executions.last_executed is None ==> row.last_used@ == "Unknown"@
    &&& suggestion.executions.last_executed is Some ==> row.last_used@.len() == 18
}

/// The lines of the table of suggestions, one for each suggestion, in
/// their order. Where the time of the last execution is known, the line
/// gives it in the time zone of the machine.
pub fn table_rows(suggestions: Vec<Suggestion>) -> (rows: Vec<Row>)
    ensures
        rows.len() == suggestions.len(),
        forall|i: int| 0 <= i < rows.len() ==> shows(#[trigger] rows[i], suggestions[i]),
{
    let mut rows: Vec<Row> = Vec::new();
    for suggestion in it: suggestions
        invariant
            it.seq() == suggestions@,
            rows.len() == it.index(),
            forall|i: int| 0 <= i < rows.len() ==> shows(#[trigger] rows[i], suggestions[i]),
    {
        let last_used = match suggestion.executions.last_executed_str() {
            Some(text) => text,
            None => "Unknown".to_owned(),
        };
        let ghost shown = suggestion;
        let Suggestion { command, length: _, args: _, executions } = suggestion;
        let row = Row { uses: executions.count, last_used, command };
        assert(shows(row, shown));
        rows.push(row);
    }
    rows
}

/// Takes the tree apart and returns the `n` best suggestions that its nodes
/// give, best first: what a shortlist of `n` places holds after it was shown
/// every node but the root.
pub fn drain_top_suggestions(trie: Trie<String, Executions>, n: usize) -> (best: Vec<Suggestion>)
    ensures
        views(best@) == shortlist(as_suggestions(trie.entries()), n as nat),
{
    let mut list = Shortlist::new(n);
    trie.drain_into(&mut list);
    assert(list.seen() =~= trie.entries());
    list.into_vec()
}

/// The `n` commands of the history that are most worth an alias, best
/// first.
///
/// The commands are tallied, and the suggestions are those that a
/// shortlist of `n` places keeps of the tally.
pub fn suggest(history: History, n: usize) -> (best: Vec<Suggestion>)
    requires
        history.commands.len() <= u32::MAX,
    ensures
        views(best@) == shortlist(as_suggestions(tallied(history@)), n as nat),
{
    let trie = build(history);
    drain_top_suggestions(trie, n)
}

} // verus!
