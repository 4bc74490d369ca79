//! A command that is worth an alias, and how two such commands compare.

use crate::executions::Executions;
use crate::trie::tokens;
use std::cmp::Ordering;
use vstd::prelude::*;

verus! {

/// A command shorter than this many characters is short.
pub const BASELINE_LEN: usize = 10;

/// A command of fewer than this many arguments has few.
pub const BASELINE_ARGS: usize = 2;

/// A suggested command to alias.
#[derive(Debug, PartialEq, Eq)]
pub struct Suggestion {
    /// The command as one line, its arguments parted by single spaces.
    pub command: String,
    /// The number of characters of the command.
    pub length: usize,
    /// The arguments of the command.
    pub args: Vec<String>,
    /// The executions of the command.
    pub executions: Executions,
}

/// What a [`Suggestion`] stands for.
pub struct SuggestionView {
    pub command: Seq<char>,
    pub length: nat,
    pub args: Seq<Seq<char>>,
    pub executions: Executions,
}

impl View for Suggestion {
    type V = SuggestionView;

    open spec fn view(&self) -> SuggestionView {
        SuggestionView {
            command: self.command@,
            length: self.length as nat,
            args: tokens(self.args@),
            executions: self.executions,
        }
    }
}

/// The arguments written one after the other, with one space between
/// neighbours.
pub open spec fn joined(args: Seq<Seq<char>>) -> Seq<char>
    decreases args.len(),
{
    if args.len() == 0 {
        Seq::empty()
    } else if args.len() == 1 {
        args[0]
    } else {
        joined(args.drop_last()) + seq![' '] + args.last()
    }
}

/// The suggestion made of the command with these arguments and executions.
pub open spec fn suggested(args: Seq<Seq<char>>, executions: Executions) -> SuggestionView {
    SuggestionView { command: joined(args), length: joined(args).len(), args, executions }
}

/// The two counts differ by less than a fifth of their mean.
pub open spec fn similar(a: u32, b: u32) -> bool {
    10 * (if a >= b {
        a - b
    } else {
        b - a
    }) < a + b
}

/// Whether two counts differ by less than a fifth of their mean.
fn are_similar(a: u32, b: u32) -> (close: bool)
    ensures
        close == similar(a, b),
{
    let wide_a: u64 = a as u64;
    let wide_b: u64 = b as u64;
    let gap: u64 = if wide_a >= wide_b {
        wide_a - wide_b
    } else {
        wide_b - wide_a
    };
    10 * gap < wide_a + wide_b
}

/// A size as a number.
pub open spec fn size(n: usize) -> nat {
    n as nat
}

/// A count as a number.
pub open spec fn times(n: u32) -> nat {
    n as nat
}

/// How two numbers compare.
pub open spec fn by_size(a: nat, b: nat) -> Ordering {
    if a < b {
        Ordering::Less
    } else if a == b {
        Ordering::Equal
    } else {
        Ordering::Greater
    }
}

/// The first comparison that tells the two apart decides.
pub open spec fn in_turn(first: Ordering, second: Ordering, third: Ordering) -> Ordering {
    if first != Ordering::Equal {
        first
    } else if second != Ordering::Equal {
        second
    } else {
        third
    }
}

/// How suggestion `a` compares to suggestion `b`. Greater is better.
///
/// Where one of the two is short, the longer is better, then the one with
/// more arguments, then the one executed more often. Else, where one of the
/// two has few arguments or both were executed similarly often, the one with
/// more arguments is better, then the longer, then the one executed more
/// often. Else the one executed more often is better, then the one with more
/// arguments, then the longer.
pub open spec fn order(a: SuggestionView, b: SuggestionView) -> Ordering {
    let length = by_size(a.length, b.length);
    let argc = by_size(a.args.len(), b.args.len());
    let exec = by_size(times(a.executions.count), times(b.executions.count));
    if a.length < BASELINE_LEN || b.length < BASELINE_LEN {
        in_turn(length, argc, exec)
    } else if a.args.len() < BASELINE_ARGS || b.args.len() < BASELINE_ARGS {
        in_turn(argc, length, exec)
    } else if similar(a.executions.count, b.executions.count) {
        in_turn(argc, length, exec)
    } else {
        in_turn(exec, argc, length)
    }
}

/// How two sizes compare.
fn compare_sizes(a: usize, b: usize) -> (o: Ordering)
    ensures
        o == by_size(size(a), size(b)),
{
    if a < b {
        Ordering::Less
    } else if a == b {
        Ordering::Equal
    } else {
        Ordering::Greater
    }
}

/// How two counts compare.
fn compare_counts(a: u32, b: u32) -> (o: Ordering)
    ensures
        o == by_size(times(a), times(b)),
{
    if a < b {
        Ordering::Less
    } else if a == b {
        Ordering::Equal
    } else {
        Ordering::Greater
    }
}

/// The first comparison that tells the two apart.
fn decide(first: Ordering, second: Ordering, third: Ordering) -> (o: Ordering)
    ensures
        o == in_turn(first, second, third),
{
    match first {
        Ordering::Equal => match second {
            Ordering::Equal => third,
            _ => second,
        },
        _ => first,
    }
}

impl Suggestion {
    /// The suggestion to alias the command with these arguments.
    pub fn new(args: Vec<String>, executions: Executions) -> (suggestion: Self)
        ensures
            suggestion@ == suggested(tokens(args@), executions),
    {
        let mut command = String::new();
        let mut i: usize = 0;
        while i < args.len()
            invariant
                i <= args.len(),
                command@ == joined(tokens(args@).take(i as int)),
            decreases args.len() - i,
        {
            let ghost before = tokens(args@).take(i as int);
            let ghost after = tokens(args@).take(i + 1);
            assert(after.drop_last() =~= before);
            assert(after.last() == args[i as int]@);
            if i > 0 {
                proof {
                    reveal_strlit(" ");
                    assert(" "@ =~= seq![' ']);
                }
                command.append(" ");
            } else {
                assert(joined(after) =~= args[0]@);
            }
            command.append(args[i].as_str());
            i += 1;
        }
        assert(tokens(args@).take(args.len() as int) =~= tokens(args@));
        let length = command.as_str().unicode_len();
        Suggestion { command, length, args, executions }
    }

    /// How this suggestion compares to the other. Greater is better.
    pub fn compare(&self, other: &Self) -> (o: Ordering)
        ensures
            o == order(self@, other@),
    {
        let length = compare_sizes(self.length, other.length);
        let argc = compare_sizes(self.args.len(), other.args.len());
        let exec = compare_counts(self.executions.count, other.executions.count);
        if self.length < BASELINE_LEN || other.length < BASELINE_LEN {
            decide(length, argc, exec)
        } else if self.args.len() < BASELINE_ARGS || other.args.len() < BASELINE_ARGS {
            decide(argc, length, exec)
        } else if are_similar(self.executions.count, other.executions.count) {
            decide(argc, length, exec)
        } else {
            decide(exec, argc, length)
        }
    }
}

impl PartialOrd for Suggestion {
    fn partial_cmp(&self, other: &Self) -> (o: Option<Ordering>) {
        Some(self.compare(other))
    }
}

impl vstd::std_specs::cmp::PartialOrdSpecImpl for Suggestion {
    open spec fn obeys_partial_cmp_spec() -> bool {
        true
    }

    open spec fn partial_cmp_spec(&self, other: &Self) -> Option<Ordering> {
        Some(order(self@, other@))
    }
}

/// Swapping the two suggestions turns the comparison round.
pub proof fn lemma_order_turns(a: SuggestionView, b: SuggestionView)
    ensures
        order(a, b) == Ordering::Greater <==> order(b, a) == Ordering::Less,
        order(a, b) == Ordering::Equal <==> order(b, a) == Ordering::Equal,
{
}

} // verus!
