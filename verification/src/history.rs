//! Reading the lines of a history file.
//!
//! A line holds one executed command. It may start with a stamp, which is a
//! colon, a space, the time of execution as ten digits, a colon, one digit
//! or more and a semicolon; the command follows. A command is cut into its
//! arguments at white space.

use vstd::prelude::*;

verus! {

/// A command that was executed, as one line of a history file records it.
#[derive(Debug, PartialEq, Eq)]
pub struct ExecutedCommand {
    /// The arguments of the command, its name first.
    pub args: Vec<String>,
    /// The time of execution in seconds since the epoch, where the line
    /// gives it.
    pub time: Option<u32>,
}

/// The commands of a history file, in the order of its lines.
#[derive(Debug, PartialEq, Eq)]
pub struct History {
    pub commands: Vec<ExecutedCommand>,
}

/// What an executed command stands for: its arguments and its time.
pub type Record = (Seq<Seq<char>>, Option<u32>);

impl View for ExecutedCommand {
    type V = Record;

    open spec fn view(&self) -> Record {
        (self.args@.map_values(|arg: String| arg@), self.time)
    }
}

impl View for History {
    type V = Seq<Record>;

    open spec fn view(&self) -> Seq<Record> {
        self.commands@.map_values(|command: ExecutedCommand| command@)
    }
}

/// One of the ten digits `0` to `9`.
pub open spec fn is_digit(c: char) -> bool {
    '0' <= c <= '9'
}

/// A decimal digit of any script: a character of the general category
/// `Decimal_Number` of Unicode 16.
pub open spec fn is_script_digit(c: char) -> bool {
    let n = c as u32;
    ||| 0x0030 <= n <= 0x0039
    ||| 0x0660 <= n <= 0x0669
    ||| 0x06f0 <= n <= 0x06f9
    ||| 0x07c0 <= n <= 0x07c9
    ||| 0x0966 <= n <= 0x096f
    ||| 0x09e6 <= n <= 0x09ef
    ||| 0x0a66 <= n <= 0x0a6f
    ||| 0x0ae6 <= n <= 0x0aef
    ||| 0x0b66 <= n <= 0x0b6f
    ||| 0x0be6 <= n <= 0x0bef
    ||| 0x0c66 <= n <= 0x0c6f
    ||| 0x0ce6 <= n <= 0x0cef
    ||| 0x0d66 <= n <= 0x0d6f
    ||| 0x0de6 <= n <= 0x0def
    ||| 0x0e50 <= n <= 0x0e59
    ||| 0x0ed0 <= n <= 0x0ed9
    ||| 0x0f20 <= n <= 0x0f29
    ||| 0x1040 <= n <= 0x1049
    ||| 0x1090 <= n <= 0x1099
    ||| 0x17e0 <= n <= 0x17e9
    ||| 0x1810 <= n <= 0x1819
    ||| 0x1946 <= n <= 0x194f
    ||| 0x19d0 <= n <= 0x19d9
    ||| 0x1a80 <= n <= 0x1a89
    ||| 0x1a90 <= n <= 0x1a99
    ||| 0x1b50 <= n <= 0x1b59
    ||| 0x1bb0 <= n <= 0x1bb9
    ||| 0x1c40 <= n <= 0x1c49
    ||| 0x1c50 <= n <= 0x1c59
    ||| 0xa620 <= n <= 0xa629
    ||| 0xa8d0 <= n <= 0xa8d9
    ||| 0xa900 <= n <= 0xa909
    ||| 0xa9d0 <= n <= 0xa9d9
    ||| 0xa9f0 <= n <= 0xa9f9
    ||| 0xaa50 <= n <= 0xaa59
    ||| 0xabf0 <= n <= 0xabf9
    ||| 0xff10 <= n <= 0xff19
    ||| 0x104a0 <= n <= 0x104a9
    ||| 0x10d30 <= n <= 0x10d39
    ||| 0x10d40 <= n <= 0x10d49
    ||| 0x11066 <= n <= 0x1106f
    ||| 0x110f0 <= n <= 0x110f9
    ||| 0x11136 <= n <= 0x1113f
    ||| 0x111d0 <= n <= 0x111d9
    ||| 0x112f0 <= n <= 0x112f9
    ||| 0x11450 <= n <= 0x11459
    ||| 0x114d0 <= n <= 0x114d9
    ||| 0x11650 <= n <= 0x11659
    ||| 0x116c0 <= n <= 0x116c9
    ||| 0x116d0 <= n <= 0x116e3
    ||| 0x11730 <= n <= 0x11739
    ||| 0x118e0 <= n <= 0x118e9
    ||| 0x11950 <= n <= 0x11959
    ||| 0x11bf0 <= n <= 0x11bf9
    ||| 0x11c50 <= n <= 0x11c59
    ||| 0x11d50 <= n <= 0x11d59
    ||| 0x11da0 <= n <= 0x11da9
    ||| 0x11f50 <= n <= 0x11f59
    ||| 0x16130 <= n <= 0x16139
    ||| 0x16a60 <= n <= 0x16a69
    ||| 0x16ac0 <= n <= 0x16ac9
    ||| 0x16b50 <= n <= 0x16b59
    ||| 0x16d70 <= n <= 0x16d79
    ||| 0x1ccf0 <= n <= 0x1ccf9
    ||| 0x1d7ce <= n <= 0x1d7ff
    ||| 0x1e140 <= n <= 0x1e149
    ||| 0x1e2f0 <= n <= 0x1e2f9
    ||| 0x1e4f0 <= n <= 0x1e4f9
    ||| 0x1e5f1 <= n <= 0x1e5fa
    ||| 0x1e950 <= n <= 0x1e959
    ||| 0x1fbf0 <= n <= 0x1fbf9
}

/// A character with the Unicode property `White_Space`.
pub open spec fn is_space(c: char) -> bool {
    let n = c as u32;
    ||| 0x09 <= n <= 0x0d
    ||| n == 0x20
    ||| n == 0x85
    ||| n == 0xa0
    ||| n == 0x1680
    ||| 0x2000 <= n <= 0x200a
    ||| n == 0x2028
    ||| n == 0x2029
    ||| n == 0x202f
    ||| n == 0x205f
    ||| n == 0x3000
}

/// The first place at or after `from` that holds no character of the sort
/// `of`.
pub open spec fn run_end(text: Seq<char>, from: int, of: spec_fn(char) -> bool) -> int
    decreases text.len() - from,
{
    if 0 <= from < text.len() && of(text[from]) {
        run_end(text, from + 1, of)
    } else {
        from
    }
}

/// The first place at or after `from` that holds none of the digits `0` to
/// `9`.
pub open spec fn digits_end(text: Seq<char>, from: int) -> int {
    run_end(text, from, |c: char| is_digit(c))
}

/// The first place at or after `from` that holds no decimal digit of any
/// script.
pub open spec fn script_digits_end(text: Seq<char>, from: int) -> int {
    run_end(text, from, |c: char| is_script_digit(c))
}

/// The number that a sequence of digits writes in base ten.
pub open spec fn number(digits: Seq<char>) -> nat
    decreases digits.len(),
{
    if digits.len() == 0 {
        0
    } else {
        (10 * number(digits.drop_last()) + (digits.last() as u32 - '0' as u32)) as nat
    }
}

/// Where the command starts in a line that begins with a stamp; nothing for
/// a line that does not.
///
/// A stamp is a colon, a space, ten of the digits `0` to `9`, a colon, one
/// decimal digit or more of any script, and a semicolon.
pub open spec fn stamp_end(line: Seq<char>) -> Option<int> {
    if line.len() > 13 && line[0] == ':' && line[1] == ' ' && digits_end(line, 2) == 12 && line[12]
        == ':' && 13 < script_digits_end(line, 13) < line.len() && line[script_digits_end(line, 13)]
        == ';' {
        Some(script_digits_end(line, 13) + 1)
    } else {
        None
    }
}

/// The text up to its first line feed, or all of it where it has none.
pub open spec fn first_line(text: Seq<char>) -> Seq<char>
    decreases text.len(),
{
    if text.len() == 0 || text[0] == '\n' {
        Seq::empty()
    } else {
        seq![text[0]] + first_line(text.skip(1))
    }
}

/// The length of the word that the text starts with: the number of
/// characters before its first white space.
pub open spec fn word_len(text: Seq<char>) -> int
    decreases text.len(),
{
    if text.len() == 0 || is_space(text[0]) {
        0
    } else {
        1 + word_len(text.skip(1))
    }
}

/// The words of a text: its longest stretches without white space, in
/// order.
pub open spec fn words(text: Seq<char>) -> Seq<Seq<char>>
    decreases text.len(),
{
    if text.len() == 0 {
        Seq::empty()
    } else if is_space(text[0]) {
        words(text.skip(1))
    } else {
        let n = word_len(text);
        if 0 < n <= text.len() {
            seq![text.take(n)] + words(text.skip(n))
        } else {
            Seq::empty()
        }
    }
}

/// What a line records. The time is the ten digits of the stamp, where the
/// line has one, and the command is what follows the stamp, cut into words.
/// A line without a stamp is a command as a whole. A line whose stamp gives
/// a time that is too great for 32 bits records nothing.
///
/// The ten digits of the time are digits `0` to `9`. A line that has a
/// decimal digit of another script among the ten characters of the time
/// begins with no stamp, and is a command as a whole.
pub open spec fn parsed(line: Seq<char>) -> Option<Record> {
    match stamp_end(line) {
        Some(start) => if number(line.subrange(2, 12)) <= u32::MAX {
            Some(
                (words(first_line(line.skip(start))), Some(number(line.subrange(2, 12)) as u32)),
            )
        } else {
            None
        },
        None => Some((words(first_line(line)), None)),
    }
}

/// What the lines record, line by line, without the lines that record
/// nothing.
pub open spec fn parsed_all(lines: Seq<Seq<char>>) -> Seq<Record>
    decreases lines.len(),
{
    if lines.len() == 0 {
        Seq::empty()
    } else {
        match parsed(lines.last()) {
            Some(record) => parsed_all(lines.drop_last()).push(record),
            None => parsed_all(lines.drop_last()),
        }
    }
}

/// Whether the character is white space.
fn space(c: char) -> (white: bool)
    ensures
        white == is_space(c),
{
    let n: u32 = c as u32;
    (0x09 <= n && n <= 0x0d) || n == 0x20 || n == 0x85 || n == 0xa0 || n == 0x1680 || (0x2000 <= n
        && n <= 0x200a) || n == 0x2028 || n == 0x2029 || n == 0x202f || n == 0x205f || n == 0x3000
}

/// Whether the character is one of the digits `0` to `9`.
fn digit(c: char) -> (yes: bool)
    ensures
        yes == is_digit(c),
{
    '0' <= c && c <= '9'
}

/// Whether the character is a decimal digit of any script.
pub fn script_digit(c: char) -> (yes: bool)
    ensures
        yes == is_script_digit(c),
{
    let n: u32 = c as u32;
    (0x0030 <= n && n <= 0x0039) || (0x0660 <= n && n <= 0x0669)
        || (0x06f0 <= n && n <= 0x06f9) || (0x07c0 <= n && n <= 0x07c9)
        || (0x0966 <= n && n <= 0x096f) || (0x09e6 <= n && n <= 0x09ef)
        || (0x0a66 <= n && n <= 0x0a6f) || (0x0ae6 <= n && n <= 0x0aef)
        || (0x0b66 <= n && n <= 0x0b6f) || (0x0be6 <= n && n <= 0x0bef)
        || (0x0c66 <= n && n <= 0x0c6f) || (0x0ce6 <= n && n <= 0x0cef)
        || (0x0d66 <= n && n <= 0x0d6f) || (0x0de6 <= n && n <= 0x0def)
        || (0x0e50 <= n && n <= 0x0e59) || (0x0ed0 <= n && n <= 0x0ed9)
        || (0x0f20 <= n && n <= 0x0f29) || (0x1040 <= n && n <= 0x1049)
        || (0x1090 <= n && n <= 0x1099) || (0x17e0 <= n && n <= 0x17e9)
        || (0x1810 <= n && n <= 0x1819) || (0x1946 <= n && n <= 0x194f)
        || (0x19d0 <= n && n <= 0x19d9) || (0x1a80 <= n && n <= 0x1a89)
        || (0x1a90 <= n && n <= 0x1a99) || (0x1b50 <= n && n <= 0x1b59)
        || (0x1bb0 <= n && n <= 0x1bb9) || (0x1c40 <= n && n <= 0x1c49)
        || (0x1c50 <= n && n <= 0x1c59) || (0xa620 <= n && n <= 0xa629)
        || (0xa8d0 <= n && n <= 0xa8d9) || (0xa900 <= n && n <= 0xa909)
        || (0xa9d0 <= n && n <= 0xa9d9) || (0xa9f0 <= n && n <= 0xa9f9)
        || (0xaa50 <= n && n <= 0xaa59) || (0xabf0 <= n && n <= 0xabf9)
        || (0xff10 <= n && n <= 0xff19) || (0x104a0 <= n && n <= 0x104a9)
        || (0x10d30 <= n && n <= 0x10d39) || (0x10d40 <= n && n <= 0x10d49)
        || (0x11066 <= n && n <= 0x1106f) || (0x110f0 <= n && n <= 0x110f9)
        || (0x11136 <= n && n <= 0x1113f) || (0x111d0 <= n && n <= 0x111d9)
        || (0x112f0 <= n && n <= 0x112f9) || (0x11450 <= n && n <= 0x11459)
        || (0x114d0 <= n && n <= 0x114d9) || (0x11650 <= n && n <= 0x11659)
        || (0x116c0 <= n && n <= 0x116c9) || (0x116d0 <= n && n <= 0x116e3)
        || (0x11730 <= n && n <= 0x11739) || (0x118e0 <= n && n <= 0x118e9)
        || (0x11950 <= n && n <= 0x11959) || (0x11bf0 <= n && n <= 0x11bf9)
        || (0x11c50 <= n && n <= 0x11c59) || (0x11d50 <= n && n <= 0x11d59)
        || (0x11da0 <= n && n <= 0x11da9) || (0x11f50 <= n && n <= 0x11f59)
        || (0x16130 <= n && n <= 0x16139) || (0x16a60 <= n && n <= 0x16a69)
        || (0x16ac0 <= n && n <= 0x16ac9) || (0x16b50 <= n && n <= 0x16b59)
        || (0x16d70 <= n && n <= 0x16d79) || (0x1ccf0 <= n && n <= 0x1ccf9)
        || (0x1d7ce <= n && n <= 0x1d7ff) || (0x1e140 <= n && n <= 0x1e149)
        || (0x1e2f0 <= n && n <= 0x1e2f9) || (0x1e4f0 <= n && n <= 0x1e4f9)
        || (0x1e5f1 <= n && n <= 0x1e5fa) || (0x1e950 <= n && n <= 0x1e959)
        || (0x1fbf0 <= n && n <= 0x1fbf9)
}

/// The characters of a text.
fn characters(text: &str) -> (chars: Vec<char>)
    ensures
        chars@ == text@,
{
    let mut chars: Vec<char> = Vec::new();
    for c in it: text.chars()
        invariant
            it.seq() == text@,
            chars@ == it.seq().take(it.index() as int),
    {
        chars.push(c);
        assert(it.seq().take(it.index() + 1) =~= it.seq().take(it.index() as int).push(c));
    }
    assert(text@.take(text@.len() as int) =~= text@);
    chars
}

/// The number after which a number of `k` digits ends.
spec fn limit(k: nat) -> nat
    decreases k,
{
    if k == 0 {
        1
    } else {
        10 * limit((k - 1) as nat)
    }
}

/// Ten digits write a number below ten to the tenth.
proof fn lemma_limit(k: nat)
    requires
        k <= 10,
    ensures
        limit(k) <= 10_000_000_000,
        limit(k + 1) == 10 * limit(k),
    decreases 10 - k,
{
    reveal_with_fuel(limit, 12);
    if k < 10 {
        lemma_limit(k + 1);
    }
}

/// The characters of one sort between `from` and `to` are all there are
/// from `from` on.
proof fn lemma_run_end(text: Seq<char>, from: int, to: int, of: spec_fn(char) -> bool)
    requires
        0 <= from <= to <= text.len(),
        forall|i: int| from <= i < to ==> of(#[trigger] text[i]),
        to == text.len() || !of(text[to]),
    ensures
        run_end(text, from, of) == to,
    decreases to - from,
{
    if from < to {
        lemma_run_end(text, from + 1, to, of);
    }
}

/// A text without a line feed before `end`, which is its end or holds one,
/// has its first line end there.
proof fn lemma_first_line(text: Seq<char>, from: int, end: int)
    requires
        0 <= from <= end <= text.len(),
        forall|i: int| from <= i < end ==> text[i] != '\n',
        end == text.len() || text[end] == '\n',
    ensures
        first_line(text.skip(from)) == text.subrange(from, end),
    decreases end - from,
{
    let rest = text.skip(from);
    if from < end {
        lemma_first_line(text, from + 1, end);
        assert(rest.skip(1) =~= text.skip(from + 1));
        assert(seq![rest[0]] + text.subrange(from + 1, end) =~= text.subrange(from, end));
    } else {
        assert(text.subrange(from, end) =~= Seq::<char>::empty());
    }
}

/// A text without white space before `to`, which is its end or holds some,
/// starts with a word that ends there.
proof fn lemma_word_len(text: Seq<char>, to: int)
    requires
        0 <= to <= text.len(),
        forall|i: int| 0 <= i < to ==> !is_space(text[i]),
        to == text.len() || is_space(text[to]),
    ensures
        word_len(text) == to,
    decreases to,
{
    if to > 0 {
        lemma_word_len(text.skip(1), to - 1);
    }
}

/// Reading one more digit multiplies the number by ten and adds the digit.
proof fn lemma_number_step(text: Seq<char>, from: int, to: int)
    requires
        0 <= from <= to < text.len(),
        forall|i: int| from <= i <= to ==> is_digit(text[i]),
        to - from <= 9,
    ensures
        number(text.subrange(from, to + 1)) == 10 * number(text.subrange(from, to)) + (text[to] as u32
            - '0' as u32),
        number(text.subrange(from, to)) < limit((to - from) as nat),
        number(text.subrange(from, to + 1)) < limit((to + 1 - from) as nat),
    decreases to - from,
{
    let longer = text.subrange(from, to + 1);
    assert(longer.drop_last() =~= text.subrange(from, to));
    assert(longer.last() == text[to]);
    lemma_limit((to - from) as nat);
    if from < to {
        lemma_number_step(text, from, to - 1);
    } else {
        assert(text.subrange(from, to).len() == 0);
        reveal_with_fuel(limit, 2);
    }
}

impl ExecutedCommand {
    /// Reads one line of a history file.
    ///
    /// Every line records a command, but for a line whose stamp gives a
    /// time too great for 32 bits, which records nothing.
    pub fn try_parse(line: &str) -> (command: Option<ExecutedCommand>)
        ensures
            match command {
                Some(command) => parsed(line@) == Some(command@),
                None => parsed(line@) is None,
            },
    {
        let chars = characters(line);
        let n = chars.len();
        let ghost text = chars@;
        let mut start: usize = 0;
        let mut time: Option<u32> = None;
        let mut stamped = false;
        if n > 13 && chars[0] == ':' && chars[1] == ' ' {
            let mut value: u64 = 0;
            let mut i: usize = 2;
            assert(text.subrange(2, 2) =~= Seq::<char>::empty());
            proof {
                reveal_with_fuel(limit, 2);
            }
            while i < 12 && digit(chars[i])
                invariant
                    2 <= i <= 12,
                    n == chars.len(),
                    n > 13,
                    text == chars@,
                    forall|k: int| 2 <= k < i ==> is_digit(text[k]),
                    value == number(text.subrange(2, i as int)),
                    value < limit((i - 2) as nat),
                decreases 12 - i,
            {
                proof {
                    lemma_number_step(text, 2, i as int);
                    lemma_limit((i - 2) as nat);
                    lemma_limit((i - 1) as nat);
                }
                value = value * 10 + (chars[i] as u32 - '0' as u32) as u64;
                i += 1;
            }
            proof {
                if i < 12 {
                    lemma_run_end(text, 2, i as int, |c: char| is_digit(c));
                }
            }
            if i == 12 && chars[12] == ':' {
                proof {
                    lemma_run_end(text, 2, 12, |c: char| is_digit(c));
                    lemma_limit(10);
                }
                let mut j: usize = 13;
                while j < n && script_digit(chars[j])
                    invariant
                        13 <= j <= n,
                        n == chars.len(),
                        text == chars@,
                        forall|k: int| 13 <= k < j ==> is_script_digit(text[k]),
                    decreases n - j,
                {
                    j += 1;
                }
                proof {
                    lemma_run_end(text, 13, j as int, |c: char| is_script_digit(c));
                }
                if j > 13 && j < n && chars[j] == ';' {
                    if value > u32::MAX as u64 {
                        return None;
                    }
                    stamped = true;
                    start = j + 1;
                    time = Some(value as u32);
                }
            }
        }
        assert(stamped ==> stamp_end(text) == Some(start as int));
        assert(!stamped ==> stamp_end(text) is None && start == 0);
        let mut end: usize = start;
        while end < n && chars[end] != '\n'
            invariant
                start <= end <= n,
                n == chars.len(),
                text == chars@,
                forall|k: int| start <= k < end ==> text[k] != '\n',
            decreases n - end,
        {
            end += 1;
        }
        let ghost body = text.subrange(start as int, end as int);
        proof {
            lemma_first_line(text, start as int, end as int);
            assert(text.skip(0) =~= text);
        }
        let mut args: Vec<String> = Vec::new();
        let mut at: usize = start;
        assert(text.subrange(start as int, end as int) =~= body);
        while at < end
            invariant
                start <= at <= end <= n,
                n == chars.len(),
                text == chars@,
                text == line@,
                body == text.subrange(start as int, end as int),
                words(body) == args@.map_values(|arg: String| arg@) + words(
                    text.subrange(at as int, end as int),
                ),
            decreases end - at,
        {
            let ghost rest = text.subrange(at as int, end as int);
            let ghost done = args@.map_values(|arg: String| arg@);
            if space(chars[at]) {
                assert(rest.skip(1) =~= text.subrange(at + 1, end as int));
                at += 1;
            } else {
                let mut to: usize = at + 1;
                while to < end && !space(chars[to])
                    invariant
                        at < to <= end <= n,
                        n == chars.len(),
                        text == chars@,
                        forall|k: int| at <= k < to ==> !is_space(text[k]),
                    decreases end - to,
                {
                    to += 1;
                }
                proof {
                    lemma_word_len(rest, to - at);
                    assert(rest.take(to - at) =~= text.subrange(at as int, to as int));
                    assert(rest.skip(to - at) =~= text.subrange(to as int, end as int));
                }
                let word = line.substring_char(at, to);
                args.push(word.to_owned());
                assert(args@.map_values(|arg: String| arg@) =~= done.push(
                    text.subrange(at as int, to as int),
                ));
                at = to;
            }
        }
        assert(text.subrange(end as int, end as int) =~= Seq::<char>::empty());
        assert(words(body) =~= args@.map_values(|arg: String| arg@));
        Some(ExecutedCommand { args, time })
    }
}

impl History {
    /// Reads the lines of a history file. Lines that record nothing are
    /// left out.
    pub fn from_iter(lines: Vec<&str>) -> (history: History)
        ensures
            history@ == parsed_all(lines@.map_values(|line: &str| line@)),
    {
        let ghost texts = lines@.map_values(|line: &str| line@);
        let mut commands: Vec<ExecutedCommand> = Vec::new();
        let mut i: usize = 0;
        assert(texts.take(0) =~= Seq::<Seq<char>>::empty());
        while i < lines.len()
            invariant
                i <= lines.len(),
                texts == lines@.map_values(|line: &str| line@),
                commands@.map_values(|command: ExecutedCommand| command@) == parsed_all(
                    texts.take(i as int),
                ),
            decreases lines.len() - i,
        {
            let ghost before = commands@.map_values(|command: ExecutedCommand| command@);
            assert(texts.take(i + 1).drop_last() =~= texts.take(i as int));
            assert(texts.take(i + 1).last() == lines[i as int]@);
            match ExecutedCommand::try_parse(lines[i]) {
                Some(command) => {
                    commands.push(command);
                    assert(commands@.map_values(|command: ExecutedCommand| command@) =~= before.push(
                        command@,
                    ));
                },
                None => {},
            }
            i += 1;
        }
        assert(texts.take(lines.len() as int) =~= texts);
        History { commands }
    }
}

} // verus!
