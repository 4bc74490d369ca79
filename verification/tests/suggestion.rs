use rags::executions::Executions;
use rags::suggestion::Suggestion;
use std::cmp::Ordering;

#[test]
fn test_new() {
    assert_eq!(
        Suggestion::new(
            vec!["cargo".to_string(), "run".to_string()],
            Executions::default(),
        ),
        Suggestion {
            command: "cargo run".to_string(),
            length: 9,
            args: vec!["cargo".to_string(), "run".to_string()],
            executions: Executions::default(),
        }
    );
}

#[test]
fn order() {
    let a1 = vec!["cargo".to_string()];
    let a2 = vec!["cargo".to_string(), "run".to_string()];
    let a3 = vec!["abc".to_string()];
    let a4 = vec!["abcdefghijklmnop".to_string()];
    let a5 = vec!["cargo".to_string(), "run".to_string(), "--release".to_string()];
    let a6 = vec!["cargo".to_string(), "run".to_string(), "--debug".to_string()];

    let exec_high = Executions {
        count: 100,
        last_executed: None,
    };
    let exec_med = Executions {
        count: 50,
        last_executed: None,
    };
    let exec_low = Executions {
        count: 10,
        last_executed: None,
    };

    let s = Suggestion::new;

    // Sorting based on length and number of args
    assert!(s(a3.to_owned(), exec_high) < s(a2.to_owned(), exec_high));
    assert!(s(a3.to_owned(), exec_high) < s(a4.to_owned(), exec_high));
    assert!(s(a3.to_owned(), exec_high) < s(a1.to_owned(), exec_high));
    assert!(s(a2.to_owned(), exec_high) < s(a4.to_owned(), exec_high));
    assert!(s(a2.to_owned(), exec_high) < s(a5.to_owned(), exec_high));
    assert!(s(a4.to_owned(), exec_high) < s(a5.to_owned(), exec_high));
    assert!(s(a5.to_owned(), exec_high) > s(a6.to_owned(), exec_high));

    // Sorting based on executions
    assert!(s(a5.to_owned(), exec_high) > s(a5.to_owned(), exec_med));
    assert!(s(a5.to_owned(), exec_high) > s(a5.to_owned(), exec_low));
    assert!(s(a5.to_owned(), exec_med) > s(a5.to_owned(), exec_low));
}

fn made(args: &[&str], count: u32) -> Suggestion {
    Suggestion::new(
        args.iter().map(|arg| arg.to_string()).collect(),
        Executions {
            count,
            last_executed: None,
        },
    )
}

#[test]
fn no_arguments_make_an_empty_command() {
    let suggestion = made(&[], 4);
    assert_eq!(suggestion.command, "");
    assert_eq!(suggestion.length, 0);
    assert!(suggestion.args.is_empty());
    assert_eq!(suggestion.executions.count, 4);
}

#[test]
fn one_argument_is_the_command() {
    let suggestion = made(&["ls"], 1);
    assert_eq!(suggestion.command, "ls");
    assert_eq!(suggestion.length, 2);
}

#[test]
fn arguments_are_joined_by_single_spaces() {
    let suggestion = made(&["git", "commit", "-m"], 1);
    assert_eq!(suggestion.command, "git commit -m");
    assert_eq!(suggestion.length, 13);
    assert_eq!(suggestion.args.len(), 3);
}

#[test]
fn the_length_counts_characters() {
    let suggestion = made(&["caf\u{e9}", "\u{4e16}\u{754c}"], 1);
    assert_eq!(suggestion.command, "caf\u{e9} \u{4e16}\u{754c}");
    assert_eq!(suggestion.length, 7);
}

#[test]
fn a_short_command_is_compared_by_length_first() {
    // nine characters against sixteen: the count does not matter
    let short = made(&["cargo", "run"], 1000);
    let long = made(&["abcdefghijklmnop"], 1);
    assert_eq!(short.compare(&long), Ordering::Less);
    assert_eq!(long.compare(&short), Ordering::Greater);
}

#[test]
fn short_commands_of_one_length_are_compared_by_arguments_then_count() {
    let one = made(&["abcde"], 9);
    let two = made(&["ab", "de"], 1);
    assert_eq!(one.compare(&two), Ordering::Less);
    let rare = made(&["abcde"], 1);
    assert_eq!(one.compare(&rare), Ordering::Greater);
    assert_eq!(one.compare(&made(&["vwxyz"], 9)), Ordering::Equal);
}

#[test]
fn few_arguments_are_compared_by_arguments_first() {
    // both reach the length of ten; one has a single argument
    let single = made(&["abcdefghijklmnopqrstuvwxyz"], 1000);
    let pair = made(&["abcdefgh", "ij"], 1);
    assert_eq!(single.compare(&pair), Ordering::Less);
    let longer_single = made(&["abcdefghijklmnopqrstuvwxyz0"], 1);
    assert_eq!(single.compare(&longer_single), Ordering::Less);
}

#[test]
fn similar_counts_are_compared_by_arguments_first() {
    // 100 and 90 differ by 10 of a mean of 95
    let often = made(&["cargo", "build", "now"], 100);
    let more_args = made(&["cargo", "b", "n", "x"], 90);
    assert_eq!(often.compare(&more_args), Ordering::Less);
    assert_eq!(more_args.compare(&often), Ordering::Greater);
}

#[test]
fn different_counts_are_compared_by_count_first() {
    // 100 and 50 differ by 50 of a mean of 75
    let often = made(&["cargo", "build", "now"], 100);
    let more_args = made(&["cargo", "b", "n", "x"], 50);
    assert_eq!(often.compare(&more_args), Ordering::Greater);
    assert_eq!(more_args.compare(&often), Ordering::Less);
}

#[test]
fn a_difference_of_a_fifth_of_the_mean_is_not_similar() {
    // 11 and 9 differ by 2, a fifth of their mean of 10
    let eleven = made(&["cargo", "build", "now"], 11);
    let nine = made(&["cargo", "b", "n", "x"], 9);
    assert_eq!(eleven.compare(&nine), Ordering::Greater);
    // 21 and 19 differ by 2, less than a fifth of their mean of 20
    let more = made(&["cargo", "build", "now"], 21);
    let less = made(&["cargo", "b", "n", "x"], 19);
    assert_eq!(more.compare(&less), Ordering::Less);
}

#[test]
fn counts_of_zero_are_not_similar() {
    let a = made(&["cargo", "build", "now"], 0);
    let b = made(&["cargo", "b", "n", "x"], 0);
    // by count, then by arguments
    assert_eq!(a.compare(&b), Ordering::Less);
}

#[test]
fn the_largest_counts_are_compared_without_overflow() {
    let most = made(&["cargo", "build", "now"], u32::MAX);
    let nearly = made(&["cargo", "b", "n", "x"], u32::MAX - 1);
    assert_eq!(most.compare(&nearly), Ordering::Less);
    let none = made(&["cargo", "b", "n", "x"], 0);
    assert_eq!(most.compare(&none), Ordering::Greater);
}

#[test]
fn comparing_turns_round_with_the_arguments() {
    let all = [
        made(&["abc"], 100),
        made(&["cargo"], 50),
        made(&["cargo", "run"], 10),
        made(&["abcdefghijklmnop"], 100),
        made(&["cargo", "run", "--release"], 85),
        made(&["cargo", "run", "--debug", "-v"], 72),
        made(&["cargo", "run", "--release"], 100),
    ];
    for a in all.iter() {
        for b in all.iter() {
            assert_eq!(a.compare(b), b.compare(a).reverse());
            assert_eq!(a.partial_cmp(b), Some(a.compare(b)));
        }
    }
}
