use rags::history::{script_digit, ExecutedCommand, History};
use regex::Regex;

#[test]
fn histfile_parse_dated_format() {
    let input = vec![
        ": 1556993411:0;cargo fmt",
        ": 1556991281:0;cargo build --release",
    ];
    let expected = vec![
        ExecutedCommand {
            args: vec!["cargo".to_string(), "fmt".to_string()],
            time: Some(1556993411 as u32),
        },
        ExecutedCommand {
            args: vec![
                "cargo".to_string(),
                "build".to_string(),
                "--release".to_string(),
            ],
            time: Some(1556991281 as u32),
        },
    ];

    let hist = History::from_iter(input);
    assert_eq!(hist.commands, expected);
    assert!(hist.commands.iter().all(|cmd| cmd.time.is_some()));
}

#[test]
fn histfile_parse_undated_format() {
    let input = vec!["cargo fmt", "cargo build --release"];
    let expected = vec![
        ExecutedCommand {
            args: vec!["cargo".to_string(), "fmt".to_string()],
            time: None,
        },
        ExecutedCommand {
            args: vec![
                "cargo".to_string(),
                "build".to_string(),
                "--release".to_string(),
            ],
            time: None,
        },
    ];

    let hist = History::from_iter(input);
    assert_eq!(hist.commands, expected);
    assert!(hist.commands.iter().all(|cmd| cmd.time.is_none()));
}

#[test]
fn tests_parse_dated_format() {
    assert_eq!(
        ExecutedCommand::try_parse(": 1556993411:0;cargo fmt"),
        Some(ExecutedCommand {
            args: vec!["cargo".to_string(), "fmt".to_string()],
            time: Some(1556993411),
        })
    );
    assert_eq!(
        ExecutedCommand::try_parse(": 1556991281:0;cargo build --release"),
        Some(ExecutedCommand {
            args: vec![
                "cargo".to_string(),
                "build".to_string(),
                "--release".to_string(),
            ],
            time: Some(1556991281),
        })
    );
}

#[test]
fn tests_parse_undated_format() {
    assert_eq!(
        ExecutedCommand::try_parse("cargo fmt"),
        Some(ExecutedCommand {
            args: vec!["cargo".to_string(), "fmt".to_string()],
            time: None,
        })
    );
    assert_eq!(
        ExecutedCommand::try_parse("cargo build --release"),
        Some(ExecutedCommand {
            args: vec![
                "cargo".to_string(),
                "build".to_string(),
                "--release".to_string(),
            ],
            time: None,
        })
    );
}

#[test]
fn history_dated_format() {
    let input = vec![
        ": 1556993411:0;cargo fmt",
        ": 1556991281:0;cargo build --release",
    ];
    let expected = vec![
        ExecutedCommand {
            args: vec!["cargo".to_string(), "fmt".to_string()],
            time: Some(1556993411),
        },
        ExecutedCommand {
            args: vec![
                "cargo".to_string(),
                "build".to_string(),
                "--release".to_string(),
            ],
            time: Some(1556991281),
        },
    ];

    let hist = History::from_iter(input);
    assert_eq!(hist.commands, expected);
}

#[test]
fn history_undated_format() {
    let input = vec!["cargo fmt", "cargo build --release"];
    let expected = vec![
        ExecutedCommand {
            args: vec!["cargo".to_string(), "fmt".to_string()],
            time: None,
        },
        ExecutedCommand {
            args: vec![
                "cargo".to_string(),
                "build".to_string(),
                "--release".to_string(),
            ],
            time: None,
        },
    ];

    let hist = History::from_iter(input);
    assert_eq!(hist.commands, expected);
}

fn parsed(line: &str) -> (Vec<String>, Option<u32>) {
    let command = ExecutedCommand::try_parse(line).unwrap();
    (command.args, command.time)
}

fn words(all: &[&str]) -> Vec<String> {
    all.iter().map(|word| word.to_string()).collect()
}

#[test]
fn an_empty_line_is_a_command_without_arguments() {
    assert_eq!(parsed(""), (words(&[]), None));
    assert_eq!(parsed("   \t "), (words(&[]), None));
    assert_eq!(parsed(": 1556993411:0;"), (words(&[]), Some(1556993411)));
}

#[test]
fn any_white_space_of_any_length_parts_the_arguments() {
    assert_eq!(
        parsed("  git\t\tcommit \u{a0}-m\u{3000}x\u{2003}y  "),
        (words(&["git", "commit", "-m", "x", "y"]), None)
    );
    assert_eq!(parsed("a\u{85}b\u{1680}c\u{2028}d\u{2029}e"), (words(&["a", "b", "c", "d", "e"]), None));
    assert_eq!(parsed("a\u{202f}b\u{205f}c\u{200a}d\u{b}e\u{c}f\rg"), (words(&["a", "b", "c", "d", "e", "f", "g"]), None));
    // a zero width space is no white space
    assert_eq!(parsed("a\u{200b}b"), (words(&["a\u{200b}b"]), None));
    assert_eq!(parsed("a\u{1f}b\u{8}c"), (words(&["a\u{1f}b\u{8}c"]), None));
}

#[test]
fn the_command_ends_at_a_line_feed() {
    assert_eq!(parsed("cargo run\ncargo test"), (words(&["cargo", "run"]), None));
    assert_eq!(parsed("\ncargo test"), (words(&[]), None));
    assert_eq!(
        parsed(": 1556993411:0;ls -l\nrm"),
        (words(&["ls", "-l"]), Some(1556993411))
    );
}

#[test]
fn a_stamp_needs_all_its_parts() {
    let whole = |line: &str| (line.split_whitespace().map(str::to_string).collect::<Vec<String>>(), None);
    for line in [
        ":1556993411:0;ls",
        ": 155699341:0;ls",
        ": 15569934110:0;ls",
        ": 1556993411;ls",
        ": 1556993411:;ls",
        ": 1556993411:0ls",
        ": 1556993411:0",
        ": 1556993411:",
        ": 1556993411",
        ": 155699341a:0;ls",
        ": 1556993411:0a;ls",
        " : 1556993411:0;ls",
        ": 1556993411 :0;ls",
        ":  1556993411:0;ls",
    ] {
        assert_eq!(parsed(line), whole(line), "{}", line);
    }
}

#[test]
fn the_second_number_of_a_stamp_may_be_long() {
    assert_eq!(
        parsed(": 0000000007:1234567890123456789012345;echo hi"),
        (words(&["echo", "hi"]), Some(7))
    );
    assert_eq!(parsed(": 4294967295:00;x"), (words(&["x"]), Some(u32::MAX)));
}

#[test]
fn a_command_may_hold_what_looks_like_a_stamp() {
    assert_eq!(
        parsed(": 1556993411:0;: 1556993412:0;ls"),
        (words(&[":", "1556993412:0;ls"]), Some(1556993411))
    );
    assert_eq!(
        parsed(": 1556993411:0;; ls ;"),
        (words(&[";", "ls", ";"]), Some(1556993411))
    );
}

#[test]
fn a_time_too_great_for_32_bits_records_nothing() {
    assert_eq!(ExecutedCommand::try_parse(": 4294967296:0;ls"), None);
    assert_eq!(ExecutedCommand::try_parse(": 9999999999:0;ls"), None);
    let hist = History::from_iter(vec!["ls", ": 9999999999:0;rm", ": 0000000001:0;cd"]);
    assert_eq!(
        hist.commands,
        vec![
            ExecutedCommand {
                args: words(&["ls"]),
                time: None,
            },
            ExecutedCommand {
                args: words(&["cd"]),
                time: Some(1),
            },
        ]
    );
}

#[test]
fn no_lines_make_an_empty_history() {
    assert_eq!(History::from_iter(vec![]), History { commands: vec![] });
}

#[test]
fn characters_beyond_ascii_stay_whole() {
    assert_eq!(
        parsed(": 1556993411:0;\u{e9}cho \u{4e16}\u{754c} \u{1f600}"),
        (words(&["\u{e9}cho", "\u{4e16}\u{754c}", "\u{1f600}"]), Some(1556993411))
    );
}

#[test]
fn the_ten_digits_of_the_time_are_ascii() {
    assert_eq!(
        parsed(": 155699341\u{661}:0;ls"),
        (words(&[":", "155699341\u{661}:0;ls"]), None)
    );
}

#[test]
fn the_second_number_of_a_stamp_may_be_of_any_script() {
    assert_eq!(
        parsed(": 1556993411:\u{663};ls"),
        (words(&["ls"]), Some(1556993411))
    );
    assert_eq!(
        parsed(": 1556993411:1\u{967}\u{ff12}\u{1d7ff};ls -l"),
        (words(&["ls", "-l"]), Some(1556993411))
    );
    // a superscript two and a roman numeral are numbers, but no decimal digits
    assert_eq!(
        parsed(": 1556993411:\u{b2};ls"),
        (words(&[":", "1556993411:\u{b2};ls"]), None)
    );
    assert_eq!(
        parsed(": 1556993411:\u{2160};ls"),
        (words(&[":", "1556993411:\u{2160};ls"]), None)
    );
}

#[test]
fn the_digits_of_any_script_are_those_of_the_pattern() {
    let digit = Regex::new(r"^\d$").unwrap();
    let mut count = 0;
    for c in '\0'..=char::MAX {
        let mut buffer = [0u8; 4];
        let by_pattern = digit.is_match(c.encode_utf8(&mut buffer));
        assert_eq!(script_digit(c), by_pattern, "{:?}", c);
        if by_pattern {
            count += 1;
        }
    }
    assert_eq!(count, 760);
}

#[test]
fn every_character_parts_words_as_white_space_does() {
    for c in '\0'..=char::MAX {
        if c == '\n' {
            continue;
        }
        let line = format!("a{}b", c);
        let expected: Vec<String> = line.split_whitespace().map(str::to_string).collect();
        assert_eq!(parsed(&line), (expected, None), "{:?}", c);
    }
}

/// Reads a line with the pattern of the stamp; nothing where the time that
/// the pattern finds is no number of 32 bits.
fn by_pattern(line: &str, re: &Regex) -> Option<(Vec<String>, Option<u32>)> {
    let caps = re.captures(line).unwrap();
    let cmd = caps.name("cmd").unwrap();
    let args = cmd.as_str().split_whitespace().map(str::to_string).collect();
    match caps.name("time") {
        Some(time) => match time.as_str().parse() {
            Ok(seconds) => Some((args, Some(seconds))),
            Err(_) => None,
        },
        None => Some((args, None)),
    }
}

#[test]
fn lines_are_read_as_the_pattern_of_the_stamp_reads_them() {
    let re = Regex::new(r"^(: (?P<time>\d{10}):\d+;)?(?P<cmd>.*)").unwrap();
    let starts = [": ", ":", " : ", ""];
    let times = [
        "1556993411",
        "0000000000",
        "4294967295",
        "155699341",
        "15569934110",
        "155699341a",
    ];
    let colons = [":", ";", ""];
    let seconds = ["0", "12", "\u{663}", "1\u{967}2", "\u{1e950}9", "", "x", "\u{b2}"];
    let ends = [";", "", ":", ";;"];
    let commands = [
        "ls -l",
        "",
        "  a\tb ",
        "cargo\u{a0}run",
        "x\ny z",
        "\u{2003}git\u{3000}commit\r",
        ": 1556993411:0;ls",
    ];
    let mut compared = 0;
    for start in starts {
        for time in times {
            for colon in colons {
                for second in seconds {
                    for end in ends {
                        for command in commands {
                            let line =
                                format!("{}{}{}{}{}{}", start, time, colon, second, end, command);
                            if let Some(expected) = by_pattern(&line, &re) {
                                assert_eq!(parsed(&line), expected, "{:?}", line);
                                compared += 1;
                            }
                        }
                    }
                }
            }
        }
    }
    assert_eq!(compared, 4 * 6 * 3 * 8 * 4 * 7);
}
