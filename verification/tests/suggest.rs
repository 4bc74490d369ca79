use rags::executions::Executions;
use rags::history::History;
use rags::key_value::KeyValue;
use rags::suggest::{
    build, drain_top_suggestions, most_used, suggest, table_rows, Row, Shortlist,
};
use rags::suggestion::Suggestion;
use rags::trie::Collector;

fn sample_hist() -> History {
    History::from_iter(vec!["abc 123", "cargo", "cargo run", "cargo run --release"])
}

fn made(args: &[&str], count: u32, last_executed: Option<u32>) -> Suggestion {
    Suggestion::new(
        args.iter().map(|arg| arg.to_string()).collect(),
        Executions {
            count,
            last_executed,
        },
    )
}

fn sample_suggestions() -> Vec<Suggestion> {
    vec![
        Suggestion::new(
            vec!["cargo".to_string(), "run".to_string(), "--release".to_string()],
            Executions {
                count: 1,
                last_executed: None,
            },
        ),
        Suggestion::new(
            vec!["cargo".to_string(), "run".to_string()],
            Executions {
                count: 2,
                last_executed: None,
            },
        ),
    ]
}

#[test]
fn suggest_none() {
    assert_eq!(suggest(sample_hist(), 0).into_iter().next(), None);
}

#[test]
fn suggest_one() {
    let suggestions: Vec<Suggestion> = suggest(sample_hist(), 1);
    let expected = &sample_suggestions()[..1];
    assert_eq!(&suggestions[..1], expected);
}

#[test]
fn suggest_two() {
    let suggestions: Vec<Suggestion> = suggest(sample_hist(), 2);
    assert_eq!(suggestions, sample_suggestions());
}

#[test]
fn suggest_all() {
    let mut suggestions: Vec<Suggestion> = suggest(sample_hist(), 5);
    assert_eq!(suggestions.len(), 5);
    suggestions = suggest(sample_hist(), 20);
    assert_eq!(suggestions.len(), 5);
}

#[test]
fn all_suggestions_come_best_first() {
    assert_eq!(
        suggest(sample_hist(), 5),
        vec![
            made(&["cargo", "run", "--release"], 1, None),
            made(&["cargo", "run"], 2, None),
            made(&["abc", "123"], 1, None),
            made(&["cargo"], 3, None),
            made(&["abc"], 1, None),
        ]
    );
}

#[test]
fn an_empty_history_gives_no_suggestion() {
    assert_eq!(suggest(History { commands: vec![] }, 3), vec![]);
    assert_eq!(suggest(History::from_iter(vec!["", "  "]), 3), vec![]);
}

#[test]
fn the_tally_counts_commands_and_keeps_the_latest_time() {
    let history = History::from_iter(vec![
        ": 1556993411:0;cargo fmt",
        "cargo build --release",
        ": 1556991281:0;cargo build",
        ": 1556999999:0;ls",
    ]);
    let trie = build(history);
    let key = |tokens: &[&str]| -> Vec<String> { tokens.iter().map(|t| t.to_string()).collect() };
    assert_eq!(
        trie.get(key(&[])),
        Some(&Executions {
            count: 4,
            last_executed: Some(1556999999),
        })
    );
    assert_eq!(
        trie.get(key(&["cargo"])),
        Some(&Executions {
            count: 3,
            last_executed: Some(1556993411),
        })
    );
    assert_eq!(
        trie.get(key(&["cargo", "build"])),
        Some(&Executions {
            count: 2,
            last_executed: Some(1556991281),
        })
    );
    assert_eq!(
        trie.get(key(&["cargo", "build", "--release"])),
        Some(&Executions {
            count: 1,
            last_executed: None,
        })
    );
    assert_eq!(trie.get(key(&["cargo", "test"])), None);
}

#[test]
fn suggestions_carry_the_tally() {
    let history = History::from_iter(vec![
        ": 1556993411:0;cargo build --release",
        ": 1556991281:0;cargo build --release",
        "cargo build --release",
    ]);
    assert_eq!(
        suggest(history, 1),
        vec![made(&["cargo", "build", "--release"], 3, Some(1556993411))]
    );
}

#[test]
fn a_shortlist_keeps_the_first_of_two_equals() {
    let key = |tokens: &[&str]| -> Vec<String> { tokens.iter().map(|t| t.to_string()).collect() };
    let once = Executions {
        count: 1,
        last_executed: None,
    };
    let mut list = Shortlist::new(1);
    list.offer(&key(&["abc"]), once);
    list.offer(&key(&["xyz"]), once);
    assert_eq!(list.into_vec(), vec![made(&["abc"], 1, None)]);
    let mut list = Shortlist::new(3);
    list.offer(&key(&["abc"]), once);
    list.offer(&key(&["xyz"]), once);
    list.offer(&key(&["abcd"]), once);
    list.offer(&key(&["uvw"]), once);
    assert_eq!(
        list.into_vec(),
        vec![
            made(&["abcd"], 1, None),
            made(&["abc"], 1, None),
            made(&["xyz"], 1, None),
        ]
    );
}

#[test]
fn a_shortlist_without_room_keeps_nothing() {
    let mut list = Shortlist::new(0);
    list.offer(
        &vec!["ls".to_string()],
        Executions {
            count: 9,
            last_executed: None,
        },
    );
    assert_eq!(list.into_vec(), vec![]);
}

#[test]
fn the_best_suggestions_of_a_tree_are_drawn() {
    let trie = build(sample_hist());
    assert_eq!(drain_top_suggestions(trie, 2), sample_suggestions());
}

#[test]
fn table_building() {
    let rows = table_rows(sample_suggestions());
    let expected = vec![
        Row {
            uses: 1,
            last_used: "Unknown".to_string(),
            command: "cargo run --release".to_string(),
        },
        Row {
            uses: 2,
            last_used: "Unknown".to_string(),
            command: "cargo run".to_string(),
        },
    ];
    assert_eq!(rows, expected);
}

#[test]
fn a_row_gives_the_time_of_the_last_execution() {
    let executions = Executions {
        count: 4,
        last_executed: Some(1565737322),
    };
    let suggestion = Suggestion::new(vec!["ls".to_string()], executions);
    let rows = table_rows(vec![suggestion]);
    assert_eq!(rows.len(), 1);
    assert_eq!(rows[0].uses, 4);
    assert_eq!(rows[0].command, "ls");
    assert_eq!(Some(rows[0].last_used.clone()), executions.last_executed_str());
    assert!(rows[0].last_used.starts_with("2019-08"));
}

#[test]
fn no_suggestions_make_no_rows() {
    assert_eq!(table_rows(vec![]), vec![]);
}

#[test]
fn the_most_used_commands_come_with_their_tally() {
    let history = History::from_iter(vec![
        ": 1556993411:0;cargo fmt",
        "cargo build --release",
        ": 1556991281:0;cargo build",
        ": 1556999999:0;ls",
    ]);
    let key = |tokens: &[&str]| -> Vec<String> { tokens.iter().map(|t| t.to_string()).collect() };
    assert_eq!(
        most_used(history, 2),
        vec![
            KeyValue {
                key: key(&["cargo"]),
                value: Executions {
                    count: 3,
                    last_executed: Some(1556993411),
                },
            },
            KeyValue {
                key: key(&["cargo", "build"]),
                value: Executions {
                    count: 2,
                    last_executed: Some(1556991281),
                },
            },
        ]
    );
    assert_eq!(most_used(sample_hist(), 0), vec![]);
    assert_eq!(most_used(sample_hist(), 9).len(), 5);
}
