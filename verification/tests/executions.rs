use chrono::{Local, TimeZone};
use rags::executions::Executions;

#[test]
fn default() {
    assert_eq!(
        Executions::default(),
        Executions {
            count: 0,
            last_executed: None,
        }
    );
}

#[test]
fn updating_no_last_executed() {
    let base = Executions::default();
    assert_eq!(
        base.update(Some(5)),
        Executions {
            count: 1,
            last_executed: Some(5),
        }
    );
    assert_eq!(
        base.update(None),
        Executions {
            count: 1,
            last_executed: None,
        }
    );
}

#[test]
fn updating_existing_last_executed() {
    let base = Executions {
        count: 1,
        last_executed: Some(5),
    };
    assert_eq!(
        base.update(None),
        Executions {
            count: 2,
            last_executed: Some(5),
        }
    );
    assert_eq!(
        base.update(Some(3)),
        Executions {
            count: 2,
            last_executed: Some(5),
        }
    );
    assert_eq!(
        base.update(Some(6)),
        Executions {
            count: 2,
            last_executed: Some(6),
        }
    );
}

#[test]
fn representation() {
    let executions = Executions {
        count: 1,
        last_executed: Some(1565737322),
    };
    let moment = Local.timestamp_opt(1565737322, 0).unwrap();
    assert_eq!(
        executions.last_executed_str().unwrap(),
        moment.format("%Y-%m-%d %I:%M%p").to_string()
    );
    assert!(executions.last_executed_str().unwrap().starts_with("2019-08"));
}

#[test]
fn no_text_without_a_time() {
    let executions = Executions {
        count: 3,
        last_executed: None,
    };
    assert_eq!(executions.last_executed_str(), None);
}

#[test]
fn the_text_has_a_date_and_a_time_of_day() {
    let executions = Executions {
        count: 1,
        last_executed: Some(0),
    };
    let text = executions.last_executed_str().unwrap();
    assert_eq!(text.len(), "1970-01-01 12:00AM".len());
    assert!(text.ends_with("AM") || text.ends_with("PM"));
}

#[test]
fn an_equal_time_keeps_the_time() {
    let base = Executions {
        count: 7,
        last_executed: Some(9),
    };
    assert_eq!(
        base.update(Some(9)),
        Executions {
            count: 8,
            last_executed: Some(9),
        }
    );
}

#[test]
fn the_count_grows_up_to_the_greatest() {
    let base = Executions {
        count: u32::MAX - 1,
        last_executed: None,
    };
    assert_eq!(base.update(Some(u32::MAX)).count, u32::MAX);
    assert_eq!(base.update(Some(u32::MAX)).last_executed, Some(u32::MAX));
}
