//! How often a command was executed, and when it was executed last.

use crate::key_value::Ranked;
use crate::trie::TrieValue;
use chrono::{Local, TimeZone};
use vstd::prelude::*;

verus! {

/// The executions of a command.
#[derive(Debug, Clone, Copy, PartialEq, Eq)]
pub struct Executions {
    /// How many times the command has been executed.
    pub count: u32,
    /// The time of the latest execution whose time is known, in seconds since
    /// the epoch.
    pub last_executed: Option<u32>,
}

/// The later of two times where both are known, else the one that is.
pub open spec fn latest(known: Option<u32>, time: Option<u32>) -> Option<u32> {
    match (known, time) {
        (Some(old), Some(new)) => Some(
            if old >= new {
                old
            } else {
                new
            },
        ),
        (Some(old), None) => Some(old),
        (None, _) => time,
    }
}

/// `TimeZone::timestamp_opt` and `DateTime::format` of `chrono`, on `Local`:
/// the moment `time` seconds after the epoch, written out in the time zone of
/// the machine as year, month, day, hour of twelve, minute and half of the
/// day. Every such number of seconds is in range, so there is one such
/// moment. The text depends on the machine; what is claimed of it is its
/// length: the year of such a moment has four digits, and the layout gives
/// every other part two characters.
#[verifier::external_body]
fn local_text(time: u32, layout: &str) -> (text: String)
    requires
        layout@ == "%Y-%m-%d %I:%M%p"@,
    ensures
        text@.len() == 18,
{
    Local.timestamp_opt(time as i64, 0).unwrap().format(layout).to_string()
}

impl Executions {
    /// The executions after one more, at `time` if the time is known.
    pub open spec fn updated(self, time: Option<u32>) -> Executions {
        Executions {
            count: (self.count + 1) as u32,
            last_executed: latest(self.last_executed, time),
        }
    }

    /// Takes one more execution into account.
    ///
    /// The count grows by one. The time of the last execution moves to
    /// `time` if that is later than what was known, or if nothing was.
    pub fn update(&self, time: Option<u32>) -> (next: Self)
        requires
            self.count < u32::MAX,
        ensures
            next == self.updated(time),
            next.count == self.count + 1,
    {
        let last_executed = match self.last_executed {
            Some(old) => match time {
                Some(new) => Some(
                    if old >= new {
                        old
                    } else {
                        new
                    },
                ),
                None => Some(old),
            },
            None => time,
        };
        Executions { count: self.count + 1, last_executed }
    }

    /// The time of the last execution as a date and a time of day in the
    /// time zone of the machine, if that time is known: eighteen characters,
    /// as in `2019-08-13 11:02PM`.
    pub fn last_executed_str(&self) -> (text: Option<String>)
        ensures
            text is Some <==> self.last_executed is Some,
            text matches Some(written) ==> written@.len() == 18,
    {
        match self.last_executed {
            Some(time) => Some(local_text(time, "%Y-%m-%d %I:%M%p")),
            None => None,
        }
    }
}

impl Default for Executions {
    /// No execution yet.
    fn default() -> (none: Self)
        ensures
            none == (Executions { count: 0, last_executed: None }),
    {
        Executions { count: 0, last_executed: None }
    }
}

impl TrieValue for Executions {
    open spec fn initial() -> Self {
        Executions { count: 0, last_executed: None }
    }

    fn fresh() -> (value: Self) {
        Executions { count: 0, last_executed: None }
    }
}

impl Ranked for Executions {
    open spec fn rank(&self) -> u64 {
        self.count as u64
    }

    fn ranking(&self) -> (rank: u64) {
        self.count as u64
    }
}

} // verus!
