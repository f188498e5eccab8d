//! The options that several commands share.

use vstd::prelude::*;

verus! {

/// What a caller may set for a command. Each command reads the fields it
/// knows and ignores the rest.
#[derive(Debug)]
pub struct Config {
    /// Names the session to act on: a task name, or the end of a session
    /// identifier.
    pub uid: Option<String>,
    /// Only events strictly after this time.
    pub from: Option<i64>,
    /// Only events strictly before this time.
    pub to: Option<i64>,
    /// Only these tasks; empty for all tasks.
    pub tasks: Vec<String>,
    /// At most this many results.
    pub count: usize,
    /// Act on, or list, everything that is eligible.
    pub all: bool,
    /// A time for callers that keep all their options here; no command
    /// reads it.
    pub start_time: Option<i64>,
}

impl Default for Config {
    fn default() -> (r: Self)
        ensures
            r.uid is None,
            r.from is None,
            r.to is None,
            r.tasks@.len() == 0,
            r.count == 0,
            !r.all,
            r.start_time is None,
    {
        Config {
            uid: None,
            from: None,
            to: None,
            tasks: Vec::new(),
            count: 0,
            all: false,
            start_time: None,
        }
    }
}

} // verus!
