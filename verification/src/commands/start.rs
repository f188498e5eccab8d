//! Starting a task.

use vstd::prelude::*;
use crate::clock::time_or_now;
use crate::ident::new_id;
use crate::laws::{at_most_one_open, law_start_opens_one_session};
use crate::reconstruct::{has_open, has_open_session};
use crate::shift_db::{has_id, log_insert, ShiftDb, StorageError};
use crate::task_event::{EventView, TaskEvent};
use crate::task_state::TaskState;

verus! {

/// Why a task was not started.
#[derive(Debug, PartialEq, Eq)]
pub enum StartError {
    /// The task of this name has an open session already.
    Ongoing(String),
    /// The log refused the event; the text says why.
    SqlError(String),
}

/// What to start, and when.
#[derive(Debug)]
pub struct StartOpts {
    /// The task's name.
    pub uid: Option<String>,
    /// The time of the start; the clock's reading if none is given.
    pub start_time: Option<i64>,
}

impl Default for StartOpts {
    fn default() -> (r: Self)
        ensures
            r.uid is None,
            r.start_time is None,
    {
        StartOpts { uid: None, start_time: None }
    }
}

/// The event that opens session `session` of task `name` at `time`.
pub open spec fn start_event(
    name: Seq<char>,
    time: i64,
    id: Seq<char>,
    session: Seq<char>,
) -> EventView {
    EventView { id, name, session, state: TaskState::Started, time }
}

/// Starts task `name` at `time` in a new session `session`, recording the
/// start under the identifier `id`.
///
/// A task with an open session is not started again. Otherwise the start
/// is recorded unless the log holds `id` already, and the task then has no
/// open session but the one just started.
pub fn start_with(s: &mut ShiftDb, name: String, time: i64, id: String, session: String) -> (r:
    Result<TaskEvent, StartError>)
    ensures
        match r {
            Ok(event) => {
                &&& !has_open_session(old(s)@, name@)
                &&& !has_id(old(s)@, id@)
                &&& event@ == start_event(name@, time, id@, session@)
                &&& final(s)@ == log_insert(old(s)@, event@)
                &&& at_most_one_open(final(s)@, name@)
            },
            Err(StartError::Ongoing(task)) => {
                &&& has_open_session(old(s)@, name@)
                &&& task@ == name@
                &&& final(s)@ == old(s)@
            },
            Err(StartError::SqlError(_)) => {
                &&& !has_open_session(old(s)@, name@)
                &&& has_id(old(s)@, id@)
                &&& final(s)@ == old(s)@
            },
        },
{
    if has_open(s.events(), name.as_str()) {
        return Err(StartError::Ongoing(name));
    }
    let event = TaskEvent { id, name, session, state: TaskState::Started, time };
    let inserted = event.clone();
    proof {
        law_start_opens_one_session(s@, event@);
    }
    match s.append(event) {
        Ok(()) => Ok(inserted),
        Err(StorageError::DuplicateId) => Err(
            StartError::SqlError("an event of this identifier is recorded already".to_string()),
        ),
    }
}

/// Starts the task that `args` names, at the time `args` gives or else now,
/// in a session of its own.
///
/// Fails with `Ongoing` exactly when the task has an open session. The
/// identifiers of the event and of the session are made up here; should the
/// log know the event's already, nothing is recorded.
pub fn start(s: &mut ShiftDb, args: &StartOpts) -> (r: Result<TaskEvent, StartError>)
    requires
        args.uid is Some,
    ensures
        match r {
            Ok(event) => {
                &&& !has_open_session(old(s)@, args.uid->0@)
                &&& !has_id(old(s)@, event.id@)
                &&& event.name@ == args.uid->0@
                &&& event.state == TaskState::Started
                &&& args.start_time matches Some(t) ==> event.time == t
                &&& final(s)@ == log_insert(old(s)@, event@)
                &&& at_most_one_open(final(s)@, args.uid->0@)
            },
            Err(StartError::Ongoing(task)) => {
                &&& has_open_session(old(s)@, args.uid->0@)
                &&& task@ == args.uid->0@
                &&& final(s)@ == old(s)@
            },
            Err(StartError::SqlError(_)) => {
                &&& !has_open_session(old(s)@, args.uid->0@)
                &&& final(s)@ == old(s)@
            },
        },
{
    let name = match &args.uid {
        Some(name) => name.clone(),
        None => unreached(),
    };
    let time = time_or_now(args.start_time);
    start_with(s, name, time, new_id(), new_id())
}

} // verus!
