//! Leaving what is running for another task.

use vstd::prelude::*;
use crate::clock::now;
use crate::commands::start::{start_with, StartError};
use crate::commands::stop::{stop, Error, StopOpts};
use crate::commands::{recorded, recorded_until};
use crate::ident::new_id;
use crate::laws::law_stop_all_closes_every_session;
use crate::reconstruct::ongoing_sessions;
use crate::shift_db::{has_id, log_insert, ShiftDb};
use crate::task_event::{EventView, TaskEvent};
use crate::task_state::TaskState;
use crate::text::same_text;

verus! {

/// Why a switch did not take place, or only in part.
#[derive(Debug, PartialEq, Eq)]
pub enum SwitchError {
    /// The task to switch to is the only one running, and the caller asked
    /// for such a switch to be refused.
    SameTask(String),
    /// What was running could not be stopped.
    Stop(Error),
    /// What was running has been stopped, but the task was not started.
    Start(StartError),
}

/// What to switch to.
#[derive(Debug)]
pub struct SwitchOpts {
    /// The name of the task to switch to.
    pub name: String,
    /// Refuse to switch to a task that is the only one running. Without
    /// this, such a switch stops the task and starts it again at once.
    pub reject_same: bool,
}

/// Whether the task `name` has the one and only ongoing session of `log`.
pub open spec fn is_sole_ongoing(log: Seq<EventView>, name: Seq<char>) -> bool {
    ongoing_sessions(log).len() == 1 && ongoing_sessions(log)[0].name == name
}

/// Whether `after` is `before` with every ongoing session stopped at
/// `time` and the start `started` recorded then.
pub open spec fn switched(
    before: Seq<EventView>,
    after: Seq<EventView>,
    time: i64,
    started: EventView,
) -> bool {
    exists|between: Seq<EventView>|
        {
            &&& #[trigger] recorded(
                before,
                between,
                ongoing_sessions(before),
                TaskState::Stopped,
                Some(time),
            )
            &&& !has_id(between, started.id)
            &&& after == log_insert(between, started)
        }
}

/// Stops every ongoing session at `time` and starts the task `name` at the
/// same time.
///
/// With `reject_same`, a switch to the task that alone is running is
/// refused with `SameTask`. A switch while nothing is running fails with
/// `NoTasks`. In both cases the log is left alone. Stopping all sessions
/// leaves no task with an open session, so the start is not refused as
/// `Ongoing`; it is refused, after the stops, only where the log holds the
/// identifier made up for it.
pub fn switch_at(s: &mut ShiftDb, name: String, time: i64, reject_same: bool) -> (r: Result<
    TaskEvent,
    SwitchError,
>)
    ensures
        match r {
            Ok(started) => {
                &&& !(reject_same && is_sole_ongoing(old(s)@, name@))
                &&& ongoing_sessions(old(s)@).len() > 0
                &&& started.name@ == name@
                &&& started.state == TaskState::Started
                &&& started.time == time
                &&& switched(old(s)@, final(s)@, time, started@)
            },
            Err(SwitchError::SameTask(task)) => {
                &&& reject_same && is_sole_ongoing(old(s)@, name@)
                &&& task@ == name@
                &&& final(s)@ == old(s)@
            },
            Err(SwitchError::Stop(Error::NoTasks)) => {
                &&& !(reject_same && is_sole_ongoing(old(s)@, name@))
                &&& ongoing_sessions(old(s)@).len() == 0
                &&& final(s)@ == old(s)@
            },
            Err(SwitchError::Stop(Error::UpdateError { count, task })) => {
                &&& !(reject_same && is_sole_ongoing(old(s)@, name@))
                &&& recorded_until(
                    old(s)@,
                    final(s)@,
                    ongoing_sessions(old(s)@),
                    TaskState::Stopped,
                    Some(time),
                    task@,
                )
            },
            Err(SwitchError::Start(StartError::SqlError(_))) => {
                &&& !(reject_same && is_sole_ongoing(old(s)@, name@))
                &&& recorded(
                    old(s)@,
                    final(s)@,
                    ongoing_sessions(old(s)@),
                    TaskState::Stopped,
                    Some(time),
                )
            },
            Err(SwitchError::Stop(Error::MultipleSessions(_))) => false,
            Err(SwitchError::Start(StartError::Ongoing(_))) => false,
        },
{
    if reject_same {
        let ongoing = s.ongoing_sessions();
        if ongoing.len() == 1 && same_text(ongoing[0].name.as_str(), name.as_str()) {
            return Err(SwitchError::SameTask(name));
        }
    }
    let everything = StopOpts { uid: None, all: true, stop_time: Some(time) };
    match stop(s, &everything) {
        Ok(()) => {},
        Err(e) => {
            return Err(SwitchError::Stop(e));
        },
    }
    let ghost between = s@;
    proof {
        law_stop_all_closes_every_session(old(s)@, between, Some(time));
    }
    match start_with(s, name, time, new_id(), new_id()) {
        Ok(started) => {
            assert(switched(old(s)@, s@, time, started@)) by {
                assert(recorded(
                    old(s)@,
                    between,
                    ongoing_sessions(old(s)@),
                    TaskState::Stopped,
                    Some(time),
                ));
            }
            Ok(started)
        },
        Err(e) => Err(SwitchError::Start(e)),
    }
}

/// Stops every ongoing session and starts the task that `args` names, both
/// at the clock's reading. See [`switch_at`].
pub fn switch(s: &mut ShiftDb, args: &SwitchOpts) -> (r: Result<TaskEvent, SwitchError>)
    ensures
        match r {
            Ok(started) => {
                &&& !(args.reject_same && is_sole_ongoing(old(s)@, args.name@))
                &&& ongoing_sessions(old(s)@).len() > 0
                &&& started.name@ == args.name@
                &&& started.state == TaskState::Started
                &&& switched(old(s)@, final(s)@, started.time, started@)
            },
            Err(SwitchError::SameTask(task)) => {
                &&& args.reject_same && is_sole_ongoing(old(s)@, args.name@)
                &&& task@ == args.name@
                &&& final(s)@ == old(s)@
            },
            Err(SwitchError::Stop(Error::NoTasks)) => {
                &&& !(args.reject_same && is_sole_ongoing(old(s)@, args.name@))
                &&& ongoing_sessions(old(s)@).len() == 0
                &&& final(s)@ == old(s)@
            },
            Err(SwitchError::Stop(Error::UpdateError { count, task })) => {
                &&& !(args.reject_same && is_sole_ongoing(old(s)@, args.name@))
                &&& recorded_until(
                    old(s)@,
                    final(s)@,
                    ongoing_sessions(old(s)@),
                    TaskState::Stopped,
                    None,
                    task@,
                )
            },
            Err(SwitchError::Start(StartError::SqlError(_))) => {
                &&& !(args.reject_same && is_sole_ongoing(old(s)@, args.name@))
                &&& recorded(
                    old(s)@,
                    final(s)@,
                    ongoing_sessions(old(s)@),
                    TaskState::Stopped,
                    None,
                )
            },
            Err(SwitchError::Stop(Error::MultipleSessions(_))) => false,
            Err(SwitchError::Start(StartError::Ongoing(_))) => false,
        },
{
    let time = now();
    let r = switch_at(s, args.name.clone(), time, args.reject_same);
    proof {
        crate::commands::lemma_recorded_at_any_time(
            old(s)@,
            s@,
            ongoing_sessions(old(s)@),
            TaskState::Stopped,
            time,
        );
    }
    r
}

} // verus!
