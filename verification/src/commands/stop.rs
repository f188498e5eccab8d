//! Stopping sessions.

use vstd::prelude::*;
use crate::commands::{record_for, recorded, recorded_until};
use crate::reconstruct::ongoing_sessions;
use crate::select::{select, select_spec, Selection, SelectionView};
use crate::shift_db::ShiftDb;
use crate::task_event::TaskEvent;
use crate::task_session::TaskSession;
use crate::task_state::TaskState;

verus! {

/// Why nothing, or not everything, was stopped.
#[derive(Debug, PartialEq, Eq)]
pub enum Error {
    /// The selector leaves open which of these sessions is meant.
    MultipleSessions(Vec<TaskSession>),
    /// The log took `count` events where one was to be recorded.
    UpdateError { count: usize, task: TaskEvent },
    /// No ongoing session fits the selector.
    NoTasks,
}

/// Which sessions to stop, and when.
#[derive(Debug)]
pub struct StopOpts {
    /// Names the session: a task name, or the end of a session identifier.
    pub uid: Option<String>,
    /// Stop every ongoing session if no `uid` is given.
    pub all: bool,
    /// The time of the stop; the clock's reading if none is given.
    pub stop_time: Option<i64>,
}

impl Default for StopOpts {
    fn default() -> (r: Self)
        ensures
            r.uid is None,
            !r.all,
            r.stop_time is None,
    {
        StopOpts { uid: None, all: false, stop_time: None }
    }
}

/// Stops the ongoing sessions that the selector of `args` picks.
///
/// The selector is resolved against all ongoing sessions. Where it picks
/// none the command fails with `NoTasks`, where it is ambiguous with
/// `MultipleSessions` and the sessions in question; the log is then left
/// alone. Otherwise one stop per target is recorded, all at one time.
/// `UpdateError` tells that the log refused the event it carries, whose
/// identifier was taken; stops recorded before it stay.
///
/// In particular, two or more ongoing sessions and a selector that names
/// none and does not ask for all are ambiguous: the error lists all the
/// ongoing sessions in their order.
pub fn stop(s: &mut ShiftDb, args: &StopOpts) -> (r: Result<(), Error>)
    ensures
        args.uid is None && !args.all && ongoing_sessions(old(s)@).len() >= 2 ==> (r matches Err(
            Error::MultipleSessions(sessions),
        ) && sessions.deep_view() == ongoing_sessions(old(s)@)),
        match r {
            Ok(()) => {
                &&& select_spec(
                    ongoing_sessions(old(s)@),
                    args.uid.deep_view(),
                    args.all,
                ) matches SelectionView::Targets(targets)
                &&& recorded(old(s)@, final(s)@, targets, TaskState::Stopped, args.stop_time)
            },
            Err(Error::NoTasks) => {
                &&& select_spec(ongoing_sessions(old(s)@), args.uid.deep_view(), args.all)
                    == SelectionView::Nothing
                &&& final(s)@ == old(s)@
            },
            Err(Error::MultipleSessions(sessions)) => {
                &&& select_spec(ongoing_sessions(old(s)@), args.uid.deep_view(), args.all)
                    == SelectionView::Ambiguous(sessions.deep_view())
                &&& final(s)@ == old(s)@
            },
            Err(Error::UpdateError { count, task }) => {
                &&& count == 0
                &&& select_spec(
                    ongoing_sessions(old(s)@),
                    args.uid.deep_view(),
                    args.all,
                ) matches SelectionView::Targets(targets)
                &&& recorded_until(
                    old(s)@,
                    final(s)@,
                    targets,
                    TaskState::Stopped,
                    args.stop_time,
                    task@,
                )
            },
        },
{
    let ongoing = s.ongoing_sessions();
    match select(ongoing, &args.uid, args.all) {
        Selection::Nothing => Err(Error::NoTasks),
        Selection::Ambiguous(sessions) => Err(Error::MultipleSessions(sessions)),
        Selection::Targets(targets) => {
            match record_for(s, &targets, TaskState::Stopped, args.stop_time) {
                Ok(()) => Ok(()),
                Err(task) => Err(Error::UpdateError { count: 0, task }),
            }
        },
    }
}

} // verus!
