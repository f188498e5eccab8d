//! Taking a break and coming back.

use vstd::prelude::*;
use crate::commands::{record_for, recorded, recorded_in_part, recorded_until};
use crate::config::Config;
use crate::reconstruct::ongoing_sessions;
use crate::select::{select, select_spec, Selection, SelectionView};
use crate::shift_db::ShiftDb;
use crate::task_event::EventView;
use crate::task_session::{SessionView, TaskSession};
use crate::task_state::{transition, transition_spec, Command, TaskState};

verus! {

/// Why nothing, or not everything, was paused or resumed.
#[derive(Debug, PartialEq, Eq)]
pub enum PauseResumeError {
    /// The selector leaves open which of these sessions is meant.
    MultipleSessions(Vec<TaskSession>),
    /// Several sessions are paused and the selector does not say which to
    /// resume.
    MultiplePauses(Vec<TaskSession>),
    /// The log took another number of events than the one to be recorded.
    UpdateError(TaskSession),
    /// The log refused an event; the text says why.
    SqlError(String),
    /// No session fits the selector.
    NoTasks,
    /// No session is paused.
    NoPauses,
}

/// The predicate "is in a state in which `command` applies".
pub open spec fn accepts(command: Command) -> spec_fn(SessionView) -> bool {
    |session: SessionView| transition_spec(Some(session.state()), command) is Ok
}

/// The ongoing sessions to which `command` applies, by the rules for what
/// may follow what.
pub open spec fn eligible(log: Seq<EventView>, command: Command) -> Seq<SessionView> {
    ongoing_sessions(log).filter(accepts(command))
}

/// The sessions that can be paused: the ongoing ones that are running.
pub open spec fn pausable(log: Seq<EventView>) -> Seq<SessionView> {
    eligible(log, Command::Pause)
}

/// The sessions that can be resumed: the ongoing ones that are paused.
pub open spec fn resumable(log: Seq<EventView>) -> Seq<SessionView> {
    eligible(log, Command::Resume)
}

/// The sessions of `sessions` to which `command` applies, in their order.
pub fn accepting(sessions: &Vec<TaskSession>, command: Command) -> (r: Vec<TaskSession>)
    ensures
        r.deep_view() == sessions.deep_view().filter(accepts(command)),
{
    let ghost all = sessions.deep_view();
    let ghost wanted = accepts(command);
    let mut out: Vec<TaskSession> = Vec::new();
    let mut i: usize = 0;
    assert(all.take(0) =~= Seq::<SessionView>::empty());
    assert(out.deep_view() =~= all.take(0).filter(wanted)) by {
        reveal(Seq::filter);
    }
    while i < sessions.len()
        invariant
            i <= sessions.len(),
            all == sessions.deep_view(),
            wanted == accepts(command),
            out.deep_view() == all.take(i as int).filter(wanted),
        decreases sessions.len() - i,
    {
        let session = &sessions[i];
        proof {
            assert(all.take(i as int).push(all[i as int]) =~= all.take(i + 1));
            all.take(i as int).lemma_filter_push(all[i as int], wanted);
            assert(all[i as int] == session@);
        }
        if transition(Some(session.state()), command).is_ok() {
            let ghost before = out.deep_view();
            let copy = session.clone();
            out.push(copy);
            assert(out.deep_view() =~= before.push(session@));
        }
        i += 1;
    }
    assert(all.take(sessions.len() as int) =~= all);
    out
}

/// The text of the error for an event whose identifier the log holds.
fn refusal() -> (r: String)
    ensures
        r@ == refusal_text(),
{
    "an event of this identifier is recorded already".to_string()
}

/// What `SqlError` says of an event whose identifier the log holds.
pub open spec fn refusal_text() -> Seq<char> {
    "an event of this identifier is recorded already"@
}

/// Pauses the sessions that the selector of `args` picks among the ongoing
/// sessions that are running.
///
/// Where the selector picks none the command fails with `NoTasks`, where it
/// is ambiguous with `MultipleSessions` and the sessions in question; the
/// log is then left alone. Otherwise one pause per target is recorded, all
/// at the clock's reading. `SqlError` tells that the log refused one of the
/// events; pauses recorded before it stay.
///
/// In particular, two or more sessions that can be paused and a selector
/// that names none and does not ask for all are ambiguous: the error lists
/// all those sessions in their order.
pub fn pause(s: &mut ShiftDb, args: &Config) -> (r: Result<(), PauseResumeError>)
    ensures
        args.uid is None && !args.all && pausable(old(s)@).len() >= 2 ==> (r matches Err(
            PauseResumeError::MultipleSessions(sessions),
        ) && sessions.deep_view() == pausable(old(s)@)),
        match r {
            Ok(()) => {
                &&& select_spec(
                    pausable(old(s)@),
                    args.uid.deep_view(),
                    args.all,
                ) matches SelectionView::Targets(targets)
                &&& recorded(old(s)@, final(s)@, targets, TaskState::Paused, None)
            },
            Err(PauseResumeError::NoTasks) => {
                &&& select_spec(pausable(old(s)@), args.uid.deep_view(), args.all)
                    == SelectionView::Nothing
                &&& final(s)@ == old(s)@
            },
            Err(PauseResumeError::MultipleSessions(sessions)) => {
                &&& select_spec(pausable(old(s)@), args.uid.deep_view(), args.all)
                    == SelectionView::Ambiguous(sessions.deep_view())
                &&& final(s)@ == old(s)@
            },
            Err(PauseResumeError::SqlError(text)) => {
                &&& text@ == refusal_text()
                &&& select_spec(
                    pausable(old(s)@),
                    args.uid.deep_view(),
                    args.all,
                ) matches SelectionView::Targets(targets)
                &&& recorded_in_part(old(s)@, final(s)@, targets, TaskState::Paused, None)
            },
            Err(_) => false,
        },
{
    let candidates = accepting(&s.ongoing_sessions(), Command::Pause);
    match select(candidates, &args.uid, args.all) {
        Selection::Nothing => Err(PauseResumeError::NoTasks),
        Selection::Ambiguous(sessions) => Err(PauseResumeError::MultipleSessions(sessions)),
        Selection::Targets(targets) => {
            match record_for(s, &targets, TaskState::Paused, None) {
                Ok(()) => Ok(()),
                Err(refused) => {
                    assert(recorded_until(
                        old(s)@,
                        s@,
                        targets.deep_view(),
                        TaskState::Paused,
                        None,
                        refused@,
                    ));
                    Err(PauseResumeError::SqlError(refusal()))
                },
            }
        },
    }
}

/// Resumes the sessions that the selector of `args` picks among the ongoing
/// sessions that are paused.
///
/// Where the selector picks none the command fails, with `NoTasks` if it
/// names a session and with `NoPauses` if it names none. Where it is
/// ambiguous the command fails with the sessions in question, as
/// `MultipleSessions` if it names a session and as `MultiplePauses` if it
/// names none. The log is then left alone. Otherwise one resumption per
/// target is recorded, all at the clock's reading. `SqlError` tells that the
/// log refused one of the events; resumptions recorded before it stay.
///
/// In particular, two or more paused sessions and a selector that names
/// none and does not ask for all are ambiguous: the error lists all the
/// paused sessions in their order.
pub fn resume(s: &mut ShiftDb, args: &Config) -> (r: Result<(), PauseResumeError>)
    ensures
        args.uid is None && !args.all && resumable(old(s)@).len() >= 2 ==> (r matches Err(
            PauseResumeError::MultiplePauses(sessions),
        ) && sessions.deep_view() == resumable(old(s)@)),
        match r {
            Ok(()) => {
                &&& select_spec(
                    resumable(old(s)@),
                    args.uid.deep_view(),
                    args.all,
                ) matches SelectionView::Targets(targets)
                &&& recorded(old(s)@, final(s)@, targets, TaskState::Resumed, None)
            },
            Err(PauseResumeError::NoTasks) => {
                &&& args.uid is Some
                &&& select_spec(resumable(old(s)@), args.uid.deep_view(), args.all)
                    == SelectionView::Nothing
                &&& final(s)@ == old(s)@
            },
            Err(PauseResumeError::NoPauses) => {
                &&& args.uid is None
                &&& select_spec(resumable(old(s)@), args.uid.deep_view(), args.all)
                    == SelectionView::Nothing
                &&& final(s)@ == old(s)@
            },
            Err(PauseResumeError::MultipleSessions(sessions)) => {
                &&& args.uid is Some
                &&& select_spec(resumable(old(s)@), args.uid.deep_view(), args.all)
                    == SelectionView::Ambiguous(sessions.deep_view())
                &&& final(s)@ == old(s)@
            },
            Err(PauseResumeError::MultiplePauses(sessions)) => {
                &&& args.uid is None
                &&& select_spec(resumable(old(s)@), args.uid.deep_view(), args.all)
                    == SelectionView::Ambiguous(sessions.deep_view())
                &&& final(s)@ == old(s)@
            },
            Err(PauseResumeError::SqlError(text)) => {
                &&& text@ == refusal_text()
                &&& select_spec(
                    resumable(old(s)@),
                    args.uid.deep_view(),
                    args.all,
                ) matches SelectionView::Targets(targets)
                &&& recorded_in_part(old(s)@, final(s)@, targets, TaskState::Resumed, None)
            },
            Err(PauseResumeError::UpdateError(_)) => false,
        },
{
    let candidates = accepting(&s.ongoing_sessions(), Command::Resume);
    let named: bool = args.uid.is_some();
    match select(candidates, &args.uid, args.all) {
        Selection::Nothing => {
            if named {
                Err(PauseResumeError::NoTasks)
            } else {
                Err(PauseResumeError::NoPauses)
            }
        },
        Selection::Ambiguous(sessions) => {
            if named {
                Err(PauseResumeError::MultipleSessions(sessions))
            } else {
                Err(PauseResumeError::MultiplePauses(sessions))
            }
        },
        Selection::Targets(targets) => {
            match record_for(s, &targets, TaskState::Resumed, None) {
                Ok(()) => Ok(()),
                Err(refused) => {
                    assert(recorded_until(
                        old(s)@,
                        s@,
                        targets.deep_view(),
                        TaskState::Resumed,
                        None,
                        refused@,
                    ));
                    Err(PauseResumeError::SqlError(refusal()))
                },
            }
        },
    }
}

} // verus!
