//! Reading and correcting a single event.

use vstd::prelude::*;
use crate::shift_db::{has_id, log_revised, ShiftDb};
use crate::task_event::{EventView, TaskEvent};
use crate::text::{ends_with, is_suffix};

verus! {

/// Why no event was returned.
#[derive(Debug, PartialEq, Eq)]
pub enum Error {
    /// The log holds no event that fits.
    NoEventFound,
}

/// Which event to read.
#[derive(Debug)]
pub struct Opts {
    /// The end of the event's identifier; none for the newest event.
    pub uid: Option<String>,
}

impl Default for Opts {
    fn default() -> (r: Self)
        ensures
            r.uid is None,
    {
        Opts { uid: None }
    }
}

/// Why an event was not corrected.
#[derive(Debug, PartialEq, Eq)]
pub enum UpdateEventError {
    /// The log holds no event of this identifier.
    NotUpdated(String),
}

/// Whether the event at `i` is the oldest of `log` whose identifier ends
/// with `tail`.
pub open spec fn is_oldest_ending_with(log: Seq<EventView>, tail: Seq<char>, i: int) -> bool {
    &&& 0 <= i < log.len()
    &&& is_suffix(tail, log[i].id)
    &&& forall|k: int| i < k < log.len() ==> !is_suffix(tail, (#[trigger] log[k]).id)
}

/// Whether `found` is the oldest event of `log` whose identifier ends with
/// `tail`.
pub open spec fn is_oldest_match(log: Seq<EventView>, tail: Seq<char>, found: EventView) -> bool {
    exists|i: int| #[trigger] is_oldest_ending_with(log, tail, i) && found == log[i]
}

/// Whether some event of `log` has an identifier that ends with `tail`.
pub open spec fn some_ends_with(log: Seq<EventView>, tail: Seq<char>) -> bool {
    exists|k: int| 0 <= k < log.len() && is_suffix(tail, (#[trigger] log[k]).id)
}

/// One event of the log: with `opts.uid` the oldest event whose identifier
/// ends with it, without it the newest event of the log. Fails exactly when
/// there is no such event.
pub fn event(s: &ShiftDb, opts: &Opts) -> (r: Result<TaskEvent, Error>)
    ensures
        match (opts.uid, r) {
            (Some(tail), Ok(found)) => is_oldest_match(s@, tail@, found@),
            (Some(tail), Err(Error::NoEventFound)) => !some_ends_with(s@, tail@),
            (None, Ok(found)) => s@.len() > 0 && found@ == s@[0],
            (None, Err(Error::NoEventFound)) => s@.len() == 0,
        },
{
    let events = s.events();
    match &opts.uid {
        Some(tail) => {
            let mut i: usize = events.len();
            while i > 0
                invariant
                    i <= events.len(),
                    opts.uid == Some(*tail),
                    events.deep_view() == s@,
                    forall|k: int|
                        i <= k < events.len() ==> !is_suffix(tail@, (#[trigger] s@[k]).id),
                decreases i,
            {
                i -= 1;
                if ends_with(events[i].id.as_str(), tail.as_str()) {
                    let found = events[i].clone();
                    assert(is_oldest_ending_with(s@, tail@, i as int) && found@ == s@[i as int]);
                    return Ok(found);
                }
            }
            Err(Error::NoEventFound)
        },
        None => {
            if events.len() > 0 {
                Ok(events[0].clone())
            } else {
                Err(Error::NoEventFound)
            }
        },
    }
}

/// Corrects the event that `event` names by its identifier: it takes the
/// name, the state and the time of `updated_event`, and keeps its own
/// identifier and session. Fails exactly when the log holds no event of
/// that identifier, and then changes nothing.
pub fn update(s: &mut ShiftDb, event: TaskEvent, updated_event: TaskEvent) -> (r: Result<
    (),
    UpdateEventError,
>)
    ensures
        match r {
            Ok(()) => has_id(old(s)@, event.id@) && log_revised(
                old(s)@,
                final(s)@,
                event.id@,
                updated_event.name@,
                updated_event.state,
                updated_event.time,
            ),
            Err(UpdateEventError::NotUpdated(id)) => {
                &&& !has_id(old(s)@, event.id@)
                &&& id@ == event.id@
                &&& final(s)@ == old(s)@
            },
        },
{
    if s.revise(
        event.id.as_str(),
        updated_event.name,
        updated_event.state,
        updated_event.time,
    ) {
        Ok(())
    } else {
        Err(UpdateEventError::NotUpdated(event.id))
    }
}

} // verus!
