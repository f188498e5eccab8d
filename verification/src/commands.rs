//! The commands of the engine. Each one reads the sessions it may act on
//! from the log, settles which of them the caller means, and records the
//! events that follow.

pub mod event;
pub mod events;
pub mod pause;
pub mod sessions;
pub mod start;
pub mod status;
pub mod stop;
pub mod switch;
pub mod undo;

use vstd::prelude::*;
use crate::clock::time_or_now;
use crate::ident::new_id;
use crate::shift_db::{has_id, insert_all, ShiftDb};
use crate::task_event::{EventView, TaskEvent};
use crate::task_session::{SessionView, TaskSession};
use crate::task_state::TaskState;

verus! {

/// Whether `events` records `state` once for each of `targets`, in their
/// order and all at one time, which is `at` where the caller chose one.
pub open spec fn batch_for(
    targets: Seq<SessionView>,
    state: TaskState,
    at: Option<i64>,
    events: Seq<EventView>,
) -> bool {
    &&& events.len() == targets.len()
    &&& forall|i: int|
        0 <= i < events.len() ==> {
            &&& (#[trigger] events[i]).name == targets[i].name
            &&& events[i].session == targets[i].id
            &&& events[i].state == state
            &&& events[i].time == events[0].time
            &&& (at matches Some(t) ==> events[i].time == t)
        }
}

/// One fresh event of kind `state` at `time` for each of `targets`.
pub fn make_batch(targets: &Vec<TaskSession>, state: TaskState, time: i64) -> (r: Vec<TaskEvent>)
    ensures
        batch_for(targets.deep_view(), state, Some(time), r.deep_view()),
{
    let mut out: Vec<TaskEvent> = Vec::new();
    let mut i: usize = 0;
    while i < targets.len()
        invariant
            i <= targets.len(),
            out.len() == i,
            forall|k: int|
                0 <= k < i ==> {
                    &&& (#[trigger] out[k]).name@ == targets[k].name@
                    &&& out[k].session@ == targets[k].id@
                    &&& out[k].state == state
                    &&& out[k].time == time
                },
        decreases targets.len() - i,
    {
        let target = &targets[i];
        out.push(
            TaskEvent {
                id: new_id(),
                name: target.name.clone(),
                session: target.id.clone(),
                state,
                time,
            },
        );
        i += 1;
    }
    out
}

/// Whether `after` is `before` with `state` recorded once for each of
/// `targets`, in their order and all at one time, which is `at` where the
/// caller chose one.
pub open spec fn recorded(
    before: Seq<EventView>,
    after: Seq<EventView>,
    targets: Seq<SessionView>,
    state: TaskState,
    at: Option<i64>,
) -> bool {
    exists|events: Seq<EventView>|
        {
            &&& #[trigger] batch_for(targets, state, at, events)
            &&& after == insert_all(before, events)
        }
}

/// Whether `after` is `before` with `state` recorded for the first few of
/// `targets` only, because the log refused the event `refused` that was
/// made for the next one.
pub open spec fn recorded_until(
    before: Seq<EventView>,
    after: Seq<EventView>,
    targets: Seq<SessionView>,
    state: TaskState,
    at: Option<i64>,
    refused: EventView,
) -> bool {
    exists|events: Seq<EventView>, done: int|
        {
            &&& #[trigger] batch_for(targets, state, at, events)
            &&& 0 <= done < events.len()
            &&& after == insert_all(before, #[trigger] events.take(done))
            &&& refused == events[done]
            &&& has_id(after, refused.id)
        }
}

/// Whether `after` is `before` with `state` recorded for the first few of
/// `targets` only, because the log refused the event made for the next.
pub open spec fn recorded_in_part(
    before: Seq<EventView>,
    after: Seq<EventView>,
    targets: Seq<SessionView>,
    state: TaskState,
    at: Option<i64>,
) -> bool {
    exists|refused: EventView| #[trigger] recorded_until(before, after, targets, state, at, refused)
}

/// A batch made at a time that the caller chose, or at any time where the
/// caller chose none, is a batch for the caller's choice.
pub proof fn lemma_batch_at(
    targets: Seq<SessionView>,
    state: TaskState,
    at: Option<i64>,
    time: i64,
    events: Seq<EventView>,
)
    requires
        batch_for(targets, state, Some(time), events),
        at matches Some(t) ==> t == time,
    ensures
        batch_for(targets, state, at, events),
{
}

/// What was recorded at a given time was recorded at a time of the
/// engine's choosing.
pub proof fn lemma_recorded_at_any_time(
    before: Seq<EventView>,
    after: Seq<EventView>,
    targets: Seq<SessionView>,
    state: TaskState,
    time: i64,
)
    ensures
        recorded(before, after, targets, state, Some(time)) ==> recorded(
            before,
            after,
            targets,
            state,
            None,
        ),
        forall|refused: EventView| #[trigger]
            recorded_until(before, after, targets, state, Some(time), refused)
                ==> recorded_until(before, after, targets, state, None, refused),
{
    if recorded(before, after, targets, state, Some(time)) {
        let events = choose|events: Seq<EventView>|
            {
                &&& #[trigger] batch_for(targets, state, Some(time), events)
                &&& after == insert_all(before, events)
            };
        assert(batch_for(targets, state, None, events));
    }
    assert forall|refused: EventView| #[trigger]
        recorded_until(before, after, targets, state, Some(time), refused) implies recorded_until(
        before,
        after,
        targets,
        state,
        None,
        refused,
    ) by {
        let (events, done) = choose|events: Seq<EventView>, done: int|
            {
                &&& #[trigger] batch_for(targets, state, Some(time), events)
                &&& 0 <= done < events.len()
                &&& after == insert_all(before, #[trigger] events.take(done))
                &&& refused == events[done]
                &&& has_id(after, refused.id)
            };
        assert(batch_for(targets, state, None, events) && after == insert_all(
            before,
            events.take(done),
        ));
    }
}

/// Records `state` for each of `targets`, every event under a fresh
/// identifier and all at one time: `at`, or the clock's reading where `at`
/// is none. Should the log refuse one of the events, the earlier ones stay
/// recorded and the refused one comes back.
pub fn record_for(
    s: &mut ShiftDb,
    targets: &Vec<TaskSession>,
    state: TaskState,
    at: Option<i64>,
) -> (r: Result<(), TaskEvent>)
    ensures
        match r {
            Ok(()) => recorded(old(s)@, final(s)@, targets.deep_view(), state, at),
            Err(refused) => recorded_until(
                old(s)@,
                final(s)@,
                targets.deep_view(),
                state,
                at,
                refused@,
            ),
        },
{
    let time = time_or_now(at);
    let events = make_batch(targets, state, time);
    let ghost before = s@;
    let r = s.record(&events);
    proof {
        let all = events.deep_view();
        let done = crate::shift_db::accepted(before, all) as int;
        lemma_batch_at(targets.deep_view(), state, at, time, all);
        if r is Ok {
            assert(all.take(done) =~= all);
            assert(batch_for(targets.deep_view(), state, at, all) && s@ == insert_all(
                before,
                all,
            ));
        } else {
            assert(batch_for(targets.deep_view(), state, at, all) && 0 <= done < all.len() && s@
                == insert_all(before, all.take(done)));
        }
    }
    r
}

} // verus!
