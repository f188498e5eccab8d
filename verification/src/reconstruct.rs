//! Rebuilding sessions from a flat run of events.

use vstd::prelude::*;
use crate::task_event::{EventView, TaskEvent};
use crate::task_session::{SessionView, TaskSession};
use crate::task_state::TaskState;
use crate::text::same_text;

verus! {

/// What tells the events of one session from all others: the task's name
/// together with the session identifier.
pub struct SessionKey {
    pub name: Seq<char>,
    pub id: Seq<char>,
}

/// The session an event belongs to.
pub open spec fn key_of(e: EventView) -> SessionKey {
    SessionKey { name: e.name, id: e.session }
}

/// The predicate "belongs to the session `key`".
pub open spec fn of_session(key: SessionKey) -> spec_fn(EventView) -> bool {
    |e: EventView| key_of(e) == key
}

/// The sessions that occur in `events`, each once, in the order in which
/// they first occur.
pub open spec fn session_keys(events: Seq<EventView>) -> Seq<SessionKey>
    decreases events.len(),
{
    if events.len() == 0 {
        Seq::empty()
    } else {
        let before = session_keys(events.drop_last());
        let key = key_of(events.last());
        if before.contains(key) {
            before
        } else {
            before.push(key)
        }
    }
}

/// The session `key` as `events` shows it. The events are given newest
/// first; the session holds those of them that are its own, oldest first.
pub open spec fn session_for(events: Seq<EventView>, key: SessionKey) -> SessionView {
    SessionView { id: key.id, name: key.name, events: events.reverse().filter(of_session(key)) }
}

/// The sessions of `events`, which are given newest first: the session
/// with the most recent event comes first, and each session holds its
/// events oldest first.
pub open spec fn group_sessions(events: Seq<EventView>) -> Seq<SessionView> {
    let keys = session_keys(events);
    Seq::new(keys.len(), |i: int| session_for(events, keys[i]))
}

/// Whether `log` holds a stop for the session identifier `id`.
pub open spec fn is_stopped(log: Seq<EventView>, id: Seq<char>) -> bool {
    exists|i: int|
        0 <= i < log.len() && (#[trigger] log[i]).session == id && log[i].state
            == TaskState::Stopped
}

/// The predicate "belongs to a session that `log` has no stop for".
pub open spec fn is_open_in(log: Seq<EventView>) -> spec_fn(EventView) -> bool {
    |e: EventView| !is_stopped(log, e.session)
}

/// The events of `log` whose session has not been stopped.
pub open spec fn open_events(log: Seq<EventView>) -> Seq<EventView> {
    log.filter(is_open_in(log))
}

/// The ongoing sessions of `log`: those without a stop, the one whose
/// newest event is oldest first, each with its events oldest first.
pub open spec fn ongoing_sessions(log: Seq<EventView>) -> Seq<SessionView> {
    group_sessions(open_events(log)).reverse()
}

/// Every key that `session_keys` lists is the key of some event, every
/// event's key is listed, and none is listed twice.
pub proof fn lemma_session_keys(events: Seq<EventView>)
    ensures
        forall|i: int|
            0 <= i < events.len() ==> session_keys(events).contains(#[trigger] key_of(events[i])),
        forall|k: int|
            0 <= k < session_keys(events).len() ==> exists|i: int|
                0 <= i < events.len() && key_of(events[i]) == #[trigger] session_keys(events)[k],
        forall|a: int, b: int|
            0 <= a < b < session_keys(events).len() ==> session_keys(events)[a] != session_keys(
                events,
            )[b],
        session_keys(events).len() <= events.len(),
    decreases events.len(),
{
    if events.len() > 0 {
        let rest = events.drop_last();
        let before = session_keys(rest);
        let key = key_of(events.last());
        let keys = session_keys(events);
        lemma_session_keys(rest);
        assert forall|i: int| 0 <= i < events.len() implies keys.contains(
            #[trigger] key_of(events[i]),
        ) by {
            if i < rest.len() {
                assert(rest[i] == events[i]);
                assert(before.contains(key_of(rest[i])));
                let w = choose|w: int| 0 <= w < before.len() && before[w] == key_of(rest[i]);
                assert(keys[w] == key_of(events[i]));
            } else {
                if before.contains(key) {
                } else {
                    assert(keys[before.len() as int] == key);
                }
            }
        }
        assert forall|k: int| 0 <= k < keys.len() implies exists|i: int|
            0 <= i < events.len() && key_of(events[i]) == #[trigger] keys[k] by {
            if k < before.len() {
                assert(keys[k] == before[k]);
                let i = choose|i: int| 0 <= i < rest.len() && key_of(rest[i]) == before[k];
                assert(rest[i] == events[i]);
            } else {
                assert(key_of(events[events.len() - 1]) == keys[k]);
            }
        }
    }
}

/// Every session that grouping yields holds at least one event, and holds
/// only events of `events` that carry its name and identifier.
pub proof fn lemma_group_sessions(events: Seq<EventView>, k: int)
    requires
        0 <= k < group_sessions(events).len(),
    ensures
        group_sessions(events)[k].events.len() > 0,
        forall|i: int|
            0 <= i < group_sessions(events)[k].events.len() ==> {
                &&& (#[trigger] group_sessions(events)[k].events[i]).name == group_sessions(
                    events,
                )[k].name
                &&& group_sessions(events)[k].events[i].session == group_sessions(events)[k].id
                &&& events.contains(group_sessions(events)[k].events[i])
            },
{
    let keys = session_keys(events);
    let key = keys[k];
    let oldest_first = events.reverse();
    let members = oldest_first.filter(of_session(key));
    lemma_session_keys(events);
    let w = choose|w: int| 0 <= w < events.len() && key_of(events[w]) == keys[k];
    assert(oldest_first[events.len() - 1 - w] == events[w]);
    oldest_first.lemma_filter_contains(of_session(key), events.len() - 1 - w);
    assert forall|i: int| 0 <= i < members.len() implies {
        &&& (#[trigger] members[i]).name == key.name
        &&& members[i].session == key.id
        &&& events.contains(members[i])
    } by {
        oldest_first.lemma_filter_pred(of_session(key), i);
        assert(members.contains(members[i]));
        oldest_first.lemma_filter_contains_rev(of_session(key), members[i]);
        let j = choose|j: int| 0 <= j < oldest_first.len() && oldest_first[j] == members[i];
        assert(events[events.len() - 1 - j] == members[i]);
    }
}

/// Whether `keys` lists the session of `name` and `id`.
fn knows_session(keys: &Vec<TaskSession>, name: &str, id: &str) -> (r: bool)
    ensures
        r == exists|k: int|
            0 <= k < keys.len() && (#[trigger] keys[k]).name@ == name@ && keys[k].id@ == id@,
{
    let mut k: usize = 0;
    while k < keys.len()
        invariant
            k <= keys.len(),
            forall|j: int|
                0 <= j < k ==> !((#[trigger] keys[j]).name@ == name@ && keys[j].id@ == id@),
        decreases keys.len() - k,
    {
        if same_text(keys[k].name.as_str(), name) && same_text(keys[k].id.as_str(), id) {
            return true;
        }
        k += 1;
    }
    false
}

/// The events of one session among `events`, which are given newest
/// first; the result holds the oldest first.
pub fn session_events(events: &Vec<TaskEvent>, name: &str, id: &str) -> (r: Vec<TaskEvent>)
    ensures
        r.deep_view() == events.deep_view().reverse().filter(
            of_session(SessionKey { name: name@, id: id@ }),
        ),
{
    let ghost key = SessionKey { name: name@, id: id@ };
    let ghost all = events.deep_view().reverse();
    let n: usize = events.len();
    let mut out: Vec<TaskEvent> = Vec::new();
    let mut k: usize = 0;
    assert(all.take(0) =~= Seq::<EventView>::empty());
    assert(out.deep_view() =~= all.take(0).filter(of_session(key))) by {
        reveal(Seq::filter);
    }
    while k < n
        invariant
            k <= n,
            n == events.len(),
            all == events.deep_view().reverse(),
            key == (SessionKey { name: name@, id: id@ }),
            out.deep_view() == all.take(k as int).filter(of_session(key)),
        decreases n - k,
    {
        let e = &events[n - 1 - k];
        proof {
            assert(all.take(k as int).push(all[k as int]) =~= all.take(k + 1));
            all.take(k as int).lemma_filter_push(all[k as int], of_session(key));
            assert(all[k as int] == e@);
        }
        if same_text(e.name.as_str(), name) && same_text(e.session.as_str(), id) {
            let ghost before = out.deep_view();
            out.push(e.clone());
            assert(out.deep_view() =~= before.push(e@));
        }
        k += 1;
    }
    assert(all.take(n as int) =~= all);
    out
}

/// Groups `events`, which are given newest first, into sessions. The
/// session with the most recent event comes first, and each session holds
/// its events oldest first.
pub fn group(events: &Vec<TaskEvent>) -> (r: Vec<TaskSession>)
    ensures
        r.deep_view() == group_sessions(events.deep_view()),
{
    let ghost all = events.deep_view();
    let mut heads: Vec<TaskSession> = Vec::new();
    let mut i: usize = 0;
    assert(all.take(0) =~= Seq::<EventView>::empty());
    while i < events.len()
        invariant
            i <= events.len(),
            all == events.deep_view(),
            heads.len() == session_keys(all.take(i as int)).len(),
            forall|k: int|
                0 <= k < heads.len() ==> (#[trigger] heads[k]).name@ == session_keys(
                    all.take(i as int),
                )[k].name && heads[k].id@ == session_keys(all.take(i as int))[k].id,
        decreases events.len() - i,
    {
        let e = &events[i];
        let ghost before = session_keys(all.take(i as int));
        proof {
            assert(all.take(i + 1).drop_last() =~= all.take(i as int));
            assert(all.take(i + 1).last() == e@);
            if before.contains(key_of(e@)) {
                let w = choose|w: int| 0 <= w < before.len() && before[w] == key_of(e@);
                assert(heads[w].name@ == e@.name && heads[w].id@ == e@.session);
            }
            if exists|k: int|
                0 <= k < heads.len() && (#[trigger] heads[k]).name@ == e.name@ && heads[k].id@
                    == e.session@ {
                let k = choose|k: int|
                    0 <= k < heads.len() && (#[trigger] heads[k]).name@ == e.name@ && heads[k].id@
                        == e.session@;
                assert(before[k] == key_of(e@));
            }
        }
        if !knows_session(&heads, e.name.as_str(), e.session.as_str()) {
            heads.push(
                TaskSession { id: e.session.clone(), name: e.name.clone(), events: Vec::new() },
            );
        }
        i += 1;
    }
    assert(all.take(events.len() as int) =~= all);
    let ghost keys = session_keys(all);
    let mut out: Vec<TaskSession> = Vec::new();
    let mut j: usize = 0;
    while j < heads.len()
        invariant
            j <= heads.len(),
            all == events.deep_view(),
            keys == session_keys(all),
            heads.len() == keys.len(),
            forall|k: int|
                0 <= k < heads.len() ==> (#[trigger] heads[k]).name@ == keys[k].name && heads[k].id@
                    == keys[k].id,
            out.len() == j,
            forall|k: int| 0 <= k < j ==> (#[trigger] out[k])@ == session_for(all, keys[k]),
        decreases heads.len() - j,
    {
        let head = &heads[j];
        let members = session_events(events, head.name.as_str(), head.id.as_str());
        assert(SessionKey { name: head.name@, id: head.id@ } == keys[j as int]);
        out.push(TaskSession { id: head.id.clone(), name: head.name.clone(), events: members });
        j += 1;
    }
    assert(out.deep_view() =~= group_sessions(all));
    out
}

/// Whether `events` holds a stop for the session identifier `id`.
pub fn stopped_in(events: &Vec<TaskEvent>, id: &str) -> (r: bool)
    ensures
        r == is_stopped(events.deep_view(), id@),
{
    let mut i: usize = 0;
    while i < events.len()
        invariant
            i <= events.len(),
            forall|k: int|
                0 <= k < i ==> !((#[trigger] events.deep_view()[k]).session == id@
                    && events.deep_view()[k].state == TaskState::Stopped),
        decreases events.len() - i,
    {
        if events[i].state == TaskState::Stopped && same_text(events[i].session.as_str(), id) {
            assert(events.deep_view()[i as int].session == id@);
            return true;
        }
        i += 1;
    }
    false
}

/// The events whose session has no stop among `events`, in their order.
pub fn unstopped(events: &Vec<TaskEvent>) -> (r: Vec<TaskEvent>)
    ensures
        r.deep_view() == open_events(events.deep_view()),
{
    let ghost all = events.deep_view();
    let mut out: Vec<TaskEvent> = Vec::new();
    let mut i: usize = 0;
    assert(all.take(0) =~= Seq::<EventView>::empty());
    assert(out.deep_view() =~= all.take(0).filter(is_open_in(all))) by {
        reveal(Seq::filter);
    }
    while i < events.len()
        invariant
            i <= events.len(),
            all == events.deep_view(),
            out.deep_view() == all.take(i as int).filter(is_open_in(all)),
        decreases events.len() - i,
    {
        let e = &events[i];
        proof {
            assert(all.take(i as int).push(all[i as int]) =~= all.take(i + 1));
            all.take(i as int).lemma_filter_push(all[i as int], is_open_in(all));
            assert(all[i as int] == e@);
        }
        if !stopped_in(events, e.session.as_str()) {
            let ghost before = out.deep_view();
            out.push(e.clone());
            assert(out.deep_view() =~= before.push(e@));
        }
        i += 1;
    }
    assert(all.take(events.len() as int) =~= all);
    out
}

/// The sessions of `sessions` in the opposite order.
pub fn reversed(sessions: Vec<TaskSession>) -> (r: Vec<TaskSession>)
    ensures
        r.deep_view() == sessions.deep_view().reverse(),
{
    let ghost all = sessions.deep_view();
    let mut rest = sessions;
    let mut out: Vec<TaskSession> = Vec::new();
    while rest.len() > 0
        invariant
            rest.len() + out.len() == all.len(),
            forall|k: int| 0 <= k < rest.len() ==> (#[trigger] rest[k])@ == all[k],
            forall|k: int| 0 <= k < out.len() ==> (#[trigger] out[k])@ == all[all.len() - 1 - k],
        decreases rest.len(),
    {
        let last = rest.pop();
        match last {
            Some(session) => {
                out.push(session);
            },
            None => {},
        }
    }
    assert(out.deep_view() =~= all.reverse());
    out
}

/// The ongoing sessions among `events`, which are read newest first.
pub fn ongoing(events: &Vec<TaskEvent>) -> (r: Vec<TaskSession>)
    ensures
        r.deep_view() == ongoing_sessions(events.deep_view()),
{
    let open = unstopped(events);
    reversed(group(&open))
}

/// Whether some session named `name` has no stop in `log`.
pub open spec fn has_open_session(log: Seq<EventView>, name: Seq<char>) -> bool {
    exists|i: int|
        0 <= i < log.len() && (#[trigger] log[i]).name == name && !is_stopped(log, log[i].session)
}

/// Whether `events` shows an open session of the task `name`.
pub fn has_open(events: &Vec<TaskEvent>, name: &str) -> (r: bool)
    ensures
        r == has_open_session(events.deep_view(), name@),
{
    let ghost all = events.deep_view();
    let mut i: usize = 0;
    while i < events.len()
        invariant
            i <= events.len(),
            all == events.deep_view(),
            forall|k: int|
                0 <= k < i ==> !((#[trigger] all[k]).name == name@ && !is_stopped(
                    all,
                    all[k].session,
                )),
        decreases events.len() - i,
    {
        if same_text(events[i].name.as_str(), name) && !stopped_in(
            events,
            events[i].session.as_str(),
        ) {
            assert(all[i as int].name == name@);
            return true;
        }
        i += 1;
    }
    false
}

} // verus!
