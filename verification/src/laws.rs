//! What holds of the engine as a whole, proved from the definitions that
//! the commands' contracts are stated in.

use vstd::prelude::*;
use crate::commands::pause::{accepts, eligible};
use crate::commands::{batch_for, recorded};
use crate::reconstruct::{
    group_sessions, has_open_session, is_open_in, is_stopped, key_of, lemma_group_sessions,
    lemma_session_keys, of_session, ongoing_sessions, open_events, session_for, session_keys,
    SessionKey,
};
use crate::select::{select_spec, SelectionView};
use crate::shift_db::{
    has_id, insert_all, later_than, lemma_filter_keeps_all, lemma_filter_suffix, lemma_insert_at,
    lemma_insert_wf,
    log_insert, log_undo, log_wf, newest_first, not_at, not_later_than,
};
use crate::task_event::EventView;
use crate::task_session::{
    elapsed_at, event_ok, lemma_closed_times, paused_at, valid_timeline, SessionView,
};
use crate::task_state::{transition_spec, Command, Rejection, TaskState};

verus! {

/// A session that was started and then stopped, with no break between,
/// has run from its start to its stop and was never paused, whatever the
/// time is now.
pub proof fn law_start_then_stop(started: EventView, stopped: EventView, now: i64)
    requires
        started.state == TaskState::Started,
        stopped.state == TaskState::Stopped,
    ensures
        elapsed_at(seq![started, stopped], now) == stopped.time - started.time,
        paused_at(seq![started, stopped], now) == 0,
        started.time <= stopped.time ==> valid_timeline(seq![started, stopped]),
{
    let timeline = seq![started, stopped];
    reveal_with_fuel(crate::task_session::closed_time, 3);
    assert(timeline.drop_last() =~= seq![started]);
}

/// A session with one break between its start and its stop spent all the
/// time from start to stop either running or paused.
pub proof fn law_one_break(
    started: EventView,
    paused: EventView,
    resumed: EventView,
    stopped: EventView,
    now: i64,
)
    requires
        started.state == TaskState::Started,
        paused.state == TaskState::Paused,
        resumed.state == TaskState::Resumed,
        stopped.state == TaskState::Stopped,
    ensures
        elapsed_at(seq![started, paused, resumed, stopped], now) + paused_at(
            seq![started, paused, resumed, stopped],
            now,
        ) == stopped.time - started.time,
        elapsed_at(seq![started, paused, resumed, stopped], now) == (paused.time - started.time)
            + (stopped.time - resumed.time),
        paused_at(seq![started, paused, resumed, stopped], now) == resumed.time - paused.time,
{
    let timeline = seq![started, paused, resumed, stopped];
    reveal_with_fuel(crate::task_session::closed_time, 5);
    assert(timeline.drop_last() =~= seq![started, paused, resumed]);
    assert(timeline.drop_last().drop_last() =~= seq![started, paused]);
    assert(timeline.drop_last().drop_last().drop_last() =~= seq![started]);
}

/// Whatever the breaks of a session with a legal timeline, its elapsed and
/// its paused time are what passed between its first event and its stop,
/// or the present moment if it was not stopped; neither is negative unless
/// `now` lies before the newest event.
pub proof fn law_times_span_session(timeline: Seq<EventView>, now: i64)
    requires
        valid_timeline(timeline),
        timeline.len() > 0,
    ensures
        elapsed_at(timeline, now) + paused_at(timeline, now) == (if timeline.last().state
            == TaskState::Stopped {
            timeline.last().time as int
        } else {
            now as int
        }) - timeline[0].time,
        timeline.last().time <= now ==> 0 <= elapsed_at(timeline, now) && 0 <= paused_at(
            timeline,
            now,
        ),
{
    lemma_closed_times(timeline);
}

/// The position at which a log that is read newest first records an event
/// of time `t`: behind the events that are later, before all others.
pub proof fn lemma_insert_position(log: Seq<EventView>, e: EventView) -> (p: int)
    requires
        newest_first(log),
    ensures
        0 <= p <= log.len(),
        forall|i: int| 0 <= i < p ==> (#[trigger] log[i]).time > e.time,
        forall|i: int| p <= i < log.len() ==> (#[trigger] log[i]).time <= e.time,
        log_insert(log, e) == log.insert(p, e),
    decreases log.len(),
{
    let p = if log.len() == 0 {
        0
    } else if log.last().time > e.time {
        assert forall|i: int| 0 <= i < log.len() implies (#[trigger] log[i]).time > e.time by {
            assert(log[i].time >= log[log.len() - 1].time);
        }
        log.len() as int
    } else {
        let rest = log.drop_last();
        assert forall|i: int, j: int| 0 <= i <= j < rest.len() implies rest[i].time
            >= rest[j].time by {
            assert(log[i].time >= log[j].time);
        }
        let p = lemma_insert_position(rest, e);
        assert forall|i: int| 0 <= i < p implies (#[trigger] log[i]).time > e.time by {
            assert(rest[i] == log[i]);
        }
        assert forall|i: int| p <= i < log.len() implies (#[trigger] log[i]).time <= e.time by {
            if i < rest.len() {
                assert(rest[i] == log[i]);
            }
        }
        p
    };
    lemma_insert_at(log, e, p);
    p
}

/// Recording an event under a new identifier keeps a log well formed and
/// makes it one event longer.
pub proof fn law_insert_keeps_log(log: Seq<EventView>, e: EventView)
    requires
        log_wf(log),
        !has_id(log, e.id),
    ensures
        log_wf(log_insert(log, e)),
        log_insert(log, e).len() == log.len() + 1,
{
    let p = lemma_insert_position(log, e);
    lemma_insert_wf(log, e, p);
}

/// Whether all open events of the task `name` belong to one session.
pub open spec fn at_most_one_open(log: Seq<EventView>, name: Seq<char>) -> bool {
    forall|i: int, j: int|
        0 <= i < log.len() && 0 <= j < log.len() && (#[trigger] log[i]).name == name
            && !is_stopped(log, log[i].session) && (#[trigger] log[j]).name == name && !is_stopped(
            log,
            log[j].session,
        ) ==> log[i].session == log[j].session
}

/// Starting a task that has no open session leaves it with exactly the
/// session just started: a start never makes a second open session of one
/// name. (A start is refused while the task has an open session; see
/// `start`.)
pub proof fn law_start_opens_one_session(log: Seq<EventView>, started: EventView)
    requires
        log_wf(log),
        !has_open_session(log, started.name),
        started.state == TaskState::Started,
    ensures
        at_most_one_open(log_insert(log, started), started.name),
{
    let p = lemma_insert_position(log, started);
    let after = log.insert(p, started);
    assert forall|i: int, j: int|
        0 <= i < after.len() && 0 <= j < after.len() && (#[trigger] after[i]).name == started.name
            && !is_stopped(after, after[i].session) && (#[trigger] after[j]).name == started.name
            && !is_stopped(after, after[j].session) implies after[i].session
        == after[j].session by {
        lemma_open_after_start(log, started, p, i);
        lemma_open_after_start(log, started, p, j);
    }
}

/// After a start, an open event of the started task can only be the start
/// itself.
proof fn lemma_open_after_start(log: Seq<EventView>, started: EventView, p: int, i: int)
    requires
        0 <= p <= log.len(),
        !has_open_session(log, started.name),
        started.state == TaskState::Started,
        0 <= i <= log.len(),
        log.insert(p, started)[i].name == started.name,
        !is_stopped(log.insert(p, started), log.insert(p, started)[i].session),
    ensures
        i == p,
{
    let after = log.insert(p, started);
    if i != p {
        let k = if i < p { i } else { i - 1 };
        assert(after[i] == log[k]);
        assert(log[k].name == started.name);
        assert(is_stopped(log, log[k].session));
        let w = choose|w: int|
            0 <= w < log.len() && (#[trigger] log[w]).session == log[k].session && log[w].state
                == TaskState::Stopped;
        let w2 = if w < p { w } else { w + 1 };
        assert(after[w2] == log[w]);
        assert(is_stopped(after, after[i].session));
    }
}

/// Events recorded one after another at one time that is later than all
/// of the log stand in front of the log, the last recorded first.
pub proof fn lemma_insert_all_in_front(log: Seq<EventView>, events: Seq<EventView>)
    requires
        newest_first(log),
        forall|k: int|
            0 <= k < events.len() ==> (#[trigger] events[k]).time == events[0].time,
        forall|i: int|
            0 <= i < log.len() && events.len() > 0 ==> (#[trigger] log[i]).time < events[0].time,
    ensures
        insert_all(log, events) == events.reverse() + log,
    decreases events.len(),
{
    if events.len() == 0 {
        assert(events.reverse() + log =~= log);
    } else {
        let rest = events.drop_last();
        let last = events.last();
        assert(forall|k: int| 0 <= k < rest.len() ==> rest[k] == events[k]);
        lemma_insert_all_in_front(log, rest);
        let before = rest.reverse() + log;
        assert(last.time == events[0].time);
        assert forall|i: int| 0 <= i < before.len() implies (#[trigger] before[i]).time
            <= last.time by {
            if i < rest.len() {
                assert(before[i] == rest[rest.len() - 1 - i]);
            } else {
                assert(before[i] == log[i - rest.len()]);
            }
        }
        assert forall|i: int, j: int| 0 <= i <= j < before.len() implies before[i].time
            >= before[j].time by {
            if j < rest.len() {
                assert(before[i] == rest[rest.len() - 1 - i]);
                assert(before[j] == rest[rest.len() - 1 - j]);
            } else if i < rest.len() {
                assert(before[i] == rest[rest.len() - 1 - i]);
                assert(before[j] == log[j - rest.len()]);
            } else {
                assert(before[i] == log[i - rest.len()]);
                assert(before[j] == log[j - rest.len()]);
            }
        }
        lemma_insert_at(before, last, 0);
        assert(before.insert(0, last) =~= events.reverse() + log);
    }
}

/// Undo after a command that recorded several events at one time, later
/// than all before it, removes exactly those events and gives back the log
/// as it was.
pub proof fn law_undo_reverts_batch(log: Seq<EventView>, events: Seq<EventView>)
    requires
        log_wf(log),
        events.len() > 0,
        forall|k: int|
            0 <= k < events.len() ==> (#[trigger] events[k]).time == events[0].time,
        forall|i: int| 0 <= i < log.len() ==> (#[trigger] log[i]).time < events[0].time,
    ensures
        log_undo(insert_all(log, events)) == log,
        insert_all(log, events).len() - log_undo(insert_all(log, events)).len() == events.len(),
{
    lemma_insert_all_in_front(log, events);
    let n = events.len() as int;
    let t = events[0].time;
    let after = events.reverse() + log;
    assert(after[0] == events[n - 1]);
    assert forall|i: int| 0 <= i < n implies !not_at(t)(#[trigger] after[i]) by {
        assert(after[i] == events[n - 1 - i]);
    }
    assert forall|i: int| n <= i < after.len() implies not_at(t)(#[trigger] after[i]) by {
        assert(after[i] == log[i - n]);
    }
    lemma_filter_suffix(after, n, not_at(t));
    assert(after.skip(n) =~= log);
}

/// Undo after a command that recorded one event, later than all before it,
/// gives back the log as it was: every query then answers as it did before
/// the command.
pub proof fn law_undo_reverts_event(log: Seq<EventView>, e: EventView)
    requires
        log_wf(log),
        forall|i: int| 0 <= i < log.len() ==> (#[trigger] log[i]).time < e.time,
    ensures
        log_undo(log_insert(log, e)) == log,
        log_insert(log, e).len() - log_undo(log_insert(log, e)).len() == 1,
{
    let events = seq![e];
    assert(events.drop_last() =~= Seq::<EventView>::empty());
    assert(insert_all(log, events) == log_insert(log, e)) by {
        reveal_with_fuel(insert_all, 2);
    }
    law_undo_reverts_batch(log, events);
}

/// Undo after a command that acted on several sessions at once, at a time
/// later than all before it, removes one event for each of those sessions
/// and gives back the log as it was.
pub proof fn law_undo_reverts_command(
    before: Seq<EventView>,
    after: Seq<EventView>,
    targets: Seq<SessionView>,
    state: TaskState,
    time: i64,
)
    requires
        log_wf(before),
        targets.len() > 0,
        recorded(before, after, targets, state, Some(time)),
        forall|i: int| 0 <= i < before.len() ==> (#[trigger] before[i]).time < time,
    ensures
        log_undo(after) == before,
        after.len() - log_undo(after).len() == targets.len(),
{
    let events = choose|events: Seq<EventView>|
        {
            &&& #[trigger] batch_for(targets, state, Some(time), events)
            &&& after == insert_all(before, events)
        };
    assert(events[0].time == time);
    law_undo_reverts_batch(before, events);
}

/// Without an identifier and without `all`, two or more candidates are
/// ambiguous, and the candidates in question are all of them in their
/// order.
pub proof fn law_several_candidates_are_ambiguous(candidates: Seq<SessionView>)
    requires
        candidates.len() >= 2,
    ensures
        select_spec(candidates, None, false) == SelectionView::Ambiguous(candidates),
{
}

/// A log holds, after an event was recorded, that event and what it held
/// before, and nothing else.
pub proof fn lemma_insert_members(log: Seq<EventView>, e: EventView)
    ensures
        forall|x: EventView| #[trigger]
            log_insert(log, e).contains(x) <==> (x == e || log.contains(x)),
{
    let later = log.filter(later_than(e.time));
    let rest = log.filter(not_later_than(e.time));
    let after = log_insert(log, e);
    assert forall|x: EventView| #[trigger] after.contains(x) <==> (x == e || log.contains(x)) by {
        if after.contains(x) {
            let i = choose|i: int| 0 <= i < after.len() && after[i] == x;
            if i < later.len() {
                assert(later[i] == x);
                assert(later.contains(x));
                log.lemma_filter_contains_rev(later_than(e.time), x);
            } else if i > later.len() {
                assert(rest[i - later.len() - 1] == x);
                assert(rest.contains(x));
                log.lemma_filter_contains_rev(not_later_than(e.time), x);
            }
        }
        if x == e {
            assert(after[later.len() as int] == e);
        } else if log.contains(x) {
            let k = choose|k: int| 0 <= k < log.len() && log[k] == x;
            if x.time > e.time {
                log.lemma_filter_contains(later_than(e.time), k);
                let i = choose|i: int| 0 <= i < later.len() && later[i] == x;
                assert(after[i] == x);
            } else {
                log.lemma_filter_contains(not_later_than(e.time), k);
                let i = choose|i: int| 0 <= i < rest.len() && rest[i] == x;
                assert(after[later.len() + 1 + i] == x);
            }
        }
    }
}

/// A log holds, after a run of events was recorded, those events and what
/// it held before, and nothing else.
pub proof fn lemma_insert_all_members(log: Seq<EventView>, events: Seq<EventView>)
    ensures
        forall|x: EventView| #[trigger]
            insert_all(log, events).contains(x) <==> (events.contains(x) || log.contains(x)),
    decreases events.len(),
{
    if events.len() == 0 {
    } else {
        let rest = events.drop_last();
        let last = events.last();
        lemma_insert_all_members(log, rest);
        lemma_insert_members(insert_all(log, rest), last);
        assert forall|x: EventView| #[trigger]
            insert_all(log, events).contains(x) <==> (events.contains(x) || log.contains(
                x,
            )) by {
            if rest.contains(x) {
                let i = choose|i: int| 0 <= i < rest.len() && rest[i] == x;
                assert(events[i] == x);
            }
            if events.contains(x) {
                let i = choose|i: int| 0 <= i < events.len() && events[i] == x;
                if i < rest.len() {
                    assert(rest[i] == x);
                }
            }
            assert(events[events.len() - 1] == last);
        }
    }
}

/// After every ongoing session was stopped, no task has an open session.
pub proof fn law_stop_all_closes_every_session(
    before: Seq<EventView>,
    after: Seq<EventView>,
    at: Option<i64>,
)
    requires
        recorded(before, after, ongoing_sessions(before), TaskState::Stopped, at),
    ensures
        forall|name: Seq<char>| !has_open_session(after, name),
{
    let targets = ongoing_sessions(before);
    let events = choose|events: Seq<EventView>|
        {
            &&& #[trigger] batch_for(targets, TaskState::Stopped, at, events)
            &&& after == insert_all(before, events)
        };
    lemma_insert_all_members(before, events);
    let open = open_events(before);
    let keys = session_keys(open);
    lemma_session_keys(open);
    assert forall|i: int| 0 <= i < after.len() implies is_stopped(
        after,
        (#[trigger] after[i]).session,
    ) by {
        let x = after[i];
        assert(after.contains(x));
        if events.contains(x) {
            let k = choose|k: int| 0 <= k < events.len() && events[k] == x;
            assert(events[k].state == TaskState::Stopped);
            assert(after[i].session == x.session && after[i].state == TaskState::Stopped);
        } else if is_stopped(before, x.session) {
            let w = choose|w: int|
                0 <= w < before.len() && (#[trigger] before[w]).session == x.session
                    && before[w].state == TaskState::Stopped;
            assert(before.contains(before[w]));
            assert(after.contains(before[w]));
            let j = choose|j: int| 0 <= j < after.len() && after[j] == before[w];
            assert(after[j].session == x.session && after[j].state == TaskState::Stopped);
        } else {
            let k = choose|k: int| 0 <= k < before.len() && before[k] == x;
            before.lemma_filter_contains(is_open_in(before), k);
            let o = choose|o: int| 0 <= o < open.len() && open[o] == x;
            assert(keys.contains(key_of(open[o])));
            let w = choose|w: int| 0 <= w < keys.len() && keys[w] == key_of(x);
            let m = targets.len() - 1 - w;
            assert(group_sessions(open)[w].id == x.session);
            assert(targets[m] == group_sessions(open)[w]);
            assert(events[m].session == x.session && events[m].state == TaskState::Stopped);
            assert(events.contains(events[m]));
            assert(after.contains(events[m]));
            let j = choose|j: int| 0 <= j < after.len() && after[j] == events[m];
            assert(after[j].session == x.session && after[j].state == TaskState::Stopped);
        }
    }
}

/// Every session listed as ongoing holds an event, holds no stop, and is
/// in one of the three states that a session can be in before its stop.
pub proof fn law_ongoing_sessions_are_open(log: Seq<EventView>, k: int)
    requires
        0 <= k < ongoing_sessions(log).len(),
    ensures
        ongoing_sessions(log)[k].events.len() > 0,
        ongoing_sessions(log)[k].is_ongoing(),
        ongoing_sessions(log)[k].state() != TaskState::Stopped,
        has_open_session(log, ongoing_sessions(log)[k].name),
{
    let open = open_events(log);
    let grouped = group_sessions(open);
    let w = grouped.len() - 1 - k;
    let session = grouped[w];
    assert(ongoing_sessions(log)[k] == session);
    lemma_group_sessions(open, w);
    assert forall|i: int| 0 <= i < session.events.len() implies {
        &&& (#[trigger] session.events[i]).state != TaskState::Stopped
        &&& log.contains(session.events[i])
        &&& !is_stopped(log, session.events[i].session)
    } by {
        let e = session.events[i];
        assert(open.contains(e));
        log.lemma_filter_contains_rev(is_open_in(log), e);
        let j = choose|j: int| 0 <= j < log.len() && log[j] == e;
        if e.state == TaskState::Stopped {
            assert(log[j].session == e.session && log[j].state == TaskState::Stopped);
        }
    }
    let first = session.events[0];
    let j = choose|j: int| 0 <= j < log.len() && log[j] == first;
    assert(log[j].name == session.name && !is_stopped(log, log[j].session));
}

/// For the sessions listed as ongoing, the rules for what may follow what
/// say the same as the session's newest event: a session can be paused
/// unless it is paused, resumed if it is paused, stopped in any case, and
/// never started.
pub proof fn law_rules_agree_with_newest_event(log: Seq<EventView>, k: int)
    requires
        0 <= k < ongoing_sessions(log).len(),
    ensures
        accepts(Command::Pause)(ongoing_sessions(log)[k]) == !ongoing_sessions(log)[k].is_paused(),
        accepts(Command::Resume)(ongoing_sessions(log)[k]) == ongoing_sessions(log)[k].is_paused(),
        accepts(Command::Stop)(ongoing_sessions(log)[k]),
        !accepts(Command::Start)(ongoing_sessions(log)[k]),
{
    law_ongoing_sessions_are_open(log, k);
}

/// Every ongoing session can be stopped: the sessions to which a stop
/// applies are all ongoing sessions.
pub proof fn law_every_ongoing_session_can_be_stopped(log: Seq<EventView>)
    ensures
        eligible(log, Command::Stop) == ongoing_sessions(log),
{
    let ongoing = ongoing_sessions(log);
    assert forall|k: int| 0 <= k < ongoing.len() implies accepts(Command::Stop)(
        #[trigger] ongoing[k],
    ) by {
        law_rules_agree_with_newest_event(log, k);
    }
    lemma_filter_keeps_all(ongoing, accepts(Command::Stop));
}

/// A task has an open session exactly when a session of its name is listed
/// as ongoing.
pub proof fn law_open_sessions_are_listed(log: Seq<EventView>, name: Seq<char>)
    ensures
        has_open_session(log, name) <==> exists|k: int|
            0 <= k < ongoing_sessions(log).len() && (#[trigger] ongoing_sessions(log)[k]).name
                == name,
{
    let open = open_events(log);
    let grouped = group_sessions(open);
    let ongoing = ongoing_sessions(log);
    if has_open_session(log, name) {
        let i = choose|i: int|
            0 <= i < log.len() && (#[trigger] log[i]).name == name && !is_stopped(
                log,
                log[i].session,
            );
        log.lemma_filter_contains(is_open_in(log), i);
        let o = choose|o: int| 0 <= o < open.len() && open[o] == log[i];
        lemma_session_keys(open);
        let keys = session_keys(open);
        assert(keys.contains(key_of(open[o])));
        let w = choose|w: int| 0 <= w < keys.len() && keys[w] == key_of(open[o]);
        assert(grouped[w].name == name);
        let k = grouped.len() - 1 - w;
        assert(ongoing[k] == grouped[w]);
    }
    if exists|k: int| 0 <= k < ongoing.len() && (#[trigger] ongoing[k]).name == name {
        let k = choose|k: int| 0 <= k < ongoing.len() && (#[trigger] ongoing[k]).name == name;
        law_ongoing_sessions_are_open(log, k);
    }
}

/// A legal timeline stays legal when the event that a command leads to is
/// recorded at its end: the rules admit the command in the state of the
/// newest event, the event is of the kind they give, and it is not older
/// than the newest event.
pub proof fn law_command_keeps_timeline_legal(
    timeline: Seq<EventView>,
    command: Command,
    e: EventView,
)
    requires
        valid_timeline(timeline),
        timeline.len() > 0,
        command != Command::Start,
        transition_spec(Some(timeline.last().state), command) == Ok::<TaskState, Rejection>(
            e.state,
        ),
        timeline.last().time <= e.time,
    ensures
        valid_timeline(timeline.push(e)),
{
    let longer = timeline.push(e);
    assert forall|i: int| 0 <= i < longer.len() implies #[trigger] event_ok(longer, i) by {
        if i < timeline.len() {
            assert(event_ok(timeline, i));
        }
    }
}

/// Whether time never runs backwards from one event to the next.
pub open spec fn oldest_first(events: Seq<EventView>) -> bool {
    forall|i: int, j: int| 0 <= i <= j < events.len() ==> events[i].time <= events[j].time
}

/// What a filter keeps of events that are oldest first is oldest first.
pub proof fn lemma_filter_keeps_order(events: Seq<EventView>, pred: spec_fn(EventView) -> bool)
    requires
        oldest_first(events),
    ensures
        oldest_first(events.filter(pred)),
    decreases events.len(),
{
    reveal(Seq::filter);
    if events.len() > 0 {
        let rest = events.drop_last();
        let last = events.last();
        assert forall|i: int, j: int| 0 <= i <= j < rest.len() implies rest[i].time
            <= rest[j].time by {
            assert(events[i].time <= events[j].time);
        }
        lemma_filter_keeps_order(rest, pred);
        let kept = rest.filter(pred);
        if pred(last) {
            let all = kept.push(last);
            assert forall|i: int, j: int| 0 <= i <= j < all.len() implies all[i].time
                <= all[j].time by {
                if j < kept.len() {
                    assert(kept[i].time <= kept[j].time);
                } else if i < kept.len() {
                    assert(kept.contains(kept[i]));
                    rest.lemma_filter_contains_rev(pred, kept[i]);
                    let w = choose|w: int| 0 <= w < rest.len() && rest[w] == kept[i];
                    assert(events[w].time <= events[events.len() - 1].time);
                }
            }
        }
    }
}

/// What a filter keeps of events that are newest first is newest first.
pub proof fn lemma_filter_keeps_newest_first(
    events: Seq<EventView>,
    pred: spec_fn(EventView) -> bool,
)
    requires
        newest_first(events),
    ensures
        newest_first(events.filter(pred)),
    decreases events.len(),
{
    reveal(Seq::filter);
    if events.len() > 0 {
        let rest = events.drop_last();
        let last = events.last();
        assert forall|i: int, j: int| 0 <= i <= j < rest.len() implies rest[i].time
            >= rest[j].time by {
            assert(events[i].time >= events[j].time);
        }
        lemma_filter_keeps_newest_first(rest, pred);
        let kept = rest.filter(pred);
        if pred(last) {
            let all = kept.push(last);
            assert forall|i: int, j: int| 0 <= i <= j < all.len() implies all[i].time
                >= all[j].time by {
                if j < kept.len() {
                    assert(kept[i].time >= kept[j].time);
                } else if i < kept.len() {
                    assert(kept.contains(kept[i]));
                    rest.lemma_filter_contains_rev(pred, kept[i]);
                    let w = choose|w: int| 0 <= w < rest.len() && rest[w] == kept[i];
                    assert(events[w].time >= events[events.len() - 1].time);
                }
            }
        }
    }
}

/// Every session rebuilt from a log holds its events oldest first, so that
/// time never runs backwards in it.
pub proof fn law_sessions_are_timelines(log: Seq<EventView>, k: int)
    requires
        newest_first(log),
    ensures
        0 <= k < group_sessions(log).len() ==> oldest_first(group_sessions(log)[k].events),
        0 <= k < ongoing_sessions(log).len() ==> oldest_first(ongoing_sessions(log)[k].events),
{
    if 0 <= k < group_sessions(log).len() {
        let turned = log.reverse();
        assert forall|i: int, j: int| 0 <= i <= j < turned.len() implies turned[i].time
            <= turned[j].time by {
            assert(log[log.len() - 1 - j].time >= log[log.len() - 1 - i].time);
        }
        lemma_filter_keeps_order(turned, of_session(session_keys(log)[k]));
    }
    if 0 <= k < ongoing_sessions(log).len() {
        let open = open_events(log);
        lemma_filter_keeps_newest_first(log, is_open_in(log));
        let turned = open.reverse();
        assert forall|i: int, j: int| 0 <= i <= j < turned.len() implies turned[i].time
            <= turned[j].time by {
            assert(open[open.len() - 1 - j].time >= open[open.len() - 1 - i].time);
        }
        let w = group_sessions(open).len() - 1 - k;
        lemma_filter_keeps_order(turned, of_session(session_keys(open)[w]));
    }
}

/// An event that is not older than any event of the log is recorded in
/// front of the log, and joins its own session as the newest event; every
/// other session keeps its events.
pub proof fn lemma_newest_event_joins_its_session(log: Seq<EventView>, e: EventView)
    requires
        newest_first(log),
        forall|i: int| 0 <= i < log.len() ==> (#[trigger] log[i]).time <= e.time,
    ensures
        log_insert(log, e) == seq![e] + log,
        session_for(log_insert(log, e), key_of(e)).events == session_for(
            log,
            key_of(e),
        ).events.push(e),
        forall|key: SessionKey|
            key != key_of(e) ==> (#[trigger] session_for(log_insert(log, e), key)) == session_for(
                log,
                key,
            ),
{
    lemma_insert_at(log, e, 0);
    assert(log.insert(0, e) =~= seq![e] + log);
    let turned = log.reverse();
    assert((seq![e] + log).reverse() =~= turned.push(e));
    assert forall|key: SessionKey|
        (#[trigger] turned.push(e).filter(of_session(key))) == (if key == key_of(e) {
            turned.filter(of_session(key)).push(e)
        } else {
            turned.filter(of_session(key))
        }) by {
        turned.lemma_filter_push(e, of_session(key));
    }
    assert forall|key: SessionKey| key != key_of(e) implies (#[trigger] session_for(
        log_insert(log, e),
        key,
    )) == session_for(log, key) by {
        assert(turned.push(e).filter(of_session(key)) == turned.filter(of_session(key)));
    }
    assert(turned.push(e).filter(of_session(key_of(e))) == turned.filter(
        of_session(key_of(e)),
    ).push(e));
}

/// A command that the rules admit for a session leaves the session with a
/// legal timeline: where the session's timeline was legal, the rules give
/// the kind of the event, and the event is not older than any event of the
/// log, the session's timeline is the old one with the event at its end,
/// and it is legal.
pub proof fn law_commands_keep_sessions_legal(log: Seq<EventView>, command: Command, e: EventView)
    requires
        newest_first(log),
        forall|i: int| 0 <= i < log.len() ==> (#[trigger] log[i]).time <= e.time,
        session_for(log, key_of(e)).events.len() > 0,
        valid_timeline(session_for(log, key_of(e)).events),
        command != Command::Start,
        transition_spec(Some(session_for(log, key_of(e)).state()), command) == Ok::<
            TaskState,
            Rejection,
        >(e.state),
    ensures
        session_for(log_insert(log, e), key_of(e)).events == session_for(
            log,
            key_of(e),
        ).events.push(e),
        valid_timeline(session_for(log_insert(log, e), key_of(e)).events),
{
    let key = key_of(e);
    let before = session_for(log, key);
    lemma_newest_event_joins_its_session(log, e);
    let newest = before.events.last();
    assert(before.events.contains(newest));
    log.reverse().lemma_filter_contains_rev(of_session(key), newest);
    let w = choose|w: int| 0 <= w < log.reverse().len() && log.reverse()[w] == newest;
    assert(log[log.len() - 1 - w].time <= e.time);
    law_command_keeps_timeline_legal(before.events, command, e);
}

/// A filter that only the element at `q` passes keeps that element alone.
pub proof fn lemma_filter_keeps_one<A>(s: Seq<A>, q: int, pred: spec_fn(A) -> bool)
    requires
        0 <= q < s.len(),
        pred(s[q]),
        forall|i: int| 0 <= i < s.len() && i != q ==> !pred(#[trigger] s[i]),
    ensures
        s.filter(pred) == seq![s[q]],
{
    let head = s.take(q);
    let one = seq![s[q]];
    let tail = s.skip(q + 1);
    assert(head + one + tail =~= s);
    Seq::filter_distributes_over_add(head + one, tail, pred);
    Seq::filter_distributes_over_add(head, one, pred);
    head.lemma_all_neg_filter_empty(pred);
    tail.lemma_all_neg_filter_empty(pred);
    lemma_filter_keeps_all(one, pred);
    assert(head.filter(pred) + one + tail.filter(pred) =~= one);
}

/// A start in a session that the log has no event of opens a session with
/// a legal timeline, which holds the start and nothing else.
pub proof fn law_start_opens_legal_session(log: Seq<EventView>, started: EventView)
    requires
        log_wf(log),
        started.state == TaskState::Started,
        forall|i: int| 0 <= i < log.len() ==> key_of(#[trigger] log[i]) != key_of(started),
    ensures
        session_for(log_insert(log, started), key_of(started)).events == seq![started],
        valid_timeline(session_for(log_insert(log, started), key_of(started)).events),
{
    let key = key_of(started);
    let p = lemma_insert_position(log, started);
    let after = log.insert(p, started);
    let turned = after.reverse();
    let q = log.len() - p;
    assert(turned[q] == started);
    assert forall|i: int| 0 <= i < turned.len() && i != q implies !of_session(key)(
        #[trigger] turned[i],
    ) by {
        let j = after.len() - 1 - i;
        if j < p {
            assert(after[j] == log[j]);
        } else {
            assert(after[j] == log[j - 1]);
        }
    }
    lemma_filter_keeps_one(turned, q, of_session(key));
    assert(event_ok(seq![started], 0));
}

} // verus!
