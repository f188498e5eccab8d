use shift_lib::commands::pause::{pause, resume};
use shift_lib::commands::sessions::sessions;
use shift_lib::commands::start::{start, StartOpts};
use shift_lib::commands::stop::{stop, StopOpts};
use shift_lib::task_session::{
    hours_minutes, CorruptSession, HoursMinutes, SessionSummary, SessionTimes,
};
use shift_lib::{Config, ShiftDb, TaskEvent, TaskSession, TaskState};

const MINUTE: i64 = 60_000_000_000;

fn event(id: &str, state: TaskState, time: i64) -> TaskEvent {
    TaskEvent::from_parts(id.to_string(), "writing".to_string(), "s1".to_string(), state, time)
}

fn session(events: Vec<TaskEvent>) -> TaskSession {
    TaskSession { id: "s1".to_string(), name: "writing".to_string(), events }
}

#[test]
fn scenario_start_pause_resume_stop() {
    let t0: i64 = 1_700_000_000_000_000_000;
    let mut s = ShiftDb::new();
    s.append(event("e1", TaskState::Started, t0)).unwrap();
    s.append(event("e2", TaskState::Paused, t0 + 30 * MINUTE)).unwrap();
    s.append(event("e3", TaskState::Resumed, t0 + 40 * MINUTE)).unwrap();
    s.append(event("e4", TaskState::Stopped, t0 + 100 * MINUTE)).unwrap();

    let found = sessions(&s, &Config { all: true, ..Default::default() }).unwrap();
    assert_eq!(found.len(), 1);
    let times = found[0].get_times_at(t0 + 500 * MINUTE).unwrap();
    assert_eq!(times.elapsed, 90 * MINUTE as i128);
    assert_eq!(times.paused, 10 * MINUTE as i128);
    assert_eq!(found[0].state(), TaskState::Stopped);
    assert_eq!(found[0].get_times().unwrap(), times);
}

#[test]
fn scenario_through_the_commands() {
    let mut s = ShiftDb::new();
    start(&mut s, &StartOpts { uid: Some("writing".to_string()), start_time: None }).unwrap();
    pause(&mut s, &Config::default()).unwrap();
    resume(&mut s, &Config::default()).unwrap();
    stop(&mut s, &StopOpts::default()).unwrap();

    let found = sessions(&s, &Config { all: true, ..Default::default() }).unwrap();
    assert_eq!(found.len(), 1);
    let events = &found[0].events;
    let states: Vec<TaskState> = events.iter().map(|e| e.state).collect();
    assert_eq!(
        states,
        vec![TaskState::Started, TaskState::Paused, TaskState::Resumed, TaskState::Stopped]
    );
    let times = found[0].get_times().unwrap();
    let span = (events[3].time - events[0].time) as i128;
    assert_eq!(times.elapsed + times.paused, span);
    assert_eq!(times.paused, (events[2].time - events[1].time) as i128);
}

#[test]
fn start_then_stop_runs_from_start_to_stop() {
    let s = session(vec![event("e1", TaskState::Started, 100), event("e2", TaskState::Stopped, 350)]);
    assert_eq!(s.get_times_at(9_999), Ok(SessionTimes { elapsed: 250, paused: 0 }));
    assert_eq!(s.get_times_at(0), Ok(SessionTimes { elapsed: 250, paused: 0 }));
}

#[test]
fn one_break_splits_the_span() {
    let s = session(vec![
        event("e1", TaskState::Started, 100),
        event("e2", TaskState::Paused, 130),
        event("e3", TaskState::Resumed, 170),
        event("e4", TaskState::Stopped, 200),
    ]);
    let times = s.get_times_at(1_000).unwrap();
    assert_eq!(times, SessionTimes { elapsed: 60, paused: 40 });
    assert_eq!(times.elapsed + times.paused, 200 - 100);
}

#[test]
fn open_session_runs_until_now() {
    let s = session(vec![event("e1", TaskState::Started, 100)]);
    assert_eq!(s.get_times_at(160), Ok(SessionTimes { elapsed: 60, paused: 0 }));
    let resumed = session(vec![
        event("e1", TaskState::Started, 100),
        event("e2", TaskState::Paused, 110),
        event("e3", TaskState::Resumed, 150),
    ]);
    assert_eq!(resumed.get_times_at(160), Ok(SessionTimes { elapsed: 20, paused: 40 }));
}

#[test]
fn paused_session_is_on_break_until_now() {
    let s = session(vec![event("e1", TaskState::Started, 100), event("e2", TaskState::Paused, 130)]);
    assert_eq!(s.get_times_at(200), Ok(SessionTimes { elapsed: 30, paused: 70 }));
    assert!(s.is_paused());
}

#[test]
fn stop_while_paused_closes_the_break() {
    let s = session(vec![
        event("e1", TaskState::Started, 100),
        event("e2", TaskState::Paused, 130),
        event("e3", TaskState::Stopped, 180),
    ]);
    assert_eq!(s.get_times_at(5_000), Ok(SessionTimes { elapsed: 30, paused: 50 }));
}

#[test]
fn now_before_the_newest_event_counts_backwards() {
    let s = session(vec![event("e1", TaskState::Started, 100)]);
    assert_eq!(s.get_times_at(40), Ok(SessionTimes { elapsed: -60, paused: 0 }));
}

#[test]
fn times_at_the_ends_of_the_range_do_not_overflow() {
    let s = session(vec![
        event("e1", TaskState::Started, i64::MIN),
        event("e2", TaskState::Paused, i64::MAX),
    ]);
    let times = s.get_times_at(i64::MIN).unwrap();
    assert_eq!(times.elapsed, i64::MAX as i128 - i64::MIN as i128);
    assert_eq!(times.paused, i64::MIN as i128 - i64::MAX as i128);
}

#[test]
fn session_without_events_has_no_time() {
    let s = session(vec![]);
    assert_eq!(s.get_times_at(77), Ok(SessionTimes { elapsed: 0, paused: 0 }));
    assert_eq!(s.state(), TaskState::Stopped);
    assert!(!s.is_paused());
    assert!(s.is_ongoing());
}

#[test]
fn corrupt_sessions_have_no_times() {
    let not_started = session(vec![event("e1", TaskState::Paused, 1)]);
    assert_eq!(not_started.get_times_at(9), Err(CorruptSession { at: 0 }));

    let two_starts =
        session(vec![event("e1", TaskState::Started, 1), event("e2", TaskState::Started, 2)]);
    assert_eq!(two_starts.get_times_at(9), Err(CorruptSession { at: 1 }));

    let two_pauses = session(vec![
        event("e1", TaskState::Started, 1),
        event("e2", TaskState::Paused, 2),
        event("e3", TaskState::Paused, 3),
    ]);
    assert_eq!(two_pauses.get_times_at(9), Err(CorruptSession { at: 2 }));

    let resume_unpaused =
        session(vec![event("e1", TaskState::Started, 1), event("e2", TaskState::Resumed, 2)]);
    assert_eq!(resume_unpaused.get_times_at(9), Err(CorruptSession { at: 1 }));

    let after_stop = session(vec![
        event("e1", TaskState::Started, 1),
        event("e2", TaskState::Stopped, 2),
        event("e3", TaskState::Paused, 3),
    ]);
    assert_eq!(after_stop.get_times_at(9), Err(CorruptSession { at: 2 }));

    let two_stops = session(vec![
        event("e1", TaskState::Started, 1),
        event("e2", TaskState::Stopped, 2),
        event("e3", TaskState::Stopped, 3),
    ]);
    assert_eq!(two_stops.get_times_at(9), Err(CorruptSession { at: 2 }));
    assert_eq!(two_stops.get_times(), Err(CorruptSession { at: 2 }));
}

#[test]
fn time_running_backwards_is_corrupt() {
    let s = session(vec![event("e1", TaskState::Started, 10), event("e2", TaskState::Stopped, 5)]);
    assert_eq!(s.get_times_at(9), Err(CorruptSession { at: 1 }));
}

#[test]
fn stop_before_the_start_makes_the_session_corrupt() {
    let mut s = ShiftDb::new();
    s.append(event("e1", TaskState::Started, 10)).unwrap();
    stop(&mut s, &StopOpts { stop_time: Some(5), ..Default::default() }).unwrap();
    let found = sessions(&s, &Config { all: true, ..Default::default() }).unwrap();
    assert_eq!(found[0].get_times_at(20), Err(CorruptSession { at: 0 }));
}

fn hm(hours: i128, minutes: i128) -> HoursMinutes {
    HoursMinutes { hours, minutes }
}

#[test]
fn spans_split_into_hours_and_minutes() {
    let hour: i128 = 60 * MINUTE as i128;
    assert_eq!(hours_minutes(0), hm(0, 0));
    assert_eq!(hours_minutes(90 * MINUTE as i128), hm(1, 30));
    assert_eq!(hours_minutes(59 * MINUTE as i128 + 59_999_999_999), hm(0, 59));
    assert_eq!(hours_minutes(25 * hour + 61 * MINUTE as i128), hm(26, 1));
    assert_eq!(hours_minutes(-(90 * MINUTE as i128)), hm(-1, -30));
    assert_eq!(hours_minutes(-1), hm(0, 0));
    assert_eq!(hours_minutes(-(MINUTE as i128)), hm(0, -1));
    assert_eq!(hours_minutes(i128::MIN).hours, -(i128::MAX / hour));
    let times = SessionTimes { elapsed: 3 * hour + 7 * MINUTE as i128, paused: -hour };
    assert_eq!(times.elapsed_hours_minutes(), hm(3, 7));
    assert_eq!(times.paused_hours_minutes(), hm(-1, 0));
}

#[test]
fn summary_shows_state_and_times() {
    let s = session(vec![
        event("e1", TaskState::Started, 0),
        event("e2", TaskState::Paused, 95 * MINUTE),
        event("e3", TaskState::Resumed, 105 * MINUTE),
    ]);
    assert_eq!(
        s.summary_at(125 * MINUTE),
        Ok(SessionSummary {
            state: TaskState::Resumed,
            elapsed: hm(1, 55),
            paused: Some(hm(0, 10))
        })
    );
}

#[test]
fn summary_leaves_out_a_pause_of_no_time() {
    let never = session(vec![event("e1", TaskState::Started, 0)]);
    assert_eq!(
        never.summary_at(61 * MINUTE),
        Ok(SessionSummary { state: TaskState::Started, elapsed: hm(1, 1), paused: None })
    );
    let at_once = session(vec![
        event("e1", TaskState::Started, 0),
        event("e2", TaskState::Paused, 10),
        event("e3", TaskState::Resumed, 10),
    ]);
    assert_eq!(at_once.summary_at(10).unwrap().paused, None);
    let short = session(vec![event("e1", TaskState::Started, 0), event("e2", TaskState::Paused, 10)]);
    assert_eq!(short.summary_at(11).unwrap().paused, Some(hm(0, 0)));
}

#[test]
fn summary_of_a_corrupt_session_is_refused() {
    let s = session(vec![event("e1", TaskState::Started, 10), event("e2", TaskState::Started, 20)]);
    assert_eq!(s.summary_at(30), Err(CorruptSession { at: 1 }));
    assert_eq!(s.summary(), Err(CorruptSession { at: 1 }));
}
