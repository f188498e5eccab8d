use shift_lib::commands::events::{event_stats, window_sessions, Error, EventStatOpts};
use shift_lib::{TaskEvent, TaskState};

fn event(id: &str, name: &str, session: &str, state: TaskState, time: i64) -> TaskEvent {
    TaskEvent::from_parts(id.to_string(), name.to_string(), session.to_string(), state, time)
}

// Turns events given oldest first into the order in which the log hands
// them out, and back.
fn newest_first(mut events: Vec<TaskEvent>) -> Vec<TaskEvent> {
    events.reverse();
    events
}

#[test]
fn stats_of_nothing() {
    assert_eq!(event_stats(vec![], &EventStatOpts::default()), Ok(vec![]));
}

#[test]
fn stats_of_a_whole_session() {
    let events = newest_first(vec![
        event("e1", "a", "s1", TaskState::Started, 10),
        event("e2", "a", "s1", TaskState::Paused, 20),
        event("e3", "a", "s1", TaskState::Resumed, 30),
        event("e4", "a", "s1", TaskState::Stopped, 40),
    ]);
    let sessions = event_stats(events.clone(), &EventStatOpts { from: 0, to: 100 }).unwrap();
    assert_eq!(sessions.len(), 1);
    assert_eq!(sessions[0].id, "s1");
    assert_eq!(sessions[0].name, "a");
    assert_eq!(sessions[0].events, newest_first(events));
    let times = sessions[0].get_times_at(1_000).unwrap();
    assert_eq!((times.elapsed, times.paused), (20, 10));
}

#[test]
fn stats_close_a_running_session_at_the_end_of_the_window() {
    let events = newest_first(vec![
        event("e1", "a", "s1", TaskState::Started, 10),
        event("e2", "a", "s1", TaskState::Paused, 20),
    ]);
    let sessions = event_stats(events.clone(), &EventStatOpts { from: 0, to: 100 }).unwrap();
    assert_eq!(sessions.len(), 1);
    let got = &sessions[0].events;
    assert_eq!(got.len(), 3);
    assert_eq!(got[2].state, TaskState::Stopped);
    assert_eq!(got[2].time, 100);
    assert_eq!(got[2].session, "s1");
    assert_eq!(got[..2].to_vec(), newest_first(events));
    let times = sessions[0].get_times_at(1_000).unwrap();
    assert_eq!((times.elapsed, times.paused), (10, 80));
}

#[test]
fn stats_open_a_session_that_was_running_before_the_window() {
    let events = vec![event("e9", "a", "s1", TaskState::Stopped, 40)];
    let sessions = event_stats(events.clone(), &EventStatOpts { from: 5, to: 100 }).unwrap();
    assert_eq!(sessions.len(), 1);
    let got = &sessions[0].events;
    assert_eq!(got.len(), 2);
    assert_eq!(got[1], events[0]);
    assert_eq!(got[0].state, TaskState::Started);
    assert_eq!(got[0].time, 5);
    assert_eq!(got[0].session, "s1");
    assert_ne!(got[1].id, got[0].id);
    let times = sessions[0].get_times_at(1_000).unwrap();
    assert_eq!((times.elapsed, times.paused), (35, 0));
}

#[test]
fn stats_list_stopped_sessions_first_and_running_ones_from_the_last() {
    let events = newest_first(vec![
        event("e1", "a", "s1", TaskState::Started, 1),
        event("e2", "b", "s2", TaskState::Started, 2),
        event("e3", "c", "s3", TaskState::Started, 3),
        event("e4", "d", "s4", TaskState::Started, 4),
        event("e5", "a", "s1", TaskState::Stopped, 5),
        event("e6", "c", "s3", TaskState::Stopped, 6),
    ]);
    let clipped = window_sessions(&events).unwrap();
    let shown: Vec<(&str, bool, bool)> =
        clipped.iter().map(|c| (c.session.name.as_str(), c.starts_before, c.ends_after)).collect();
    assert_eq!(
        shown,
        vec![("a", false, false), ("c", false, false), ("b", false, true), ("d", false, true)]
    );
    let sessions = event_stats(events, &EventStatOpts { from: 0, to: 9 }).unwrap();
    let names: Vec<&str> = sessions.iter().map(|t| t.name.as_str()).collect();
    assert_eq!(names, vec!["a", "c", "b", "d"]);
}

#[test]
fn stats_move_the_last_running_session_into_the_place_of_a_stopped_one() {
    let events = newest_first(vec![
        event("e1", "a", "s1", TaskState::Started, 1),
        event("e2", "b", "s2", TaskState::Started, 2),
        event("e3", "c", "s3", TaskState::Started, 3),
        event("e4", "a", "s1", TaskState::Stopped, 4),
    ]);
    let clipped = window_sessions(&events).unwrap();
    let names: Vec<&str> = clipped.iter().map(|c| c.session.name.as_str()).collect();
    assert_eq!(names, vec!["a", "b", "c"]);
}

#[test]
fn stats_let_a_pause_open_a_session() {
    let events = newest_first(vec![
        event("e1", "a", "s1", TaskState::Paused, 10),
        event("e2", "a", "s1", TaskState::Resumed, 20),
    ]);
    let clipped = window_sessions(&events).unwrap();
    assert_eq!(clipped.len(), 1);
    assert!(!clipped[0].starts_before);
    assert!(clipped[0].ends_after);
    assert_eq!(clipped[0].session.events, newest_first(events));
}

#[test]
fn stats_tell_sessions_apart_by_identifier_alone() {
    let events = newest_first(vec![
        event("e1", "a", "s1", TaskState::Started, 10),
        event("e2", "renamed", "s1", TaskState::Stopped, 20),
    ]);
    let clipped = window_sessions(&events).unwrap();
    assert_eq!(clipped.len(), 1);
    assert_eq!(clipped[0].session.name, "a");
    assert_eq!(clipped[0].session.events.len(), 2);
}

#[test]
fn stats_refuse_a_second_start_of_a_running_session() {
    let events = newest_first(vec![
        event("e1", "a", "s1", TaskState::Started, 10),
        event("e2", "a", "s1", TaskState::Started, 20),
    ]);
    assert_eq!(window_sessions(&events), Err(Error::Restarted));
    assert_eq!(event_stats(events, &EventStatOpts::default()), Err(Error::Restarted));
}

#[test]
fn stats_allow_a_start_after_the_stop() {
    let events = newest_first(vec![
        event("e1", "a", "s1", TaskState::Started, 10),
        event("e2", "a", "s1", TaskState::Stopped, 20),
        event("e3", "a", "s1", TaskState::Started, 30),
    ]);
    let clipped = window_sessions(&events).unwrap();
    assert_eq!(clipped.len(), 2);
    assert!(!clipped[0].ends_after);
    assert!(clipped[1].ends_after);
}
