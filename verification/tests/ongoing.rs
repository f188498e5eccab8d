use shift_lib::commands::start::{start, StartOpts};
use shift_lib::commands::status::status;
use shift_lib::commands::stop::{stop, StopOpts};
use shift_lib::{Config, ShiftDb, TaskEvent, TaskState};

fn event(id: &str, name: &str, session: &str, state: TaskState, time: i64) -> TaskEvent {
    TaskEvent::from_parts(id.to_string(), name.to_string(), session.to_string(), state, time)
}

#[test]
fn get_ongoing() {
    let mut s = ShiftDb::new();
    let config = StartOpts { uid: Some("task1".to_string()), ..Default::default() };
    start(&mut s, &config).unwrap();

    let config = StartOpts { uid: Some("task2".to_string()), ..Default::default() };
    start(&mut s, &config).unwrap();

    let config = StopOpts { uid: Some("task2".to_string()), ..Default::default() };
    stop(&mut s, &config).unwrap();

    let tasks = s.ongoing_sessions();
    assert_eq!(tasks.len(), 1);
    assert_eq!(tasks.get(0).unwrap().name, "task1");
}

#[test]
fn ongoing_lists_the_session_with_the_oldest_news_first() {
    let mut s = ShiftDb::new();
    s.append(event("e1", "a", "s1", TaskState::Started, 10)).unwrap();
    s.append(event("e2", "b", "s2", TaskState::Started, 20)).unwrap();
    s.append(event("e3", "c", "s3", TaskState::Started, 30)).unwrap();
    s.append(event("e4", "a", "s1", TaskState::Paused, 40)).unwrap();

    let ongoing = s.ongoing_sessions();
    let names: Vec<&str> = ongoing.iter().map(|t| t.name.as_str()).collect();
    assert_eq!(names, vec!["b", "c", "a"]);
    let a = &ongoing[2];
    assert_eq!(a.id, "s1");
    let states: Vec<TaskState> = a.events.iter().map(|e| e.state).collect();
    assert_eq!(states, vec![TaskState::Started, TaskState::Paused]);
    assert!(a.is_paused());
    assert!(a.is_ongoing());
    assert_eq!(a.state(), TaskState::Paused);
}

#[test]
fn ongoing_leaves_out_every_event_of_a_stopped_session() {
    let mut s = ShiftDb::new();
    s.append(event("e1", "a", "s1", TaskState::Started, 10)).unwrap();
    s.append(event("e2", "a", "s1", TaskState::Stopped, 20)).unwrap();
    s.append(event("e3", "a", "s2", TaskState::Started, 30)).unwrap();

    let ongoing = s.ongoing_sessions();
    assert_eq!(ongoing.len(), 1);
    assert_eq!(ongoing[0].id, "s2");
    assert_eq!(ongoing[0].events, vec![event("e3", "a", "s2", TaskState::Started, 30)]);
}

#[test]
fn ongoing_tells_sessions_apart_by_name_and_identifier() {
    let mut s = ShiftDb::new();
    s.append(event("e1", "a", "s1", TaskState::Started, 10)).unwrap();
    s.append(event("e2", "b", "s1", TaskState::Started, 20)).unwrap();

    let ongoing = s.ongoing_sessions();
    let keys: Vec<(&str, &str)> =
        ongoing.iter().map(|t| (t.name.as_str(), t.id.as_str())).collect();
    assert_eq!(keys, vec![("a", "s1"), ("b", "s1")]);
}

#[test]
fn status_is_the_ongoing_sessions() {
    let mut s = ShiftDb::new();
    assert!(status(&s, &Config::default()).is_empty());
    s.append(event("e1", "a", "s1", TaskState::Started, 10)).unwrap();
    s.append(event("e2", "b", "s2", TaskState::Started, 20)).unwrap();
    s.append(event("e3", "b", "s2", TaskState::Stopped, 30)).unwrap();
    let listed = status(&s, &Config::default());
    assert_eq!(listed, s.ongoing_sessions());
    assert_eq!(listed.len(), 1);
    assert_eq!(listed[0].name, "a");
}
