use shift_lib::clock::now;
use shift_lib::commands::sessions::sessions;
use shift_lib::commands::start::{start, StartOpts};
use shift_lib::commands::stop::{stop, Error, StopOpts};
use shift_lib::{Config, ShiftDb, TaskEvent, TaskState};

fn start_with_name(shift: &mut ShiftDb, s: &str) -> TaskEvent {
    let config = StartOpts { uid: Some(s.to_string()), ..Default::default() };
    start(shift, &config).unwrap()
}

fn start_at(shift: &mut ShiftDb, s: &str, time: i64) -> TaskEvent {
    let config = StartOpts { uid: Some(s.to_string()), start_time: Some(time) };
    start(shift, &config).unwrap()
}

#[test]
fn stop_task() {
    let mut s = ShiftDb::new();

    start_with_name(&mut s, "task1");

    stop(&mut s, &StopOpts::default()).expect("Should stop without error");
    let config = Config { count: 10, ..Default::default() };
    let tasks = sessions(&s, &config).expect("Should get task1");

    assert_eq!(tasks.len(), 1, "Didn't get expected amount of tasks");
    // A session holds its events oldest first, so the stop is the last.
    assert!(
        tasks[0].events.last().unwrap().state == TaskState::Stopped,
        "the task stop field was not set"
    )
}

#[test]
fn stop_error_multiple_tasks() {
    let mut s = ShiftDb::new();

    start_with_name(&mut s, "task1");
    start_with_name(&mut s, "task2");

    let a = stop(&mut s, &StopOpts::default()).expect_err("Can't stop two tasks");
    match a {
        Error::MultipleSessions(t) => {
            assert_eq!(t.len(), 2, "Should get both task1 and task2");
            assert_eq!(
                t.iter().map(|t| &t.name).collect::<Vec<&String>>(),
                vec!["task1", "task2"]
            )
        }
        _ => panic!("error {}", format!("{a:?}")),
    }
}

#[test]
fn stop_all() {
    let mut s = ShiftDb::new();

    start_with_name(&mut s, "task1");
    start_with_name(&mut s, "task2");

    let config = StopOpts { all: true, ..Default::default() };
    stop(&mut s, &config).expect("Can stop all");
    let config = Config { all: true, ..Default::default() };
    let tasks = sessions(&s, &config).expect("Should get task1 and task2");

    assert_eq!(tasks.len(), 2, "Didn't get expected amount of tasks");
    for t in tasks {
        assert_eq!(
            t.events.iter().filter(|e| e.state == TaskState::Stopped).count(),
            1,
            "the task stop field was not set: {t:?}"
        )
    }
}

#[test]
fn stop_with_name_and_time() {
    let mut s = ShiftDb::new();
    let time = now();

    start_with_name(&mut s, "task1");

    let config =
        StopOpts { uid: Some("task1".to_string()), stop_time: Some(time), ..Default::default() };

    stop(&mut s, &config).expect("Can stop with name");
    let config = Config { all: true, ..Default::default() };
    let tasks = sessions(&s, &config).expect("Should get task1 and task2");

    assert_eq!(tasks.len(), 1, "Didn't get expected amount of tasks");
    // The stop is timed before the start, so it is the session's oldest event.
    let stop_event = tasks.first().unwrap().events.first().unwrap();
    assert!(
        stop_event.state == TaskState::Stopped,
        "the task stop field was not set: {:?}",
        tasks.first()
    );
    assert!(stop_event.time == time, "the stop time was not the same: {:?}", tasks.first());
}

#[test]
fn stop_without_identifier_is_ambiguous_and_records_nothing() {
    let mut s = ShiftDb::new();
    start_at(&mut s, "a", 1_000);
    start_at(&mut s, "b", 1_000);
    let before: Vec<TaskEvent> = s.events().clone();

    let err = stop(&mut s, &StopOpts::default()).expect_err("two sessions are ongoing");
    match err {
        Error::MultipleSessions(sessions) => {
            let names: Vec<&str> = sessions.iter().map(|t| t.name.as_str()).collect();
            assert_eq!(names, vec!["a", "b"]);
        }
        other => panic!("unexpected error {other:?}"),
    }
    assert_eq!(s.events(), &before);
}

#[test]
fn stop_nothing_ongoing_is_no_tasks() {
    let mut s = ShiftDb::new();
    assert_eq!(stop(&mut s, &StopOpts::default()), Err(Error::NoTasks));
    let all = StopOpts { all: true, ..Default::default() };
    assert_eq!(stop(&mut s, &all), Err(Error::NoTasks));
    let named = StopOpts { uid: Some("task1".to_string()), ..Default::default() };
    assert_eq!(stop(&mut s, &named), Err(Error::NoTasks));
    assert!(s.events().is_empty());
}

#[test]
fn stop_by_end_of_session_identifier() {
    let mut s = ShiftDb::new();
    let first = start_at(&mut s, "task1", 10);
    start_at(&mut s, "task2", 20);
    let tail: String = first.session[first.session.len() - 8..].to_string();

    let config = StopOpts { uid: Some(tail), stop_time: Some(30), ..Default::default() };
    stop(&mut s, &config).expect("the tail names one session");

    let newest = &s.events()[0];
    assert_eq!(newest.state, TaskState::Stopped);
    assert_eq!(newest.name, "task1");
    assert_eq!(newest.session, first.session);
    assert_eq!(newest.time, 30);
    assert_eq!(s.ongoing_sessions().len(), 1);
}

#[test]
fn stop_does_not_match_the_middle_of_an_identifier() {
    let mut s = ShiftDb::new();
    let first = start_at(&mut s, "task1", 10);
    let middle: String = first.session[4..12].to_string();
    assert!(!first.session.ends_with(&middle));

    let config = StopOpts { uid: Some(middle), ..Default::default() };
    assert_eq!(stop(&mut s, &config), Err(Error::NoTasks));
}

#[test]
fn stop_by_name_that_several_sessions_match_is_ambiguous_even_with_all() {
    let mut s = ShiftDb::new();
    let a = TaskEvent::from_parts(
        "e1".to_string(),
        "dup".to_string(),
        "s1".to_string(),
        TaskState::Started,
        1,
    );
    let b = TaskEvent::from_parts(
        "e2".to_string(),
        "dup".to_string(),
        "s2".to_string(),
        TaskState::Started,
        2,
    );
    s.append(a).unwrap();
    s.append(b).unwrap();

    let config = StopOpts { uid: Some("dup".to_string()), all: true, stop_time: Some(5) };
    match stop(&mut s, &config) {
        Err(Error::MultipleSessions(sessions)) => {
            let ids: Vec<&str> = sessions.iter().map(|t| t.id.as_str()).collect();
            assert_eq!(ids, vec!["s1", "s2"]);
        }
        other => panic!("unexpected result {other:?}"),
    }
    assert_eq!(s.events().len(), 2);
}

#[test]
fn stop_all_records_one_stop_per_session_at_one_time() {
    let mut s = ShiftDb::new();
    start_at(&mut s, "a", 1);
    start_at(&mut s, "b", 2);
    start_at(&mut s, "c", 3);

    let config = StopOpts { all: true, stop_time: Some(7), ..Default::default() };
    stop(&mut s, &config).unwrap();

    let events = s.events();
    assert_eq!(events.len(), 6);
    let stops: Vec<(&str, i64, TaskState)> =
        events[..3].iter().map(|e| (e.name.as_str(), e.time, e.state)).collect();
    assert_eq!(
        stops,
        vec![
            ("c", 7, TaskState::Stopped),
            ("b", 7, TaskState::Stopped),
            ("a", 7, TaskState::Stopped)
        ]
    );
    assert!(s.ongoing_sessions().is_empty());
}

#[test]
fn stop_a_paused_session_is_allowed() {
    let mut s = ShiftDb::new();
    start_at(&mut s, "a", 1);
    shift_lib::commands::pause::pause(&mut s, &Config::default()).unwrap();
    stop(&mut s, &StopOpts::default()).expect("a paused session can be stopped");
    assert!(s.ongoing_sessions().is_empty());
}
