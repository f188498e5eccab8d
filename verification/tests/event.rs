use shift_lib::clock::now;
use shift_lib::commands::event::{event, update, Error, Opts, UpdateEventError};
use shift_lib::commands::pause;
use shift_lib::commands::start::{start, StartOpts};
use shift_lib::{Config, ShiftDb, TaskEvent, TaskState};

fn start_with_name(shift: &mut ShiftDb, s: &str) -> TaskEvent {
    let config = StartOpts { uid: Some(s.to_string()), ..Default::default() };
    start(shift, &config).unwrap()
}

fn made(id: &str, name: &str, session: &str, state: TaskState, time: i64) -> TaskEvent {
    TaskEvent::from_parts(id.to_string(), name.to_string(), session.to_string(), state, time)
}

#[test]
fn event_last() {
    let mut s = ShiftDb::new();

    start_with_name(&mut s, "task1");
    let started_event = start_with_name(&mut s, "task2");

    let opts = Opts::default();

    let retreived_event = event(&s, &opts).expect("Should be able to get last event");
    assert_eq!(retreived_event, started_event);
}

#[test]
fn event_and_update_by_uid() {
    let mut s = ShiftDb::new();

    let started_event = start_with_name(&mut s, "task1");
    pause::pause(&mut s, &Config { ..Default::default() }).unwrap();

    let opts = Opts { uid: Some(started_event.id.to_owned()) };

    let retreived_event = event(&s, &opts).expect("Should be able to get last event");
    assert_eq!(retreived_event, started_event);

    let new_event = TaskEvent {
        id: retreived_event.id.to_string(),
        name: retreived_event.name.to_string(),
        session: retreived_event.session.to_string(),
        state: retreived_event.state.clone(),
        time: now(),
    };
    update(&mut s, retreived_event, new_event.clone()).unwrap();
    let updated = event(&s, &opts).expect("Should be able to get last event");
    assert_eq!(updated, new_event);
}

#[test]
fn event_in_an_empty_log_is_not_found() {
    let s = ShiftDb::new();
    assert_eq!(event(&s, &Opts::default()), Err(Error::NoEventFound));
    assert_eq!(event(&s, &Opts { uid: Some("1".to_string()) }), Err(Error::NoEventFound));
}

#[test]
fn event_by_the_end_of_its_identifier() {
    let mut s = ShiftDb::new();
    s.append(made("aa-01", "a", "s1", TaskState::Started, 10)).unwrap();
    s.append(made("bb-02", "b", "s2", TaskState::Started, 20)).unwrap();
    s.append(made("cc-01", "c", "s3", TaskState::Started, 30)).unwrap();

    let found = event(&s, &Opts { uid: Some("02".to_string()) }).unwrap();
    assert_eq!(found.id, "bb-02");
    let oldest = event(&s, &Opts { uid: Some("-01".to_string()) }).unwrap();
    assert_eq!(oldest.id, "aa-01");
    assert_eq!(event(&s, &Opts { uid: Some("aa".to_string()) }), Err(Error::NoEventFound));
    let any = event(&s, &Opts { uid: Some(String::new()) }).unwrap();
    assert_eq!(any.id, "aa-01");
}

#[test]
fn update_of_an_unknown_event_changes_nothing() {
    let mut s = ShiftDb::new();
    s.append(made("e1", "a", "s1", TaskState::Started, 10)).unwrap();
    let before: Vec<TaskEvent> = s.events().clone();
    let stranger = made("e9", "a", "s1", TaskState::Started, 10);
    let change = made("e9", "b", "s1", TaskState::Paused, 11);
    assert_eq!(
        update(&mut s, stranger, change),
        Err(UpdateEventError::NotUpdated("e9".to_string()))
    );
    assert_eq!(s.events(), &before);
}

#[test]
fn update_keeps_identifier_and_session_and_moves_the_event() {
    let mut s = ShiftDb::new();
    s.append(made("e1", "a", "s1", TaskState::Started, 10)).unwrap();
    s.append(made("e2", "b", "s2", TaskState::Started, 20)).unwrap();
    s.append(made("e3", "c", "s3", TaskState::Started, 30)).unwrap();

    let target = made("e1", "ignored", "ignored", TaskState::Stopped, 0);
    let change = made("other", "renamed", "other", TaskState::Paused, 25);
    update(&mut s, target, change).unwrap();

    assert_eq!(
        s.events(),
        &vec![
            made("e3", "c", "s3", TaskState::Started, 30),
            made("e1", "renamed", "s1", TaskState::Paused, 25),
            made("e2", "b", "s2", TaskState::Started, 20),
        ]
    );
}

#[test]
fn update_to_the_time_of_another_event_puts_it_in_front_of_that_event() {
    let mut s = ShiftDb::new();
    s.append(made("e1", "a", "s1", TaskState::Started, 10)).unwrap();
    s.append(made("e2", "b", "s2", TaskState::Started, 20)).unwrap();

    let target = made("e1", "a", "s1", TaskState::Started, 10);
    let change = made("e1", "a", "s1", TaskState::Started, 20);
    update(&mut s, target, change).unwrap();
    let ids: Vec<&str> = s.events().iter().map(|e| e.id.as_str()).collect();
    assert_eq!(ids, vec!["e1", "e2"]);
}
