use shift_lib::clock::now;
use shift_lib::commands::pause::{pause, resume};
use shift_lib::commands::sessions::sessions;
use shift_lib::commands::start::{start, StartOpts};
use shift_lib::commands::stop::{self, stop, StopOpts};
use shift_lib::commands::undo::{self, undo, Opts};
use shift_lib::{Config, ShiftDb, TaskEvent, TaskState};

fn start_with_name(shift: &mut ShiftDb, s: &str) -> TaskEvent {
    let config = StartOpts { uid: Some(s.to_string()), ..Default::default() };
    start(shift, &config).unwrap()
}

fn event(id: &str, name: &str, session: &str, state: TaskState, time: i64) -> TaskEvent {
    TaskEvent::from_parts(id.to_string(), name.to_string(), session.to_string(), state, time)
}

#[test]
fn undo_start() {
    let mut s = ShiftDb::new();

    start_with_name(&mut s, "task2");

    let config = Config { all: true, ..Default::default() };
    let sessions_before = sessions(&s, &config).unwrap();

    start_with_name(&mut s, "task1");

    undo(&mut s, &Opts::default()).unwrap();

    let sessions_after = sessions(&s, &config).unwrap();

    assert_eq!(sessions_before, sessions_after);
}

#[test]
fn undo_stop() {
    let mut s = ShiftDb::new();

    start_with_name(&mut s, "task1");
    let opts = StopOpts { uid: Some("task1".to_owned()), ..Default::default() };
    stop(&mut s, &opts).unwrap();

    undo(&mut s, &undo::Opts::default()).unwrap();

    stop(&mut s, &opts).expect("Can stop again after undoing the last stop");
    assert_eq!(stop(&mut s, &opts).expect_err("Can't stop twice"), stop::Error::NoTasks);
}

#[test]
fn undo_stop_all() {
    let mut s = ShiftDb::new();

    start_with_name(&mut s, "task1");
    start_with_name(&mut s, "task2");
    start_with_name(&mut s, "task3");
    start_with_name(&mut s, "task4");
    let opts = StopOpts { all: true, ..Default::default() };
    stop(&mut s, &opts).unwrap();

    assert_eq!(undo(&mut s, &undo::Opts::default()).unwrap(), 4);

    for i in 1..=4 {
        let opts = StopOpts { uid: Some(format!("task{i}").to_owned()), ..Default::default() };
        stop(&mut s, &opts).expect("Can stop again after undoing the last stop");
        assert_eq!(stop(&mut s, &opts).expect_err("Can't stop twice"), stop::Error::NoTasks);
    }
}

#[test]
fn undo_switch() {
    let mut s = ShiftDb::new();

    start_with_name(&mut s, "task1");
    let time = now();
    let opts = StopOpts { all: true, stop_time: Some(time), ..Default::default() };
    stop(&mut s, &opts).unwrap();
    let opts =
        StartOpts { uid: Some("task2".to_string()), start_time: Some(time), ..Default::default() };
    start(&mut s, &opts).unwrap();

    assert_eq!(undo(&mut s, &undo::Opts::default()).unwrap(), 2);
}

#[test]
fn undo_pause() {
    let mut s = ShiftDb::new();

    start_with_name(&mut s, "task1");
    let opts = Config { ..Default::default() };
    pause(&mut s, &opts).unwrap();

    assert_eq!(undo(&mut s, &undo::Opts::default()).unwrap(), 1);
    pause(&mut s, &opts).expect("Can pause after undo");
}

#[test]
fn undo_pause_all() {
    let mut s = ShiftDb::new();

    start_with_name(&mut s, "task1");
    start_with_name(&mut s, "task2");
    start_with_name(&mut s, "task3");
    let opts = Config { all: true, ..Default::default() };
    pause(&mut s, &opts).unwrap();

    assert_eq!(undo(&mut s, &undo::Opts::default()).unwrap(), 3);
    pause(&mut s, &opts).expect("Can pause after undo");
}

#[test]
fn undo_resume() {
    let mut s = ShiftDb::new();

    start_with_name(&mut s, "task1");
    let opts = Config { all: true, ..Default::default() };
    pause(&mut s, &opts).unwrap();
    resume(&mut s, &opts).unwrap();

    assert_eq!(undo(&mut s, &undo::Opts::default()).unwrap(), 1);
    resume(&mut s, &opts).expect("Can pause after undo");
}

#[test]
fn undo_resume_all() {
    let mut s = ShiftDb::new();

    start_with_name(&mut s, "task1");
    start_with_name(&mut s, "task2");
    start_with_name(&mut s, "task3");
    let opts = Config { all: true, ..Default::default() };
    pause(&mut s, &opts).unwrap();
    resume(&mut s, &opts).unwrap();

    assert_eq!(undo(&mut s, &undo::Opts::default()).unwrap(), 3);
    resume(&mut s, &opts).expect("Can pause after undo");
}

#[test]
fn undo_on_an_empty_log_removes_nothing() {
    let mut s = ShiftDb::new();
    assert_eq!(undo(&mut s, &Opts::default()), Ok(0));
    assert!(s.events().is_empty());
}

#[test]
fn undo_gives_back_the_log_as_it_was() {
    let mut s = ShiftDb::new();
    s.append(event("e1", "a", "s1", TaskState::Started, 10)).unwrap();
    s.append(event("e2", "b", "s2", TaskState::Started, 20)).unwrap();
    let before: Vec<TaskEvent> = s.events().clone();
    let ongoing_before = s.ongoing_sessions();

    let opts = StopOpts { uid: Some("a".to_string()), stop_time: Some(30), ..Default::default() };
    stop(&mut s, &opts).unwrap();
    assert_ne!(s.events(), &before);

    assert_eq!(undo(&mut s, &Opts::default()), Ok(1));
    assert_eq!(s.events(), &before);
    assert_eq!(s.ongoing_sessions(), ongoing_before);
}

#[test]
fn undo_after_a_batch_removes_exactly_the_batch() {
    let mut s = ShiftDb::new();
    s.append(event("e1", "a", "s1", TaskState::Started, 10)).unwrap();
    s.append(event("e2", "b", "s2", TaskState::Started, 20)).unwrap();
    s.append(event("e3", "c", "s3", TaskState::Started, 20)).unwrap();
    let before: Vec<TaskEvent> = s.events().clone();

    let opts = StopOpts { all: true, stop_time: Some(21), ..Default::default() };
    stop(&mut s, &opts).unwrap();
    assert_eq!(s.events().len(), 6);
    assert!(s.events()[..3].iter().all(|e| e.time == 21));

    assert_eq!(undo(&mut s, &Opts::default()), Ok(3));
    assert_eq!(s.events(), &before);
}

#[test]
fn undo_takes_every_event_of_the_newest_time_with_it() {
    let mut s = ShiftDb::new();
    s.append(event("e1", "a", "s1", TaskState::Started, 10)).unwrap();
    s.append(event("e2", "b", "s2", TaskState::Started, 20)).unwrap();
    s.append(event("e3", "c", "s3", TaskState::Started, 20)).unwrap();

    assert_eq!(undo(&mut s, &Opts::default()), Ok(2));
    assert_eq!(s.events(), &vec![event("e1", "a", "s1", TaskState::Started, 10)]);
}

#[test]
fn undo_after_a_command_in_the_past_removes_the_newest_event_instead() {
    let mut s = ShiftDb::new();
    s.append(event("e1", "a", "s1", TaskState::Started, 10)).unwrap();
    s.append(event("e2", "b", "s2", TaskState::Started, 5)).unwrap();

    assert_eq!(undo(&mut s, &Opts::default()), Ok(1));
    assert_eq!(s.events(), &vec![event("e2", "b", "s2", TaskState::Started, 5)]);
}
