//! A task-time-tracking engine built on an event log.
//!
//! Every fact about a task (started, paused, resumed, stopped) is an
//! immutable [`TaskEvent`] in a [`ShiftDb`]. Sessions, their current state
//! and their elapsed and paused durations are derived from the log on every
//! read; nothing else is stored.
//!
//! - [`task_state`]: the kinds of event and the rules for what may follow
//!   what.
//! - [`task_event`], [`task_session`]: events, sessions and the durations of
//!   a session.
//! - [`shift_db`]: the log itself, read newest first.
//! - [`reconstruct`]: grouping events into sessions.
//! - [`select`]: settling which sessions a command is about.
//! - [`commands`]: start, stop, pause, resume, switch, undo and the queries.
//! - [`laws`]: what holds of all of these together.
//!
//! Timestamps are nanoseconds since the Unix epoch; [`clock`] reads them
//! and [`ident`] makes the identifiers of new events and sessions.

pub mod clock;
pub mod commands;
pub mod config;
pub mod ident;
pub mod laws;
pub mod reconstruct;
pub mod select;
pub mod shift_db;
pub mod task_event;
pub mod task_session;
pub mod task_state;
pub mod text;

pub use config::Config;
pub use shift_db::ShiftDb;
pub use task_event::TaskEvent;
pub use task_session::TaskSession;
pub use task_state::TaskState;
