//! Reading sessions from the log.

use vstd::prelude::*;
use crate::commands::events::{capped, filter_events, passing, Error};
use crate::config::Config;
use crate::reconstruct::{group, group_sessions};
use crate::shift_db::ShiftDb;
use crate::task_event::EventView;
use crate::task_session::{SessionView, TaskSession};

verus! {

/// The cap on the number of sessions listed: `count`, unless the caller
/// asked for all sessions or for given tasks, which lifts the cap.
pub open spec fn session_cap(count: usize, all: bool, names: Seq<Seq<char>>) -> Option<usize> {
    if all || names.len() > 0 {
        None
    } else {
        Some(count)
    }
}

/// The sessions that the events passing the filter form, the session with
/// the most recent event first, and no more of them than the cap allows.
pub open spec fn sessions_spec(
    log: Seq<EventView>,
    from: Option<i64>,
    to: Option<i64>,
    names: Seq<Seq<char>>,
    count: usize,
    all: bool,
) -> Seq<SessionView> {
    capped(group_sessions(log.filter(passing(from, to, names))), session_cap(count, all, names))
}

/// The first sessions of `sessions`, no more than `cap` where a cap is set.
pub fn first_sessions(sessions: Vec<TaskSession>, cap: Option<usize>) -> (r: Vec<TaskSession>)
    ensures
        r.deep_view() == capped(sessions.deep_view(), cap),
{
    let ghost all = sessions.deep_view();
    let mut out = sessions;
    match cap {
        Some(n) => {
            if n < out.len() {
                out.truncate(n);
                assert(out.deep_view() =~= all.take(n as int));
            }
        },
        None => {},
    }
    out
}

/// The sessions of the log as `args` asks for them.
///
/// Only events strictly inside the window from `args.from` to `args.to`
/// and, where `args.tasks` names tasks, of those tasks are read. They are
/// grouped into sessions, the session with the most recent event first
/// and each session's events oldest first. Of these the first `args.count`
/// are returned, or all of them where `args.all` is set or tasks are named.
pub fn sessions(s: &ShiftDb, args: &Config) -> (r: Result<Vec<TaskSession>, Error>)
    ensures
        r matches Ok(found) && found.deep_view() == sessions_spec(
            s@,
            args.from,
            args.to,
            args.tasks.deep_view(),
            args.count,
            args.all,
        ),
{
    let events = filter_events(s.events(), args.from, args.to, &args.tasks, None);
    let grouped = group(&events);
    let cap: Option<usize> = if args.all || args.tasks.len() > 0 {
        None
    } else {
        Some(args.count)
    };
    Ok(first_sessions(grouped, cap))
}

} // verus!
