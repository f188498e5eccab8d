//! What is running now.

use vstd::prelude::*;
use crate::config::Config;
use crate::reconstruct::ongoing_sessions;
use crate::shift_db::ShiftDb;
use crate::task_session::TaskSession;

verus! {

/// The ongoing sessions, the one whose newest event is oldest first. The
/// options play no part.
pub fn status(s: &ShiftDb, _args: &Config) -> (r: Vec<TaskSession>)
    ensures
        r.deep_view() == ongoing_sessions(s@),
{
    s.ongoing_sessions()
}

} // verus!
