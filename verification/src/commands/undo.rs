//! Taking back the last thing that happened.

use vstd::prelude::*;
use crate::shift_db::{log_undo, ShiftDb};

verus! {

/// Undo has no way to fail; the type is here for callers that want one
/// error type per command.
#[derive(Debug, PartialEq, Eq)]
pub enum Error {
    A,
}

/// Undo takes no options.
#[derive(Debug)]
pub struct Opts {}

impl Default for Opts {
    fn default() -> (r: Self) {
        Opts {  }
    }
}

/// Removes the events that share the newest timestamp of the log and
/// returns how many they were: one for a single command, all of them for a
/// command that acted on several sessions at once.
pub fn undo(s: &mut ShiftDb, _opts: &Opts) -> (r: Result<usize, Error>)
    ensures
        final(s)@ == log_undo(old(s)@),
        r matches Ok(removed) && removed == old(s)@.len() - final(s)@.len(),
{
    Ok(s.delete_latest())
}

} // verus!
