//! The wall clock.

use vstd::prelude::*;

verus! {

/// `chrono::Local::now`, read through `DateTime::timestamp_nanos_opt`: the
/// current time as nanoseconds since the Unix epoch, or `None` when that
/// count does not fit an `i64`. The reading is the machine's; nothing is
/// claimed of it. `Local::now` panics on a system clock set before 1970.
#[verifier::external_body]
pub(crate) fn clock_nanos() -> Option<i64> {
    chrono::Local::now().timestamp_nanos_opt()
}

/// The current time in nanoseconds since the Unix epoch. A clock beyond
/// what an `i64` of nanoseconds can hold (the year 2262) reads as the
/// largest timestamp.
pub fn now() -> i64 {
    reading_or_last(clock_nanos())
}

/// The time a command carries: the one the caller chose, else the clock's.
pub fn time_or_now(at: Option<i64>) -> (r: i64)
    ensures
        at matches Some(t) ==> r == t,
{
    match at {
        Some(t) => t,
        None => now(),
    }
}

/// The timestamp that a reading of the clock stands for: the reading
/// itself, or the largest timestamp where the clock gave none.
pub open spec fn timestamp_of(reading: Option<i64>) -> i64 {
    match reading {
        Some(t) => t,
        None => i64::MAX,
    }
}

/// Turns a reading of the clock into a timestamp.
pub fn reading_or_last(reading: Option<i64>) -> (r: i64)
    ensures
        r == timestamp_of(reading),
{
    match reading {
        Some(t) => t,
        None => i64::MAX,
    }
}

} // verus!
