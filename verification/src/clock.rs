//! The wall clock, in seconds since the Unix epoch.

use vstd::prelude::*;

verus! {

/// `UNIX_EPOCH.elapsed()`: whole seconds since the Unix epoch, or, as an error,
/// the seconds and nanoseconds until it. Nothing is claimed of the clock.
#[verifier::external_body]
fn clock() -> (r: Result<u64, (u64, u32)>) {
    std::time::UNIX_EPOCH.elapsed().map(|d| d.as_secs()).map_err(
        |e| (e.duration().as_secs(), e.duration().subsec_nanos()),
    )
}

/// The clock reading for what the clock shows: a second that has begun counts
/// from its beginning, so that the distance to an epoch that lies ahead is
/// rounded up.
pub open spec fn reading_of(shown: Result<u64, (u64, u32)>) -> Result<u64, u64> {
    match shown {
        Ok(seconds) => Ok(seconds),
        Err((seconds, nanos)) => if nanos > 0 && seconds < u64::MAX {
            Err((seconds + 1) as u64)
        } else {
            Err(seconds)
        },
    }
}

/// The clock reading for what the clock shows.
pub fn to_reading(shown: Result<u64, (u64, u32)>) -> (reading: Result<u64, u64>)
    ensures
        reading == reading_of(shown),
{
    match shown {
        Ok(seconds) => Ok(seconds),
        Err((seconds, nanos)) => if nanos > 0 && seconds < u64::MAX {
            Err(seconds + 1)
        } else {
            Err(seconds)
        },
    }
}

/// Reads the clock: the second since the Unix epoch, or how far it lies ahead.
/// Nothing is known of what it shows.
pub fn read_clock() -> (reading: Result<u64, u64>) {
    to_reading(clock())
}

/// The second that a clock reading stands for when a deadline is held against
/// it. A clock that cannot be trusted stands at the end of time, so that every
/// deadline has passed.
pub open spec fn deadline_second(reading: Result<u64, u64>) -> i64 {
    match reading {
        Ok(seconds) => if seconds <= i64::MAX {
            seconds as i64
        } else {
            i64::MAX
        },
        Err(_) => i64::MAX,
    }
}

/// The second that a clock reading stands for when a deadline is held against
/// it.
pub fn deadline_now(reading: Result<u64, u64>) -> (now: i64)
    ensures
        now == deadline_second(reading),
{
    match reading {
        Ok(seconds) => if seconds <= i64::MAX as u64 {
            seconds as i64
        } else {
            i64::MAX
        },
        Err(_) => i64::MAX,
    }
}

/// The current second, never one before the Unix epoch.
pub fn unix_now() -> (now: i64)
    ensures
        now >= 0,
{
    deadline_now(read_clock())
}

/// A clock that cannot be trusted lets every deadline pass; one that can be is
/// taken at its word, and a later second is never taken for an earlier one.
pub proof fn law_deadlines_and_the_clock(seconds: u64, later: u64, off: u64, deadline: i64)
    requires
        seconds <= later,
        deadline < i64::MAX,
    ensures
        deadline < deadline_second(Err(off)),
        seconds <= i64::MAX ==> deadline_second(Ok(seconds)) == seconds,
        deadline_second(Ok(seconds)) <= deadline_second(Ok(later)),
{
}

/// A reading says how many whole seconds have passed; before the epoch it says
/// how many seconds it takes to get there, the begun one included.
pub proof fn law_readings(seconds: u64, nanos: u32)
    ensures
        reading_of(Ok(seconds)) == Ok::<u64, u64>(seconds),
        reading_of(Err((seconds, 0))) == Err::<u64, u64>(seconds),
        nanos > 0 && seconds < u64::MAX ==> reading_of(Err((seconds, nanos))) == Err::<u64, u64>(
            (seconds + 1) as u64,
        ),
{
}

} // verus!
