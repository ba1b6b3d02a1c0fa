//! The time.
use std::time::{Duration, SystemTime, SystemTimeError, UNIX_EPOCH};
use vstd::prelude::*;

verus! {

/// `std::time::SystemTime`, a reading of the clock.
#[verifier::external_type_specification]
#[verifier::external_body]
pub struct ExSystemTime(SystemTime);

/// `std::time::SystemTimeError`, the time that is asked for lies in the future.
#[verifier::external_type_specification]
#[verifier::external_body]
pub struct ExSystemTimeError(SystemTimeError);

/// `std::time::SystemTime::now`: any time may come.
#[verifier::external_body]
fn now() -> SystemTime {
    SystemTime::now()
}

/// `std::time::SystemTime::duration_since` the Unix epoch: how much later the
/// time is, or an error where it is earlier. The clock decides which comes.
#[verifier::external_body]
fn since_epoch(time: SystemTime) -> Result<Duration, SystemTimeError> {
    time.duration_since(UNIX_EPOCH)
}

/// `std::time::Duration::as_secs`: the whole seconds. A duration has no contents
/// that a contract could speak of.
#[verifier::external_body]
fn whole_seconds(duration: Duration) -> u64 {
    duration.as_secs()
}

/// The seconds that have passed, none where the clock is before the epoch.
pub fn seconds_or_zero(elapsed: Option<u64>) -> (r: u64)
    ensures
        r == (match elapsed {
            Some(s) => s,
            None => 0,
        }),
{
    match elapsed {
        Some(s) => s,
        None => 0,
    }
}

/// A number of seconds that the clock gives: a reading of the clock is taken,
/// and the number is the whole seconds from the Unix epoch to that reading, or
/// zero where the reading is before the epoch.
pub closed spec fn told_by_the_clock(seconds: u64) -> bool {
    exists|time: SystemTime, elapsed: Result<Duration, SystemTimeError>|
        #![trigger call_ensures(since_epoch, (time,), elapsed)]
        {
            &&& call_ensures(now, (), time)
            &&& call_ensures(since_epoch, (time,), elapsed)
            &&& match elapsed {
                Ok(duration) => call_ensures(whole_seconds, (duration,), seconds),
                Err(_) => seconds == 0,
            }
        }
}

/// The seconds since the Unix epoch. Which number comes is up to the clock.
pub fn current_timestamp() -> (r: u64)
    ensures
        told_by_the_clock(r),
{
    let time = now();
    let elapsed = since_epoch(time);
    let seconds = match elapsed {
        Ok(duration) => Some(whole_seconds(duration)),
        Err(_) => None,
    };
    seconds_or_zero(seconds)
}

} // verus!
