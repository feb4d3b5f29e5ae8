use std::time::{Duration, SystemTime, SystemTimeError, UNIX_EPOCH};
use vstd::prelude::*;

verus! {

#[verifier::external_type_specification]
#[verifier::external_body]
pub struct ExSystemTime(SystemTime);

#[verifier::external_type_specification]
#[verifier::external_body]
pub struct ExSystemTimeError(SystemTimeError);

/// `SystemTime::now`: the time of the system clock. Nothing is claimed of it.
#[verifier::external_body]
fn system_now() -> SystemTime {
    SystemTime::now()
}

/// `SystemTime::duration_since` with the Unix epoch: the time that has passed
/// since then, or an error where the clock stands before it. Nothing is claimed of either.
#[verifier::external_body]
fn since_epoch(time: &SystemTime) -> Result<Duration, SystemTimeError> {
    time.duration_since(UNIX_EPOCH)
}

/// `Duration::as_secs`: the whole seconds of a duration. Nothing is claimed of them.
#[verifier::external_body]
fn whole_seconds(duration: &Duration) -> u64 {
    duration.as_secs()
}

/// The seconds since the Unix epoch by the system clock; zero where the clock stands before it.
pub fn unix_seconds() -> u64 {
    let now = system_now();
    let elapsed: Result<u64, SystemTimeError> = match since_epoch(&now) {
        Ok(duration) => Ok(whole_seconds(&duration)),
        Err(error) => Err(error),
    };
    seconds_or_zero(elapsed)
}

/// The seconds to record for a reading of the clock: those that have passed
/// since the Unix epoch, or zero where the clock stands before it.
pub fn seconds_or_zero(elapsed: Result<u64, SystemTimeError>) -> (seconds: u64)
    ensures
        seconds == match elapsed {
            Ok(passed) => passed,
            Err(_) => 0,
        },
{
    match elapsed {
        Ok(passed) => passed,
        Err(_) => 0,
    }
}

} // verus!
