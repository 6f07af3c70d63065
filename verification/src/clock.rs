//! The wall clock, as far as the generator's seeding needs it.

use std::time::{Duration, SystemTime, SystemTimeError};
use vstd::prelude::*;

verus! {

/// `std::time::SystemTime`, a reading of the wall clock, carried through
/// as it is.
#[verifier::external_type_specification]
#[verifier::external_body]
pub struct ExSystemTime(SystemTime);

/// `std::time::SystemTimeError`, the error of a reading that lies before
/// the time it is measured against.
#[verifier::external_type_specification]
#[verifier::external_body]
pub struct ExSystemTimeError(SystemTimeError);

/// `SystemTime::now` reads the wall clock; nothing is claimed of the reading.
pub assume_specification[ SystemTime::now ]() -> (now: SystemTime);

/// `SystemTime::duration_since`, measured against `SystemTime::UNIX_EPOCH`: the
/// time from the start of 1970 (UTC) to `time`, or an error where `time` lies
/// before it. Nothing is claimed of the outcome.
#[verifier::external_body]
fn since_epoch(time: &SystemTime) -> (elapsed: Result<Duration, SystemTimeError>) {
    time.duration_since(SystemTime::UNIX_EPOCH)
}

/// `Duration::as_micros` gives the whole microseconds of a duration; nothing
/// is claimed of the number.
pub assume_specification[ Duration::as_micros ](duration: &Duration) -> (micros: u128);

/// Microseconds between the start of 1970 (UTC) and now, or `None` where the
/// clock reads earlier than that.
pub(crate) fn micros_since_epoch() -> (micros: Option<u128>) {
    let now: SystemTime = SystemTime::now();
    match since_epoch(&now) {
        Ok(elapsed) => Some(elapsed.as_micros()),
        Err(_) => None,
    }
}

} // verus!
