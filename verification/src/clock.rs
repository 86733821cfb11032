//! The system clock as a source of varying numbers.

use std::time::{Duration, SystemTime, SystemTimeError};
use vstd::prelude::*;

verus! {

/// A point in time as the system clock tells it. Nothing inside is read here.
#[verifier::external_type_specification]
#[verifier::external_body]
pub struct ExSystemTime(std::time::SystemTime);

/// The error of a clock that stands before the point it is held against.
#[verifier::external_type_specification]
#[verifier::external_body]
pub struct ExSystemTimeError(std::time::SystemTimeError);

/// `SystemTime::now` reads the system clock. Nothing is promised of the time.
pub assume_specification[ SystemTime::now ]() -> SystemTime;

/// `SystemTime::duration_since` gives the time elapsed from `earlier`, or an
/// error where `earlier` is the later of the two. Nothing is promised of either.
pub assume_specification[ SystemTime::duration_since ](
    time: &SystemTime,
    earlier: SystemTime,
) -> Result<Duration, SystemTimeError>;

/// `SystemTimeError::duration` gives how far the clock stood behind.
pub assume_specification[ SystemTimeError::duration ](error: &SystemTimeError) -> Duration;

/// `Duration::as_nanos` gives the whole nanoseconds of a duration.
pub assume_specification[ Duration::as_nanos ](duration: &Duration) -> u128;

/// `SystemTime::UNIX_EPOCH`, the start of 1970.
#[verifier::external_body]
fn unix_epoch() -> SystemTime {
    SystemTime::UNIX_EPOCH
}

/// The low 64 bits of a number.
fn low_bits(n: u128) -> (r: u64)
    ensures
        r == n % 0x1_0000_0000_0000_0000,
{
    (n % 0x1_0000_0000_0000_0000) as u64
}

/// Reads the clock as nanoseconds from the start of 1970, or up to it where
/// the clock stands before, cut to 64 bits. Nothing is promised of the
/// number: it differs from call to call and may repeat.
pub(crate) fn rand_u64() -> u64 {
    let now = SystemTime::now();
    match now.duration_since(unix_epoch()) {
        Ok(elapsed) => low_bits(elapsed.as_nanos()),
        Err(behind) => low_bits(behind.duration().as_nanos()),
    }
}

} // verus!
