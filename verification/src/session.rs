//! Session identifiers drawn from the clock.

use vstd::prelude::*;
use std::time::{Duration, SystemTime, SystemTimeError};

verus! {

/// A point of the system clock, opaque to the verifier.
#[verifier::external_type_specification]
#[verifier::external_body]
pub struct ExSystemTime(SystemTime);

/// The error of a clock that stands before the point it is compared with.
#[verifier::external_type_specification]
#[verifier::external_body]
pub struct ExSystemTimeError(SystemTimeError);

/// `SystemTime::now` reads the system clock. Nothing is claimed of the
/// point it returns.
pub assume_specification[ SystemTime::now ]() -> (now: SystemTime);

/// `Duration::as_millis` gives the whole milliseconds of a duration.
/// Nothing is claimed of the number.
pub assume_specification[ Duration::as_millis ](duration: &Duration) -> (millis: u128);

/// `SystemTime::duration_since`, applied to the Unix epoch: the time that
/// has passed since the epoch, or the error of a clock set before it.
/// Nothing is claimed of either.
#[verifier::external_body]
fn since_epoch(now: &SystemTime) -> (elapsed: Result<Duration, SystemTimeError>) {
    now.duration_since(std::time::UNIX_EPOCH)
}

/// The identifier for a number of milliseconds since the epoch: its low 64
/// bits. A clock set before the epoch gives 0.
pub fn unique_id_from_elapsed(elapsed: Option<u128>) -> (id: u64)
    ensures
        id as int == match elapsed {
            Some(millis) => millis as int % 0x1_0000_0000_0000_0000,
            None => 0,
        },
{
    match elapsed {
        Some(millis) => (millis % 0x1_0000_0000_0000_0000u128) as u64,
        None => 0,
    }
}

/// A session identifier: the milliseconds that have passed since the Unix
/// epoch, as `unique_id_from_elapsed` turns them into an identifier.
pub fn generate_unique_id() -> (id: u64) {
    let now = SystemTime::now();
    let elapsed: Option<u128> = match since_epoch(&now) {
        Ok(duration) => Some(duration.as_millis()),
        Err(_) => None,
    };
    unique_id_from_elapsed(elapsed)
}

} // verus!
