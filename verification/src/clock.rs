//! The wall clock.
use std::time::{Duration, SystemTime, SystemTimeError, UNIX_EPOCH};

use vstd::prelude::*;

verus! {

/// A reading of the system clock.
#[verifier::external_type_specification]
#[verifier::external_body]
pub struct ExSystemTime(SystemTime);

/// The answer to a span that would run backwards.
#[verifier::external_type_specification]
#[verifier::external_body]
pub struct ExSystemTimeError(SystemTimeError);

/// `SystemTime::now` reads the clock. Nothing is claimed of what it reads.
pub assume_specification[ SystemTime::now ]() -> SystemTime
;

/// `SystemTime::duration_since` measures the span from the epoch to a reading,
/// and refuses one that lies before it. Nothing is claimed of the span: it
/// depends on the clock.
#[verifier::external_body]
fn since_epoch(reading: SystemTime) -> Result<Duration, SystemTimeError> {
    reading.duration_since(UNIX_EPOCH)
}

/// `Duration::as_millis` gives a span in whole milliseconds. Nothing is
/// claimed of it: the span comes from the clock.
pub assume_specification[ Duration::as_millis ](span: &Duration) -> u128
;

/// Milliseconds as the protocol carries them: the low 64 bits, and zero for a
/// clock set before the epoch.
pub fn as_unix_ms(since_epoch: Option<u128>) -> (r: u64)
    ensures
        r == match since_epoch {
            Some(ms) => (ms % 0x1_0000_0000_0000_0000) as u64,
            None => 0,
        },
{
    match since_epoch {
        Some(ms) => (ms % 0x1_0000_0000_0000_0000) as u64,
        None => 0,
    }
}

/// Milliseconds since the epoch, by the wall clock.
pub fn now_unix_ms() -> u64 {
    match since_epoch(SystemTime::now()) {
        Ok(span) => as_unix_ms(Some(span.as_millis())),
        Err(_) => as_unix_ms(None),
    }
}

} // verus!
