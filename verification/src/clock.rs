//! The wall clock.

use vstd::prelude::*;
use std::time::{Duration, SystemTime, SystemTimeError};

verus! {

/// `std::time::SystemTime`, carried through opaquely.
#[verifier::external_type_specification]
#[verifier::external_body]
pub struct ExSystemTime(std::time::SystemTime);

/// `std::time::SystemTimeError`, carried through opaquely.
#[verifier::external_type_specification]
#[verifier::external_body]
pub struct ExSystemTimeError(std::time::SystemTimeError);

/// Calls `SystemTime::now()`: the reading depends on the time of the call, so
/// nothing is stated of it.
#[verifier::external_body]
fn system_now() -> SystemTime {
    SystemTime::now()
}

/// Calls `t.duration_since(UNIX_EPOCH)`: how long after the Unix epoch `t`
/// lies, or an error when `t` is earlier. The duration is opaque here, so
/// nothing is stated of it.
#[verifier::external_body]
fn since_unix_epoch(t: &SystemTime) -> Result<Duration, SystemTimeError> {
    t.duration_since(std::time::UNIX_EPOCH)
}

/// Calls `Duration::as_millis`: the whole milliseconds of `d`. The duration is
/// opaque here, so nothing is stated of the count.
#[verifier::external_body]
fn whole_millis(d: &Duration) -> u128 {
    d.as_millis()
}

/// Milliseconds since the Unix epoch by the system clock (truncated to `i64`),
/// or 0 when the clock reads earlier than the epoch. The reading depends on the
/// time of the call, so nothing is stated of it.
pub fn now_ms() -> i64 {
    let now = system_now();
    match since_unix_epoch(&now) {
        Ok(d) => {
            let ms = whole_millis(&d);
            #[verifier::truncate]
            (ms as i64)
        },
        Err(_) => 0,
    }
}

} // verus!
