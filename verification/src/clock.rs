//! Readings of the system clocks. What they return depends on when they are called, so
//! nothing is promised of their values.

use std::time::Duration;
use std::time::Instant;
use std::time::SystemTime;
use std::time::UNIX_EPOCH;
use vstd::prelude::*;

verus! {

#[verifier::external_type_specification]
#[verifier::external_body]
pub struct ExInstant(Instant);

#[verifier::external_type_specification]
#[verifier::external_body]
pub struct ExSystemTime(SystemTime);

/// `Instant::now`: the current reading of the monotonic clock.
#[verifier::external_body]
pub fn instant_now() -> Instant {
    Instant::now()
}

/// `Instant::elapsed`: the time since `t` was read.
#[verifier::external_body]
pub fn instant_elapsed(t: &Instant) -> Duration {
    t.elapsed()
}

/// `Duration >= Duration`.
#[verifier::external_body]
pub fn duration_at_least(a: &Duration, b: &Duration) -> bool {
    *a >= *b
}

/// `SystemTime::now`: the current wall-clock time.
#[verifier::external_body]
pub fn system_now() -> SystemTime {
    SystemTime::now()
}

/// `SystemTime::duration_since(UNIX_EPOCH)`: the time since 1970-01-01T00:00:00Z, or `None`
/// when the clock reads earlier than that.
#[verifier::external_body]
pub fn since_unix_epoch(t: &SystemTime) -> Option<Duration> {
    t.duration_since(UNIX_EPOCH).ok()
}

/// `Duration::as_secs`: the whole seconds of a duration.
#[verifier::external_body]
pub fn duration_secs(d: &Duration) -> u64 {
    d.as_secs()
}

/// Whole seconds since the UNIX epoch by the wall clock, or `None` before the epoch.
pub fn unix_seconds() -> Option<u64> {
    let now = system_now();
    match since_unix_epoch(&now) {
        Some(d) => Some(duration_secs(&d)),
        None => None,
    }
}

} // verus!
