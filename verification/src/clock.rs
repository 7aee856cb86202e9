//! Readings of the wall clock and of a monotonic timer.
//!
//! A clock reading depends on the moment of the call, so nothing useful can
//! be promised about the value returned; callers state what holds of every
//! possible reading.

use std::time::Instant;
use std::time::SystemTime;
use std::time::UNIX_EPOCH;
use vstd::prelude::*;

verus! {

/// Relies on std::time::SystemTime for the wall clock: seconds since the
/// Unix epoch, or zero if the clock reads before the epoch.
#[verifier::external_body]
pub fn current_timestamp() -> u64 {
    match SystemTime::now().duration_since(UNIX_EPOCH) {
        Ok(d) => d.as_secs(),
        Err(_) => 0,
    }
}

#[verifier::external_type_specification]
#[verifier::external_body]
pub struct ExInstant(Instant);

/// Relies on std::time::Instant::now for a point on the monotonic timer.
#[verifier::external_body]
pub fn monotonic_now() -> Instant {
    Instant::now()
}

/// Relies on std::time::Instant::elapsed: the time since `start`, in
/// nanoseconds, saturated to 64 bits.
#[verifier::external_body]
pub fn elapsed_nanos(start: &Instant) -> u64 {
    let nanos = start.elapsed().as_nanos();
    if nanos > u64::MAX as u128 {
        u64::MAX
    } else {
        nanos as u64
    }
}

} // verus!
