//! Trusted boundary to the system clock. What the clock returns depends on
//! the machine and the moment, so nothing is promised of the readings.

use vstd::prelude::*;

verus! {

/// Declares `std::time::Instant` so a deadline's start can be carried.
#[verifier::external_type_specification]
#[verifier::external_body]
pub struct ExInstant(std::time::Instant);

/// Relies on `std::time::Instant::now`: a reading of the monotonic clock.
#[verifier::external_body]
pub fn now_instant() -> std::time::Instant {
    std::time::Instant::now()
}

/// Relies on `std::time::Instant::elapsed` and `Duration::as_millis`: the
/// whole milliseconds since the reading was taken, truncated to 64 bits.
#[verifier::external_body]
pub fn elapsed_millis(start: &std::time::Instant) -> u64 {
    start.elapsed().as_millis() as u64
}

} // verus!
