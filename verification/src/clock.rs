//! Monotonic clock readings, for profiling wrappers.
//!
//! Nothing is promised of the values the clock yields: they depend on the
//! machine and the moment, so callers treat every outcome alike.

use vstd::prelude::*;

verus! {

#[verifier::external_type_specification]
#[verifier::external_body]
pub struct ExInstant(std::time::Instant);

/// Relies on `std::time::Instant::now`: an opaque reading of the monotonic
/// clock.
#[verifier::external_body]
pub fn instant_now() -> std::time::Instant {
    std::time::Instant::now()
}

/// Relies on `std::time::Instant::elapsed`: the time passed since the
/// reading was taken.
#[verifier::external_body]
pub fn instant_elapsed(start: &std::time::Instant) -> core::time::Duration {
    start.elapsed()
}

/// Relies on `core::time::Duration::as_nanos`: the whole duration counted
/// in nanoseconds.
#[verifier::external_body]
pub fn duration_nanos(d: &core::time::Duration) -> u128 {
    d.as_nanos()
}

} // verus!
