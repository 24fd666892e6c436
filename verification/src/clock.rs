//! Trusted declarations around the monotonic clock.
//!
//! The wheel records the instant of its last tick and, when driven,
//! asks how many milliseconds have passed since. What the clock
//! answers depends on the machine and the moment, so none of these
//! wrappers can promise anything of its result; `TimeWheel::advance`
//! is verified for every possible step count instead.

use std::time::{Duration, Instant};
use vstd::prelude::*;

verus! {

#[verifier::external_type_specification]
#[verifier::external_body]
pub struct ExInstant(Instant);

/// Relies on `Instant::now`: an opaque reading of the monotonic
/// clock. Nothing can be promised of its value.
#[verifier::external_body]
pub(crate) fn instant_now() -> Instant {
    Instant::now()
}

/// Relies on `Instant::duration_since`: the time elapsed from
/// `earlier` to `later`, or zero if `earlier` is the later of the
/// two. Nothing is stated of the opaque result.
#[verifier::external_body]
pub(crate) fn duration_between(earlier: &Instant, later: &Instant) -> Duration {
    later.duration_since(*earlier)
}

/// Relies on `Duration::as_millis`: the duration in whole
/// milliseconds, saturated into a `u64`. Nothing is stated of the
/// result, since nothing is known of the duration.
#[verifier::external_body]
pub(crate) fn duration_to_millis(d: &Duration) -> u64 {
    u64::try_from(d.as_millis()).unwrap_or(u64::MAX)
}

} // verus!
