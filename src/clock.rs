//! The monotonic clock that time-to-live expiry reads.
use std::time::{Duration, Instant};
use vstd::prelude::*;

verus! {

#[verifier::external_type_specification]
#[verifier::external_body]
pub struct ExInstant(Instant);

/// Relies on `Instant::now`: the current point of the monotonic clock.
#[verifier::external_body]
pub(crate) fn instant_now() -> (r: Instant) {
    Instant::now()
}

/// Relies on `Instant::elapsed`: the time since `start`.
#[verifier::external_body]
pub(crate) fn elapsed_since(start: &Instant) -> (r: Duration) {
    start.elapsed()
}

/// Relies on `Duration::as_millis`: whole milliseconds, kept to 64 bits.
#[verifier::external_body]
pub(crate) fn whole_millis(d: &Duration) -> (r: u64) {
    d.as_millis() as u64
}

} // verus!
