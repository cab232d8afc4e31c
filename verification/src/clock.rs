//! The monotonic clock that timeouts are measured on.

use std::time::{Duration, Instant};
use vstd::prelude::*;

verus! {

/// The standard library's monotonic instant, carried through opaquely.
#[verifier::external_type_specification]
#[verifier::external_body]
pub struct ExInstant(std::time::Instant);

/// Calls `std::time::Instant::now`. Nothing is claimed of the result.
#[verifier::external_body]
pub(crate) fn instant_now() -> Instant {
    Instant::now()
}

/// Calls `std::time::Instant::elapsed`. Nothing is claimed of the result: it
/// depends on the time of the call.
#[verifier::external_body]
pub(crate) fn instant_elapsed(start: &Instant) -> Duration {
    start.elapsed()
}

/// Calls `std::time::Duration::as_millis`. Nothing is claimed of the result.
#[verifier::external_body]
pub(crate) fn duration_as_millis(d: &Duration) -> u128 {
    d.as_millis()
}

/// Milliseconds since `start` on the monotonic clock, cut to 64 bits.
pub(crate) fn millis_since(start: &Instant) -> u64 {
    let elapsed = instant_elapsed(start);
    duration_as_millis(&elapsed) as u64
}

/// Milliseconds from `then` to `now`, or zero when `now` is earlier.
pub open spec fn age(now: u64, then: u64) -> nat {
    if now >= then {
        (now - then) as nat
    } else {
        0
    }
}

/// Milliseconds from `then` to `now`, or zero when `now` is earlier.
pub fn waited(now: u64, then: u64) -> (r: u64)
    ensures
        r == age(now, then),
{
    if now >= then {
        now - then
    } else {
        0
    }
}

} // verus!
