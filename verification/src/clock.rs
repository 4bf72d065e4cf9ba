//! Reading the monotonic clock, to time the phases of indexing and lookup.

use core::time::Duration;
use std::time::Instant;
use vstd::prelude::*;

verus! {

/// Declares `std::time::Instant`, a point in time, to the verifier.
#[verifier::external_type_specification]
#[verifier::external_body]
pub struct ExInstant(Instant);

/// Calls `std::time::Instant::now`. Nothing is claimed of the instant.
#[verifier::external_body]
pub(crate) fn now() -> Instant {
    Instant::now()
}

/// Calls `std::time::Instant::elapsed` on `started`. Nothing is claimed of
/// the duration.
#[verifier::external_body]
pub(crate) fn elapsed(started: &Instant) -> Duration {
    started.elapsed()
}

} // verus!
