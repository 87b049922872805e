//! Reading the monotonic clock of `std::time`.

use std::time::Instant;
use vstd::prelude::*;

verus! {

/// `std::time::Instant`, carried opaquely from one clock reading to the next.
#[verifier::external_type_specification]
#[verifier::external_body]
pub struct ExInstant(Instant);

/// `Instant::now`: the current reading of the monotonic clock; nothing is
/// stated of it.
#[verifier::external_body]
pub(crate) fn clock_now() -> Instant {
    Instant::now()
}

/// `Instant::elapsed`, as nanoseconds: the time since `start`; it depends on
/// the clock, so nothing is stated of it.
#[verifier::external_body]
pub(crate) fn nanos_since(start: &Instant) -> u128 {
    start.elapsed().as_nanos()
}

} // verus!
