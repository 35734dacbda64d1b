//! The clock of the machine.
use std::time::Instant;
use vstd::prelude::*;

verus! {

/// A reading of the clock, `std::time::Instant`.
#[verifier::external_type_specification]
#[verifier::external_body]
pub struct ExInstant(std::time::Instant);

/// Reads the clock with `std::time::Instant::now`. Nothing is claimed of what it reads.
#[verifier::external_body]
pub(crate) fn clock() -> (r: Instant) {
    Instant::now()
}

/// The time since a reading of the clock, by `std::time::Instant::elapsed`. Nothing is
/// claimed of it.
#[verifier::external_body]
pub(crate) fn elapsed(start: &Instant) -> (r: std::time::Duration) {
    start.elapsed()
}

/// A time as a number of nanoseconds, by `std::time::Duration::as_nanos`. A time is opaque
/// here, and comes only from the clock; which number it is, is left unsaid.
#[verifier::external_body]
pub(crate) fn as_nanos(time: &std::time::Duration) -> (r: u128) {
    time.as_nanos()
}

/// The nanoseconds since a reading of the clock.
pub(crate) fn nanos_since(start: &Instant) -> (r: u128) {
    let time = elapsed(start);
    as_nanos(&time)
}

} // verus!
