use vstd::prelude::*;
use std::time::{Duration, Instant};

verus! {

#[verifier::external_type_specification]
#[verifier::external_body]
pub struct ExInstant(Instant);

/// Relies on `Instant::now`: the current time. Nothing is known of its value.
pub assume_specification[ Instant::now ]() -> Instant;

/// Relies on `Instant::elapsed`: the time since `start`. Nothing is known of its value.
pub assume_specification[ Instant::elapsed ](start: &Instant) -> Duration;

/// Relies on `Duration::from_millis`: a span of `millis` milliseconds.
pub assume_specification[ Duration::from_millis ](millis: u64) -> Duration;

/// Relies on `Duration::as_micros`: the whole microseconds of a span, as a `u64`.
#[verifier::external_body]
pub fn as_micros(span: &Duration) -> u64 {
    span.as_micros() as u64
}

/// The whole microseconds since `start`.
pub fn elapsed_micros(start: &Instant) -> u64 {
    let span = start.elapsed();
    as_micros(&span)
}

} // verus!
