//! The wall clock. Nothing can be promised of what it shows, so the
//! contracts here say nothing of the results.

use std::time::{Duration, Instant};
use vstd::prelude::*;

verus! {

/// `std::time::Instant`, a reading of the monotonic clock.
#[verifier::external_type_specification]
#[verifier::external_body]
pub struct ExInstant(Instant);

/// `Instant::now` reads the clock.
pub assume_specification[ Instant::now ]() -> Instant;

/// `Instant::elapsed` gives the time that has passed since the reading.
pub assume_specification[ Instant::elapsed ](start: &Instant) -> Duration;

/// `Duration::as_micros` gives a duration in whole microseconds.
pub assume_specification[ Duration::as_micros ](duration: &Duration) -> u128;

} // verus!
