//! The clock of the standard library, as far as the deepening search reads
//! it.

use vstd::prelude::*;

verus! {

/// A point of the machine's monotonic clock. Nothing is known of what one
/// holds.
#[verifier::external_type_specification]
#[verifier::external_body]
pub struct ExInstant(std::time::Instant);

/// `Instant::now` reads the clock; nothing is promised of what it reads.
pub assume_specification[ std::time::Instant::now ]() -> std::time::Instant;

/// `Instant::elapsed` gives the time since the instant was read; nothing is
/// promised of its length.
pub assume_specification[ std::time::Instant::elapsed ](
    start: &std::time::Instant,
) -> std::time::Duration;

/// `Duration::as_millis` gives a length of time in whole milliseconds;
/// nothing is promised of the number.
pub assume_specification[ std::time::Duration::as_millis ](length: &std::time::Duration) -> u128;

} // verus!
