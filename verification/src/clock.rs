//! The two clocks the library leans on: wall-clock nanoseconds for stamps
//! and session ids, and a monotonic clock for download-speed samples.
//! Nothing can be promised of a clock reading beyond its type, so callers
//! state what holds of every value.

use vstd::prelude::*;

verus! {

/// A reading of std's monotonic clock, opaque to the library: it is
/// taken, held, and measured against, never inspected.
#[verifier::external_type_specification]
#[verifier::external_body]
pub struct ExInstant(std::time::Instant);

/// Relies on chrono's `Utc::now`: nanoseconds since the Unix epoch, and
/// zero where the moment does not fit the representation.
#[verifier::external_body]
pub fn now_unix_nanos() -> (r: i64) {
    chrono::Utc::now().timestamp_nanos_opt().unwrap_or(0)
}

/// Relies on `std::time::Instant::now`: a reading of the monotonic clock.
#[verifier::external_body]
pub fn instant_now() -> (r: std::time::Instant) {
    std::time::Instant::now()
}

/// Relies on `std::time::Instant::elapsed`: the whole milliseconds since
/// the reading was taken, saturated at the type's limit.
#[verifier::external_body]
pub fn elapsed_millis(start: &std::time::Instant) -> (r: u64) {
    u64::try_from(start.elapsed().as_millis()).unwrap_or(u64::MAX)
}

} // verus!
