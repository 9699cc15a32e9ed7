//! The engine's source of wall-clock time.

use vstd::prelude::*;

verus! {

/// Relies on `std::time::SystemTime::now` and
/// `SystemTime::duration_since`: the current wall-clock time as
/// nanoseconds since the Unix epoch, or `None` when the host clock
/// reads before the epoch or past what an `i64` can hold. Every case is
/// mapped; no path panics. Nothing can be promised about the value
/// returned.
#[verifier::external_body]
fn wall_clock_nanos() -> (r: Option<i64>) {
    match std::time::SystemTime::now().duration_since(std::time::UNIX_EPOCH) {
        Ok(d) => i64::try_from(d.as_nanos()).ok(),
        Err(_) => None,
    }
}

/// The current wall-clock time as nanoseconds since the Unix epoch;
/// zero when the clock reading cannot be represented.
pub fn now_nanos() -> i64 {
    match wall_clock_nanos() {
        Some(n) => n,
        None => 0,
    }
}

} // verus!
