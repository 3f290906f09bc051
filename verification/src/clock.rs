//! Wall-clock reads. Both functions answer with whatever the host clock
//! says; nothing can be promised of the value, so callers state what holds
//! of every outcome. Neither panics: a clock sitting before the Unix epoch
//! answers zero or nothing.

use vstd::prelude::*;

verus! {

/// Relies on std::time::SystemTime::now and duration_since: the current
/// wall-clock time as microseconds since the Unix epoch — zero when the
/// clock sits before the epoch, the largest value when it sits beyond the
/// signed range. The value depends on the clock, so nothing is stated.
#[verifier::external_body]
pub fn now_micros() -> i64 {
    match std::time::SystemTime::now().duration_since(std::time::UNIX_EPOCH) {
        Ok(since) => {
            let micros = since.as_micros();
            if micros > i64::MAX as u128 {
                i64::MAX
            } else {
                micros as i64
            }
        },
        Err(_) => 0,
    }
}

/// Relies on std::time::SystemTime::now and duration_since: seconds since
/// the Unix epoch, or None when the clock sits before the epoch. The value
/// depends on the clock, so nothing is stated.
#[verifier::external_body]
pub fn unix_time() -> Option<u64> {
    let start = std::time::SystemTime::now();
    start
        .duration_since(std::time::UNIX_EPOCH)
        .map(|d| d.as_secs())
        .ok()
}

} // verus!
