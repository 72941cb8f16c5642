//! The one place the core reads the wall clock.

use vstd::prelude::*;

verus! {

/// Relies on `std::time::SystemTime::now` and
/// `duration_since(UNIX_EPOCH)`: milliseconds since the unix epoch,
/// clamped into `i64`, and 0 for a clock standing before the epoch.
/// Nothing more is assumed of it: two reads may return anything
/// non-negative.
#[verifier::external_body]
pub fn now_ms() -> (t: i64)
    ensures
        0 <= t,
{
    match std::time::SystemTime::now().duration_since(std::time::UNIX_EPOCH) {
        Ok(d) => {
            let ms = d.as_millis();
            if ms > i64::MAX as u128 {
                i64::MAX
            } else {
                ms as i64
            }
        },
        Err(_) => 0,
    }
}

} // verus!
