//! Wall-clock time.

use vstd::prelude::*;

verus! {

/// Calls `std::time::SystemTime::now` and gives the milliseconds since the Unix epoch, or nothing
/// where the clock stands before it. Nothing is claimed of the value: it is what the clock shows.
#[verifier::external_body]
fn clock_ms() -> (ms: Option<u128>) {
    match std::time::SystemTime::now().duration_since(std::time::UNIX_EPOCH) {
        Ok(elapsed) => Some(elapsed.as_millis()),
        Err(_) => None,
    }
}

/// A reading of the clock in 64 bits: the last value where it is beyond them, and zero where the
/// clock stands before the Unix epoch.
pub open spec fn clamped_ms(reading: Option<u128>) -> u64 {
    match reading {
        Some(ms) => if ms > u64::MAX {
            u64::MAX
        } else {
            ms as u64
        },
        None => 0,
    }
}

pub fn clamp_ms(reading: Option<u128>) -> (ms: u64)
    ensures
        ms == clamped_ms(reading),
{
    match reading {
        Some(ms) => if ms > u64::MAX as u128 {
            u64::MAX
        } else {
            ms as u64
        },
        None => 0,
    }
}

/// Milliseconds since the Unix epoch.
pub fn now_unix_ms() -> (ms: u64)
    ensures
        exists|reading: Option<u128>| ms == #[trigger] clamped_ms(reading),
{
    let reading = clock_ms();
    clamp_ms(reading)
}

}
