//! The one place the library reads the clock.

use vstd::prelude::*;

verus! {

/// Relies on `chrono::Utc::now`: a reading of the system clock as a Unix
/// timestamp in seconds. Nothing is promised of the value; callers state
/// what holds for every reading. On a machine whose clock reads before the
/// Unix epoch the underlying call itself fails, so the clamp below never
/// sees a negative reading; the design assumes one sane canonical UTC
/// clock.
#[verifier::external_body]
fn now_timestamp_seconds() -> i64 {
    chrono::Utc::now().timestamp()
}

/// The current UTC time in whole minutes since the Unix epoch; a pre-epoch
/// clock reading clamps to 0. Scheduling logic takes this value as an
/// argument, so everything downstream is verified for every reading.
pub fn now_minutes() -> u64 {
    let s = now_timestamp_seconds();
    if s <= 0 {
        0
    } else {
        (s as u64) / 60
    }
}

} // verus!
