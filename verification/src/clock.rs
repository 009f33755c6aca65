//! Readings of the system's clocks. What a clock reads is not a function of
//! anything the library holds, so nothing is claimed of the values below;
//! the functions that use them are verified for every value.

use vstd::prelude::*;
use std::time::{Duration, Instant, SystemTime};

verus! {

#[verifier::external_type_specification]
#[verifier::external_body]
pub struct ExInstant(Instant);

#[verifier::external_type_specification]
#[verifier::external_body]
pub struct ExSystemTime(SystemTime);

/// Calls `std::time::Instant::now`: a reading of the monotonic clock. No
/// contract: the reading depends on the time of the call.
#[verifier::external_body]
pub(crate) fn instant_now() -> Instant {
    Instant::now()
}

/// Calls `std::time::Instant::elapsed`: the time since `origin` on the
/// monotonic clock. No contract: it depends on the time of the call.
#[verifier::external_body]
pub(crate) fn instant_elapsed(origin: &Instant) -> Duration {
    origin.elapsed()
}

/// Calls `std::time::SystemTime::now`: a reading of the wall clock. No
/// contract: it depends on the time of the call.
#[verifier::external_body]
pub(crate) fn system_time_now() -> SystemTime {
    SystemTime::now()
}

/// Calls `std::time::SystemTime::duration_since` with `UNIX_EPOCH`, giving
/// `None` where the wall clock reads a time before the epoch. No contract:
/// nothing here views a `SystemTime`.
#[verifier::external_body]
pub(crate) fn since_unix_epoch(t: &SystemTime) -> Option<Duration> {
    t.duration_since(std::time::UNIX_EPOCH).ok()
}

/// Calls `std::time::Duration::as_nanos`. No contract: nothing here views a
/// `Duration`, and the durations measured come from the clocks above.
#[verifier::external_body]
pub(crate) fn duration_as_nanos(d: &Duration) -> u128 {
    d.as_nanos()
}

/// Calls `std::time::Duration::as_millis`. No contract: nothing here views a
/// `Duration`, and the durations measured come from the clocks above.
#[verifier::external_body]
pub(crate) fn duration_as_millis(d: &Duration) -> u128 {
    d.as_millis()
}

} // verus!
