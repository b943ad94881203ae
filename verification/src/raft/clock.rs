use std::time::{Duration, SystemTime};
use vstd::prelude::*;

verus! {

/// Wall-clock instants, used for the time of the last heartbeat.
#[verifier::external_type_specification]
#[verifier::external_body]
pub struct ExSystemTime(SystemTime);

/// Calls `SystemTime::now`. Nothing is claimed of the instant it returns.
#[verifier::external_body]
pub(crate) fn now() -> SystemTime {
    SystemTime::now()
}

/// Calls `SystemTime::elapsed`: the time from `since` to now, or `None` where the
/// clock reads earlier than `since`. Nothing is claimed of the value: it depends on the clock.
#[verifier::external_body]
pub(crate) fn elapsed(since: &SystemTime) -> Option<Duration> {
    match since.elapsed() {
        Ok(d) => Some(d),
        Err(_) => None,
    }
}

/// Calls `Duration::as_millis`. Nothing is claimed of the count: a `Duration` is opaque here.
#[verifier::external_body]
pub(crate) fn as_millis(d: &Duration) -> u128 {
    d.as_millis()
}

} // verus!
