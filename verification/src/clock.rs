//! The wall clock, for search time limits.
use vstd::prelude::*;
use std::time::{Duration, Instant};

verus! {

#[verifier::external_type_specification]
#[verifier::external_body]
pub struct ExInstant(std::time::Instant);

/// The current instant.
///
/// Trusted: calls `std::time::Instant::now`; nothing is claimed of the
/// result, which depends on the time of the call.
#[verifier::external_body]
pub fn now() -> (t: Instant) {
    Instant::now()
}

/// The time passed since `t0`.
///
/// Trusted: calls `std::time::Instant::elapsed`; nothing is claimed of the
/// result, which depends on the time of the call.
#[verifier::external_body]
pub fn elapsed(t0: &Instant) -> (d: Duration) {
    t0.elapsed()
}

/// The total number of whole milliseconds in a duration, as
/// `Duration::as_millis` gives it.
pub uninterp spec fn duration_millis(d: Duration) -> u128;

/// A duration in whole milliseconds.
///
/// Trusted: calls `std::time::Duration::as_millis`, whose result depends on
/// the duration alone; the claim is that it is `duration_millis` of the
/// duration (Verus cannot see into a `Duration`, so its value is not spelled
/// out further).
#[verifier::external_body]
pub fn millis(d: &Duration) -> (ms: u128)
    ensures
        ms == duration_millis(*d),
{
    d.as_millis()
}

/// Whole milliseconds passed since `t0`, cut to 64 bits: the millisecond
/// count of the elapsed duration modulo 2^64.
pub fn elapsed_ms(t0: &Instant) -> (ms: u64)
    ensures
        exists|d: Duration|
            ms as int == #[trigger] duration_millis(d) as int % 0x1_0000_0000_0000_0000,
{
    let d = elapsed(t0);
    let m = millis(&d);
    let low: u128 = m % 0x1_0000_0000_0000_0000u128;
    let r: u64 = low as u64;
    assert(r as int == duration_millis(d) as int % 0x1_0000_0000_0000_0000);
    r
}

} // verus!
