//! Monotonic time for the search's time budget and the screens' input gate.
//!
//! Nothing about time is proved: every function here makes one call into
//! `std::time` and promises nothing about its result.
use vstd::prelude::*;
use std::time::{Duration, Instant};

verus! {

#[verifier::external_type_specification]
#[verifier::external_body]
pub struct ExInstant(std::time::Instant);

/// `Instant::now`: the current reading of the monotonic clock. Promises nothing.
#[verifier::external_body]
pub fn instant_now() -> (r: Instant) {
    Instant::now()
}

/// `Duration::from_millis`: a span of `ms` milliseconds. Left unsaid: that the span is
/// `ms` milliseconds, since a `Duration` is opaque here and a name for a result must be
/// a plain value.
#[verifier::external_body]
pub fn millis(ms: u64) -> (r: Duration) {
    Duration::from_millis(ms)
}

/// `Instant::checked_add`: the instant `d` after `i`, or `None` where that lies past
/// the clock's range. Promises nothing: which of the two comes back, and the instant,
/// rest on the clock's readings.
#[verifier::external_body]
pub fn instant_checked_add(i: Instant, d: Duration) -> (r: Option<Instant>) {
    i.checked_add(d)
}

/// `Instant >= Instant`: whether `now` is at or past `deadline`. Promises nothing,
/// since the readings compared come from the clock.
#[verifier::external_body]
pub fn instant_reached(now: &Instant, deadline: &Instant) -> (r: bool) {
    *now >= *deadline
}

/// `Instant::elapsed`: time since `i`. Promises nothing.
#[verifier::external_body]
pub fn instant_elapsed(i: &Instant) -> (r: Duration) {
    i.elapsed()
}

/// `Duration::as_millis`: whole milliseconds in `d`. Left unsaid: how the count
/// follows from `d`, which is opaque here; the durations measured come from the clock.
#[verifier::external_body]
pub fn duration_millis(d: &Duration) -> (r: u128) {
    d.as_millis()
}

/// Whether the clock has reached `deadline`.
pub fn expired(deadline: &Instant) -> bool {
    let now = instant_now();
    instant_reached(&now, deadline)
}

} // verus!
