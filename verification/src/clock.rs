use vstd::prelude::*;

verus! {

/// `time::PreciseTime` is a reading of a monotonic high-resolution clock.
/// It is opaque here: a value of it is only ever produced by
/// `PreciseTime::now` and consumed by `elapsed_micros` below.
#[verifier::external_type_specification]
#[verifier::external_body]
pub struct ExPreciseTime(time::PreciseTime);

/// Relies on `time::PreciseTime::now`: a reading of the current moment of a
/// monotonic clock. The reading depends on when the call runs, so nothing is
/// promised of the value.
pub assume_specification[ time::PreciseTime::now ]() -> time::PreciseTime;

/// Relies on `time::PreciseTime::now`, `time::PreciseTime::to` and
/// `time::Duration::num_microseconds`: reads the clock now and returns the
/// whole microseconds elapsed since `start`, or `None` when they do not fit
/// an `i64`. `to` subtracts the two raw counter readings and underflows — and
/// panics under overflow checks — when its arguments are out of order, so the
/// later reading is taken here, inside the call: every `start` a caller can
/// hold came from an earlier `now` of the same monotonic clock, and a
/// reversed pair is unrepresentable. The result depends on when the call
/// runs, so nothing is promised of the value; callers handle every outcome.
#[verifier::external_body]
pub(crate) fn elapsed_micros(start: &time::PreciseTime) -> (r: Option<i64>) {
    start.to(time::PreciseTime::now()).num_microseconds()
}

} // verus!
