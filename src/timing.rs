use vstd::prelude::*;

verus! {

#[verifier::external_type_specification]
#[verifier::external_body]
pub struct ExInstant(std::time::Instant);

/// Relies on `Instant::now`: a reading of the monotonic clock; nothing is known of its value.
#[verifier::external_body]
fn clock_now() -> (r: std::time::Instant) {
    std::time::Instant::now()
}

/// Relies on `Instant - Instant`: the time from `start` to `end`, zero when `end` is earlier.
#[verifier::external_body]
fn time_between(start: std::time::Instant, end: std::time::Instant) -> (r: std::time::Duration) {
    end - start
}

/// Runs `f` once and returns how long the call took by the monotonic clock. The result
/// of `f` is dropped.
pub fn measure_raw<T, F: FnMut() -> T>(mut f: F) -> (r: std::time::Duration)
    requires
        call_requires(f, ()),
{
    let start = clock_now();
    let _ = f();
    time_between(start, clock_now())
}

} // verus!
