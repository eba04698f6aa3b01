//! The steady clock.
use vstd::prelude::*;

verus! {

/// The number of nanoseconds in a second.
pub const NANOS_PER_SECOND: u64 = 1_000_000_000;

/// Reads the monotonic clock by `time::precise_time_ns`: a number of
/// nanoseconds since an epoch that the clock does not tell. Nothing is
/// claimed of the number.
#[verifier::external_body]
pub(crate) fn steady_now() -> (now: u64) {
    time::precise_time_ns()
}

} // verus!
