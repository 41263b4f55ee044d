//! Points in time and spans of time, as whole nanoseconds.
use vstd::prelude::*;

verus! {

/// A point in time: the nanoseconds since some moment before the instance came up, which is the
/// same for all points that one instance handles.
pub type Instant = u128;

/// A span of time in nanoseconds.
pub type Duration = u128;

/// The nanoseconds of one millisecond.
pub const MILLISECOND: u128 = 1_000_000;

/// The time from `earlier` to `now`, or zero if `earlier` lies after `now`.
pub open spec fn elapsed(now: Instant, earlier: Instant) -> Duration {
    if now >= earlier {
        (now - earlier) as u128
    } else {
        0
    }
}

/// The time from `earlier` to `now`, or zero if `earlier` lies after `now`.
pub fn duration_since(now: Instant, earlier: Instant) -> (r: Duration)
    ensures
        r == elapsed(now, earlier),
{
    if now >= earlier {
        now - earlier
    } else {
        0
    }
}

} // verus!
