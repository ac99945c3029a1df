//! Points in time and durations as plain values.

use vstd::prelude::*;

verus! {

/// A duration in nanoseconds, or a point in time as the nanoseconds since a
/// fixed origin of a clock that never runs backwards.
pub type Nanos = u64;

/// Nanoseconds in a second.
pub const SECOND: Nanos = 1_000_000_000;

/// Nanoseconds in a millisecond.
pub const MILLISECOND: Nanos = 1_000_000;

/// The time that passed between `since` and `now`; none if `since` lies ahead.
pub open spec fn elapsed_at(since: Nanos, now: Nanos) -> int {
    if since <= now {
        now - since
    } else {
        0
    }
}

/// The time that passed between `since` and `now`; none if `since` lies ahead.
pub fn elapsed(since: Nanos, now: Nanos) -> (d: Nanos)
    ensures
        d == elapsed_at(since, now),
{
    if since <= now {
        now - since
    } else {
        0
    }
}

/// The time that passed leads from the one point to the other; none passed since
/// a point that lies ahead.
pub proof fn law_elapsed(since: Nanos, now: Nanos)
    ensures
        since <= now ==> since + elapsed_at(since, now) == now,
        since >= now ==> elapsed_at(since, now) == 0,
{
}

} // verus!
