//! Sessions that have gone quiet are released.
use vstd::prelude::*;

verus! {

/// A UDP session that is silent in both directions for this long is released.
pub const UDP_IDLE_NANOS: u64 = 60_000_000_000;

/// Whether a session that was last used at one moment is still fresh at another.
pub open spec fn is_fresh(last: u64, now: u64) -> bool {
    now < last + UDP_IDLE_NANOS
}

pub fn fresh(last: u64, now: u64) -> (r: bool)
    ensures
        r == is_fresh(last, now),
{
    now.saturating_sub(last) < UDP_IDLE_NANOS
}

/// Whatever was used less than a minute ago is fresh, and nothing else is; a clock that
/// went back does not make anything stale.
pub proof fn fresh_means_used_within_a_minute(last: u64, now: u64)
    ensures
        is_fresh(last, now) <==> now - last < 60 * 1_000_000_000,
{
}

} // verus!
