//! Moments in time, in seconds, and sums of them that stop at the last
//! moment there is.

use vstd::prelude::*;

verus! {

/// The moment `delay` after `now`, or the last moment there is where that
/// would lie beyond it.
pub open spec fn moment_after(now: u64, delay: u64) -> u64 {
    if now + delay > u64::MAX {
        u64::MAX
    } else {
        (now + delay) as u64
    }
}

/// Computes [`moment_after`].
pub fn after(now: u64, delay: u64) -> (moment: u64)
    ensures
        moment == moment_after(now, delay),
{
    if delay > u64::MAX - now {
        u64::MAX
    } else {
        now + delay
    }
}

} // verus!
