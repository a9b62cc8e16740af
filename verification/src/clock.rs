//! Millisecond clock model shared by the rate limiters.
//!
//! The trackers never read a clock themselves: every time-dependent
//! operation takes the current time as a plain count of milliseconds from
//! an arbitrary fixed origin, supplied by the caller from its monotonic
//! clock. Elapsed time saturates at zero, so a caller whose timestamps
//! ever step backwards still gets a defined (conservative) answer.

use vstd::prelude::*;

verus! {

/// Milliseconds elapsed from `t` to `now`, zero when `t` lies in the
/// future.
pub open spec fn elapsed_ms(now: u64, t: u64) -> nat {
    if now >= t {
        (now - t) as nat
    } else {
        0
    }
}

/// Executable form of [`elapsed_ms`].
pub fn elapsed(now: u64, t: u64) -> (r: u64)
    ensures
        r as nat == elapsed_ms(now, t),
{
    if now >= t {
        now - t
    } else {
        0
    }
}

} // verus!
