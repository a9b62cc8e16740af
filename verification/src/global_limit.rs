//! Global sliding-window admission limiter.
//!
//! [`GlobalConnectionRateLimiter`] caps how many new connections the node
//! admits within a moving time window, irrespective of their source. It
//! keeps the admission timestamps still inside the window; admissions age
//! out continuously, so capacity recovers smoothly instead of jumping at
//! fixed bucket boundaries.

use vstd::prelude::*;

use crate::clock::{elapsed, elapsed_ms};

verus! {

/// A timestamp still counts against the window: less than `window_ms`
/// milliseconds have elapsed from it to `now`.
pub open spec fn spec_is_live(t: u64, now: u64, window_ms: u64) -> bool {
    elapsed_ms(now, t) < window_ms
}

/// The timestamps of `s` still inside the window at `now`, in stored
/// order.
pub open spec fn live_of(s: Seq<u64>, now: u64, window_ms: u64) -> Seq<u64> {
    s.filter(|t: u64| spec_is_live(t, now, window_ms))
}

/// No more timestamps survive the window than were stored.
proof fn lemma_live_of_len(s: Seq<u64>, now: u64, window_ms: u64)
    ensures
        live_of(s, now, window_ms).len() <= s.len(),
    decreases s.len(),
{
    reveal(Seq::filter);
    if s.len() > 0 {
        lemma_live_of_len(s.drop_last(), now, window_ms);
    }
}

/// One step of the pruning scan: extending the prefix by one timestamp
/// extends its surviving image exactly when that timestamp is live.
proof fn lemma_live_of_step(s: Seq<u64>, i: int, now: u64, window_ms: u64)
    requires
        0 <= i < s.len(),
    ensures
        live_of(s.take(i + 1), now, window_ms) == if spec_is_live(s[i], now, window_ms) {
            live_of(s.take(i), now, window_ms).push(s[i])
        } else {
            live_of(s.take(i), now, window_ms)
        },
{
    reveal(Seq::filter);
    assert(s.take(i + 1).drop_last() =~= s.take(i));
    assert(s.take(i + 1).last() == s[i]);
}

/// Limits the total number of new connections accepted across all IPs
/// within a sliding time window.
pub struct GlobalConnectionRateLimiter {
    /// Timestamps (milliseconds) of recent admissions.
    connection_times: Vec<u64>,
    /// Maximum admissions allowed per window.
    max_per_window: usize,
    /// Window length in milliseconds.
    window_duration: u64,
}

impl GlobalConnectionRateLimiter {
    /// The stored admission timestamps.
    pub closed spec fn times(self) -> Seq<u64> {
        self.connection_times@
    }

    /// The maximum admissions allowed per window.
    pub closed spec fn cap(self) -> nat {
        self.max_per_window as nat
    }

    /// The window length in milliseconds.
    pub closed spec fn window_ms(self) -> u64 {
        self.window_duration
    }

    /// The stored timestamps still inside the window at `now`, oldest
    /// first.
    pub open spec fn live_times(self, now: u64) -> Seq<u64> {
        live_of(self.times(), now, self.window_ms())
    }

    /// How many admissions count against the window at `now`.
    pub open spec fn live_count(self, now: u64) -> nat {
        self.live_times(now).len()
    }

    /// Internal well-formedness: never more stored timestamps than the
    /// cap.
    pub closed spec fn wf(self) -> bool {
        self.connection_times@.len() <= self.max_per_window
    }

    /// Create a new global rate limiter allowing `max_per_minute`
    /// admissions per sliding minute.
    pub fn new(max_per_minute: usize) -> (r: Self)
        ensures
            r.wf(),
            r.times() == Seq::<u64>::empty(),
            r.cap() == max_per_minute as nat,
            r.window_ms() == 60000u64,
    {
        GlobalConnectionRateLimiter {
            connection_times: Vec::new(),
            max_per_window: max_per_minute,
            window_duration: 60000,
        }
    }

    /// Create a global rate limiter with a custom window length, in
    /// milliseconds.
    pub fn with_window(max_per_window: usize, window_ms: u64) -> (r: Self)
        ensures
            r.wf(),
            r.times() == Seq::<u64>::empty(),
            r.cap() == max_per_window as nat,
            r.window_ms() == window_ms,
    {
        GlobalConnectionRateLimiter {
            connection_times: Vec::new(),
            max_per_window,
            window_duration: window_ms,
        }
    }

    /// Count the stored timestamps still inside the window at `now_ms`.
    fn count_live(&self, now_ms: u64) -> (r: usize)
        ensures
            r as nat == self.live_count(now_ms),
            r <= self.times().len(),
    {
        let w = self.window_duration;
        let mut count: usize = 0;
        let mut i: usize = 0;
        while i < self.connection_times.len()
            invariant
                i <= self.connection_times@.len(),
                w == self.window_duration,
                count as nat == live_of(self.connection_times@.take(i as int), now_ms, w).len(),
                count <= i,
            decreases self.connection_times@.len() - i,
        {
            let t = self.connection_times[i];
            proof {
                lemma_live_of_step(self.connection_times@, i as int, now_ms, w);
            }
            if elapsed(now_ms, t) < w {
                count = count + 1;
            }
            i = i + 1;
        }
        proof {
            assert(self.connection_times@.take(self.connection_times@.len() as int)
                =~= self.connection_times@);
        }
        count
    }

    /// Drop the stored timestamps that have aged out of the window.
    fn cleanup_expired(&mut self, now_ms: u64)
        requires
            old(self).wf(),
        ensures
            final(self).wf(),
            final(self).cap() == old(self).cap(),
            final(self).window_ms() == old(self).window_ms(),
            final(self).times() == old(self).live_times(now_ms),
    {
        let w = self.window_duration;
        let mut kept: Vec<u64> = Vec::new();
        let mut i: usize = 0;
        while i < self.connection_times.len()
            invariant
                i <= self.connection_times@.len(),
                w == self.window_duration,
                kept@ == live_of(self.connection_times@.take(i as int), now_ms, w),
                kept@.len() <= i,
            decreases self.connection_times@.len() - i,
        {
            let t = self.connection_times[i];
            proof {
                lemma_live_of_step(self.connection_times@, i as int, now_ms, w);
            }
            if elapsed(now_ms, t) < w {
                kept.push(t);
            }
            i = i + 1;
        }
        proof {
            assert(self.connection_times@.take(self.connection_times@.len() as int)
                =~= self.connection_times@);
        }
        self.connection_times = kept;
    }

    /// Check if a new connection can be accepted at `now_ms`, without
    /// any side effect.
    pub fn can_accept_new_connection(&self, now_ms: u64) -> (r: bool)
        ensures
            r == (self.live_count(now_ms) < self.cap()),
    {
        self.count_live(now_ms) < self.max_per_window
    }

    /// Record a new connection at `now_ms`.
    ///
    /// Prunes the timestamps that have aged out, then admits (storing
    /// `now_ms`) exactly when the surviving count is below the cap;
    /// otherwise rejects without recording anything further.
    pub fn record_new_connection(&mut self, now_ms: u64) -> (r: bool)
        requires
            old(self).wf(),
        ensures
            final(self).wf(),
            final(self).cap() == old(self).cap(),
            final(self).window_ms() == old(self).window_ms(),
            r == (old(self).live_count(now_ms) < old(self).cap()),
            r ==> final(self).times() == old(self).live_times(now_ms).push(now_ms),
            !r ==> final(self).times() == old(self).live_times(now_ms),
    {
        self.cleanup_expired(now_ms);
        if self.connection_times.len() >= self.max_per_window {
            return false;
        }
        self.connection_times.push(now_ms);
        true
    }

    /// Get the number of admissions counting against the window at
    /// `now_ms`.
    pub fn current_count(&self, now_ms: u64) -> (r: usize)
        ensures
            r as nat == self.live_count(now_ms),
    {
        self.count_live(now_ms)
    }

    /// Get remaining capacity in the window at `now_ms` (saturating at
    /// zero).
    pub fn remaining_capacity(&self, now_ms: u64) -> (r: usize)
        requires
            self.wf(),
        ensures
            r as nat == self.cap() - self.live_count(now_ms),
    {
        proof {
            lemma_live_within_cap(*self, now_ms);
        }
        let live = self.count_live(now_ms);
        self.max_per_window - live
    }
}

/// At any instant, at most `cap` admissions count against the window:
/// the sliding window never over-admits, whatever earlier calls did.
pub proof fn lemma_live_within_cap(lim: GlobalConnectionRateLimiter, now: u64)
    requires
        lim.wf(),
    ensures
        lim.live_count(now) <= lim.cap(),
{
    lemma_live_of_len(lim.times(), now, lim.window_ms());
}

} // verus!
