//! Per-IP connection rate limiting with exponential backoff.
//!
//! [`ConnectionRateLimiter`] keeps, per remote IP, the time of the last
//! attempt and the count of consecutive failures. After `n` failures an
//! attempt is allowed again only once `base_delay * 2^(n-1)` milliseconds
//! have elapsed, capped at `max_delay`; once the failure count reaches
//! `max_failures` the IP stays blocked for the rest of the process
//! lifetime. A success wipes the IP's record entirely.

use vstd::arithmetic::power2::{lemma_pow2_unfold, lemma2_to64, pow2};
use vstd::prelude::*;

use crate::clock::{elapsed, elapsed_ms};
use crate::ip::IpAddress;
use crate::kvlist::{
    distinct_keys, find_kv, lemma_distinct_push, lemma_find_absent, lemma_find_at,
    lemma_find_push, lemma_find_update,
};

verus! {

/// Per-IP rate-limit state: when the IP last attempted to connect, and
/// how many consecutive failures it has accumulated since its last
/// success.
#[derive(Clone, Copy, Debug, PartialEq, Eq, Structural)]
pub struct AttemptRecord {
    /// Time of the last attempt, in caller-clock milliseconds.
    pub last_attempt: u64,
    /// Consecutive failures since the last success.
    pub failures: u32,
}

/// The failure count after one more failure, saturating.
pub open spec fn bumped_failures(f: u32) -> u32 {
    if f == u32::MAX {
        f
    } else {
        (f + 1) as u32
    }
}

/// Whether `cleanup` keeps a record: it is younger than `max_age_ms`,
/// or it marks a permanent (session-lifetime) block, which age-based
/// cleanup deliberately leaves in place.
pub open spec fn spec_kept(rec: AttemptRecord, now: u64, max_age_ms: u64, limit: u32) -> bool {
    elapsed_ms(now, rec.last_attempt) < max_age_ms || rec.failures >= limit
}

/// Connection rate limiter with exponential backoff.
pub struct ConnectionRateLimiter {
    /// Per-IP attempt records; keys are pairwise distinct.
    attempts: Vec<(IpAddress, AttemptRecord)>,
    /// Base delay between connection attempts, in milliseconds.
    base_delay: u64,
    /// Maximum delay (cap for exponential backoff), in milliseconds.
    max_delay: u64,
    /// Failure count at which an IP is blocked for the session.
    max_failures: u32,
}

impl ConnectionRateLimiter {
    /// The record held for `ip`, if any.
    pub closed spec fn record(self, ip: IpAddress) -> Option<AttemptRecord> {
        find_kv(self.attempts@, ip)
    }

    /// The configured base delay, in milliseconds.
    pub closed spec fn base_delay_ms(self) -> u64 {
        self.base_delay
    }

    /// The configured delay cap, in milliseconds.
    pub closed spec fn max_delay_ms(self) -> u64 {
        self.max_delay
    }

    /// The failure count at which an IP is blocked for the session.
    pub closed spec fn failure_limit(self) -> u32 {
        self.max_failures
    }

    /// Internal well-formedness: one record per IP.
    pub closed spec fn wf(self) -> bool {
        distinct_keys(self.attempts@)
    }

    /// The configuration fields of the two limiters agree.
    pub open spec fn same_config(self, other: Self) -> bool {
        &&& self.base_delay_ms() == other.base_delay_ms()
        &&& self.max_delay_ms() == other.max_delay_ms()
        &&& self.failure_limit() == other.failure_limit()
    }

    /// The required wait after `failures` consecutive failures:
    /// `base_delay * 2^(failures-1)` milliseconds, capped at `max_delay`;
    /// no wait at all after zero failures.
    pub open spec fn spec_delay(self, failures: u32) -> nat {
        if failures == 0 {
            0
        } else {
            let raw = self.base_delay_ms() as nat * pow2((failures - 1) as nat);
            if raw <= self.max_delay_ms() as nat {
                raw
            } else {
                self.max_delay_ms() as nat
            }
        }
    }

    /// An attempt from `ip` at `now` is allowed: the IP has no record,
    /// or it is below the session block threshold and its required
    /// backoff delay has elapsed.
    pub open spec fn spec_can_attempt(self, ip: IpAddress, now: u64) -> bool {
        match self.record(ip) {
            None => true,
            Some(rec) => rec.failures < self.failure_limit() && elapsed_ms(now, rec.last_attempt)
                >= self.spec_delay(rec.failures),
        }
    }

    /// The wait remaining before `ip` may attempt again: zero when
    /// allowed now, `u64::MAX` as the "never" sentinel for a
    /// session-blocked IP.
    pub open spec fn spec_time_until(self, ip: IpAddress, now: u64) -> nat {
        match self.record(ip) {
            None => 0,
            Some(rec) => if rec.failures >= self.failure_limit() {
                u64::MAX as nat
            } else {
                let d = self.spec_delay(rec.failures);
                let e = elapsed_ms(now, rec.last_attempt);
                if e >= d {
                    0
                } else {
                    (d - e) as nat
                }
            },
        }
    }

    /// Create a new rate limiter with default settings: one second base
    /// delay, five minute cap, session block at ten failures.
    pub fn new() -> (r: Self)
        ensures
            r.wf(),
            forall|ip: IpAddress| r.record(ip) is None,
            r.base_delay_ms() == 1000u64,
            r.max_delay_ms() == 300000u64,
            r.failure_limit() == 10u32,
    {
        let r = ConnectionRateLimiter {
            attempts: Vec::new(),
            base_delay: 1000,
            max_delay: 300000,
            max_failures: 10,
        };
        proof {
            assert(forall|ip: IpAddress| r.record(ip) is None);
        }
        r
    }

    /// Create a rate limiter with custom settings, delays in
    /// milliseconds.
    pub fn with_config(base_delay_ms: u64, max_delay_ms: u64, max_failures: u32) -> (r: Self)
        ensures
            r.wf(),
            forall|ip: IpAddress| r.record(ip) is None,
            r.base_delay_ms() == base_delay_ms,
            r.max_delay_ms() == max_delay_ms,
            r.failure_limit() == max_failures,
    {
        let r = ConnectionRateLimiter {
            attempts: Vec::new(),
            base_delay: base_delay_ms,
            max_delay: max_delay_ms,
            max_failures,
        };
        proof {
            assert(forall|ip: IpAddress| r.record(ip) is None);
        }
        r
    }

    /// Index of the record held for `ip`, if any.
    fn find_index(&self, ip: &IpAddress) -> (r: Option<usize>)
        ensures
            match r {
                Some(i) => i < self.attempts@.len() && self.attempts@[i as int].0 == *ip,
                None => forall|j: int| 0 <= j < self.attempts@.len() ==> self.attempts@[j].0 != *ip,
            },
    {
        let mut i: usize = 0;
        while i < self.attempts.len()
            invariant
                i <= self.attempts@.len(),
                forall|j: int| 0 <= j < i ==> self.attempts@[j].0 != *ip,
            decreases self.attempts@.len() - i,
        {
            if self.attempts[i].0 == *ip {
                return Some(i);
            }
            i = i + 1;
        }
        None
    }

    /// Calculate the required delay for a failure count (exponential
    /// backoff with a cap).
    fn calculate_delay(&self, failures: u32) -> (r: u64)
        ensures
            r as nat == self.spec_delay(failures),
    {
        if failures == 0 {
            return 0;
        }
        let mut d: u64 = self.base_delay;
        let mut i: u32 = 1;
        proof {
            lemma2_to64();
            assert(pow2(0) == 1);
            assert(self.base_delay as nat * pow2(0) == self.base_delay as nat);
        }
        while i < failures
            invariant
                1 <= i <= failures,
                ({
                    let raw = self.base_delay as nat * pow2((i - 1) as nat);
                    d as nat == raw || (raw >= self.max_delay as nat && d == self.max_delay)
                }),
            decreases failures - i,
        {
            proof {
                lemma_pow2_unfold(i as nat);
                assert(self.base_delay as nat * pow2(i as nat) == 2 * (self.base_delay as nat
                    * pow2((i - 1) as nat))) by (nonlinear_arith)
                    requires
                        pow2(i as nat) == 2 * pow2((i - 1) as nat),
                ;
            }
            if d >= self.max_delay {
                d = self.max_delay;
            } else if d > u64::MAX / 2 {
                d = self.max_delay;
            } else {
                d = d * 2;
                if d > self.max_delay {
                    d = self.max_delay;
                }
            }
            i = i + 1;
        }
        if d > self.max_delay {
            self.max_delay
        } else {
            d
        }
    }

    /// Check if a connection attempt is allowed from this IP at
    /// `now_ms`, without any side effect.
    pub fn can_attempt(&self, ip: &IpAddress, now_ms: u64) -> (r: bool)
        requires
            self.wf(),
        ensures
            r == self.spec_can_attempt(*ip, now_ms),
    {
        match self.find_index(ip) {
            None => {
                proof {
                    lemma_find_absent(self.attempts@, *ip);
                }
                true
            },
            Some(i) => {
                proof {
                    lemma_find_at(self.attempts@, i as int);
                }
                let rec = self.attempts[i].1;
                if rec.failures >= self.max_failures {
                    return false;
                }
                let required = self.calculate_delay(rec.failures);
                elapsed(now_ms, rec.last_attempt) >= required
            },
        }
    }

    /// Get the wait remaining before `ip` may attempt again at `now_ms`:
    /// zero when allowed now, `u64::MAX` when blocked for the session.
    pub fn time_until_allowed(&self, ip: &IpAddress, now_ms: u64) -> (r: u64)
        requires
            self.wf(),
        ensures
            r as nat == self.spec_time_until(*ip, now_ms),
    {
        match self.find_index(ip) {
            None => {
                proof {
                    lemma_find_absent(self.attempts@, *ip);
                }
                0
            },
            Some(i) => {
                proof {
                    lemma_find_at(self.attempts@, i as int);
                }
                let rec = self.attempts[i].1;
                if rec.failures >= self.max_failures {
                    return u64::MAX;
                }
                let required = self.calculate_delay(rec.failures);
                let e = elapsed(now_ms, rec.last_attempt);
                if e >= required {
                    0
                } else {
                    required - e
                }
            },
        }
    }

    /// Record a connection attempt from an IP at `now_ms`: stamps the
    /// last-attempt time without touching the failure count (zero for a
    /// previously unseen IP).
    pub fn record_attempt(&mut self, ip: IpAddress, now_ms: u64)
        requires
            old(self).wf(),
        ensures
            final(self).wf(),
            final(self).same_config(*old(self)),
            final(self).record(ip) == Some(
                (AttemptRecord {
                    last_attempt: now_ms,
                    failures: match old(self).record(ip) {
                        Some(rec) => rec.failures,
                        None => 0,
                    },
                }),
            ),
            forall|ip2: IpAddress| ip2 != ip ==> final(self).record(ip2) == old(self).record(ip2),
    {
        let ghost s0 = self.attempts@;
        match self.find_index(&ip) {
            Some(i) => {
                proof {
                    lemma_find_at(s0, i as int);
                }
                let f = self.attempts[i].1.failures;
                let rec = AttemptRecord { last_attempt: now_ms, failures: f };
                self.attempts[i] = (ip, rec);
                proof {
                    assert(self.attempts@ =~= s0.update(i as int, (s0[i as int].0, rec)));
                    assert forall|ip2: IpAddress| true implies find_kv(self.attempts@, ip2) == if ip2
                        == ip {
                        Some(rec)
                    } else {
                        find_kv(s0, ip2)
                    } by {
                        lemma_find_update(s0, i as int, rec, ip2);
                    }
                    lemma_find_update(s0, i as int, rec, ip);
                }
            },
            None => {
                proof {
                    lemma_find_absent(s0, ip);
                }
                let rec = AttemptRecord { last_attempt: now_ms, failures: 0 };
                self.attempts.push((ip, rec));
                proof {
                    assert forall|ip2: IpAddress| true implies find_kv(self.attempts@, ip2) == if ip2
                        == ip {
                        Some(rec)
                    } else {
                        find_kv(s0, ip2)
                    } by {
                        lemma_find_push(s0, ip, rec, ip2);
                    }
                    lemma_distinct_push(s0, ip, rec);
                }
            },
        }
    }

    /// Record a failed connection attempt at `now_ms`: stamps the
    /// last-attempt time and increments the failure count (saturating).
    pub fn record_failure(&mut self, ip: IpAddress, now_ms: u64)
        requires
            old(self).wf(),
        ensures
            final(self).wf(),
            final(self).same_config(*old(self)),
            final(self).record(ip) == Some(
                (AttemptRecord {
                    last_attempt: now_ms,
                    failures: match old(self).record(ip) {
                        Some(rec) => bumped_failures(rec.failures),
                        None => 1,
                    },
                }),
            ),
            forall|ip2: IpAddress| ip2 != ip ==> final(self).record(ip2) == old(self).record(ip2),
    {
        let ghost s0 = self.attempts@;
        match self.find_index(&ip) {
            Some(i) => {
                proof {
                    lemma_find_at(s0, i as int);
                }
                let f = self.attempts[i].1.failures;
                let bumped = if f == u32::MAX {
                    f
                } else {
                    f + 1
                };
                let rec = AttemptRecord { last_attempt: now_ms, failures: bumped };
                self.attempts[i] = (ip, rec);
                proof {
                    assert(self.attempts@ =~= s0.update(i as int, (s0[i as int].0, rec)));
                    assert forall|ip2: IpAddress| true implies find_kv(self.attempts@, ip2) == if ip2
                        == ip {
                        Some(rec)
                    } else {
                        find_kv(s0, ip2)
                    } by {
                        lemma_find_update(s0, i as int, rec, ip2);
                    }
                    lemma_find_update(s0, i as int, rec, ip);
                }
            },
            None => {
                proof {
                    lemma_find_absent(s0, ip);
                }
                let rec = AttemptRecord { last_attempt: now_ms, failures: 1 };
                self.attempts.push((ip, rec));
                proof {
                    assert forall|ip2: IpAddress| true implies find_kv(self.attempts@, ip2) == if ip2
                        == ip {
                        Some(rec)
                    } else {
                        find_kv(s0, ip2)
                    } by {
                        lemma_find_push(s0, ip, rec, ip2);
                    }
                    lemma_distinct_push(s0, ip, rec);
                }
            },
        }
    }

    /// Record a successful connection: deletes the IP's record entirely,
    /// so all backoff history is forgotten and the next attempt is
    /// allowed at once.
    pub fn record_success(&mut self, ip: &IpAddress)
        requires
            old(self).wf(),
        ensures
            final(self).wf(),
            final(self).same_config(*old(self)),
            final(self).record(*ip) is None,
            forall|ip2: IpAddress| ip2 != *ip ==> final(self).record(ip2) == old(self).record(ip2),
    {
        let ghost s0 = self.attempts@;
        match self.find_index(ip) {
            Some(i) => {
                self.attempts.remove(i);
                proof {
                    assert forall|ip2: IpAddress| true implies find_kv(self.attempts@, ip2) == if ip2
                        == *ip {
                        None::<AttemptRecord>
                    } else {
                        find_kv(s0, ip2)
                    } by {
                        crate::kvlist::lemma_find_remove(s0, i as int, ip2);
                    }
                    crate::kvlist::lemma_find_remove(s0, i as int, *ip);
                }
            },
            None => {
                proof {
                    lemma_find_absent(s0, *ip);
                }
            },
        }
    }

    /// Get the failure count for an IP (zero when no record is held).
    pub fn failure_count(&self, ip: &IpAddress) -> (r: u32)
        requires
            self.wf(),
        ensures
            r == match self.record(*ip) {
                Some(rec) => rec.failures,
                None => 0u32,
            },
    {
        match self.find_index(ip) {
            Some(i) => {
                proof {
                    lemma_find_at(self.attempts@, i as int);
                }
                self.attempts[i].1.failures
            },
            None => {
                proof {
                    lemma_find_absent(self.attempts@, *ip);
                }
                0
            },
        }
    }

    /// Clean up old entries (call periodically to bound memory).
    ///
    /// A record is dropped once more than `max_age_ms` milliseconds have
    /// elapsed since its last attempt — except records that mark a
    /// permanent session block, which the sweep deliberately keeps so
    /// that an attacker cannot wait out a ban.
    pub fn cleanup(&mut self, now_ms: u64, max_age_ms: u64)
        requires
            old(self).wf(),
        ensures
            final(self).wf(),
            final(self).same_config(*old(self)),
            forall|ip: IpAddress|
                final(self).record(ip) == match old(self).record(ip) {
                    None => None::<AttemptRecord>,
                    Some(rec) => if spec_kept(rec, now_ms, max_age_ms, old(self).failure_limit()) {
                        Some(rec)
                    } else {
                        None::<AttemptRecord>
                    },
                },
    {
        let ghost s0 = self.attempts@;
        let ghost limit = self.max_failures;
        let mut kept: Vec<(IpAddress, AttemptRecord)> = Vec::new();
        let mut i: usize = 0;
        while i < self.attempts.len()
            invariant
                i <= self.attempts@.len(),
                s0 == self.attempts@,
                limit == self.max_failures,
                distinct_keys(s0),
                distinct_keys(kept@),
                forall|ip: IpAddress|
                    find_kv(kept@, ip) == match find_kv(s0.take(i as int), ip) {
                        None => None::<AttemptRecord>,
                        Some(rec) => if spec_kept(rec, now_ms, max_age_ms, limit) {
                            Some(rec)
                        } else {
                            None::<AttemptRecord>
                        },
                    },
            decreases self.attempts@.len() - i,
        {
            let (key, rec) = self.attempts[i];
            let ghost kept0 = kept@;
            let keep = elapsed(now_ms, rec.last_attempt) < max_age_ms || rec.failures
                >= self.max_failures;
            if keep {
                proof {
                    assert(find_kv(kept0, key) is None) by {
                        assert(find_kv(s0.take(i as int), key) is None) by {
                            lemma_find_absent(s0.take(i as int), key);
                        }
                    }
                    assert forall|j: int| 0 <= j < kept0.len() implies kept0[j].0 != key by {
                        if kept0[j].0 == key {
                            lemma_find_at(kept0, j);
                        }
                    }
                }
                kept.push((key, rec));
                proof {
                    lemma_distinct_push(kept0, key, rec);
                }
            }
            i = i + 1;
            proof {
                assert forall|ip: IpAddress| true implies find_kv(kept@, ip) == match find_kv(
                    s0.take(i as int),
                    ip,
                ) {
                    None => None::<AttemptRecord>,
                    Some(rec2) => if spec_kept(rec2, now_ms, max_age_ms, limit) {
                        Some(rec2)
                    } else {
                        None::<AttemptRecord>
                    },
                } by {
                    assert(s0.take(i as int).drop_last() =~= s0.take(i - 1));
                    assert(s0.take(i as int).last() == s0[i - 1]);
                    if ip == key {
                        assert forall|j: int| 0 <= j < i - 1 implies (#[trigger] s0.take(i - 1)[j]).0
                            != key by {
                            assert(s0[j].0 != s0[i - 1].0);
                        }
                        lemma_find_absent(s0.take(i - 1), key);
                    }
                    if keep {
                        lemma_find_push(kept0, key, rec, ip);
                    }
                }
            }
        }
        proof {
            assert(s0.take(s0.len() as int) =~= s0);
        }
        self.attempts = kept;
    }
}

impl Default for ConnectionRateLimiter {
    /// The default limiter: one second base delay, five minute cap,
    /// session block at ten failures.
    fn default() -> (r: Self)
        ensures
            r.wf(),
            forall|ip: IpAddress| r.record(ip) is None,
            r.base_delay_ms() == 1000u64,
            r.max_delay_ms() == 300000u64,
            r.failure_limit() == 10u32,
    {
        Self::new()
    }
}

/// Once an IP has reached the failure limit, it stays blocked forever:
/// no elapsed time makes `can_attempt` true again.
pub proof fn lemma_permanent_block(lim: ConnectionRateLimiter, ip: IpAddress, rec: AttemptRecord)
    requires
        lim.record(ip) == Some(rec),
        rec.failures >= lim.failure_limit(),
    ensures
        forall|now: u64| !lim.spec_can_attempt(ip, now),
{
}

/// A record that marks a permanent block survives every `cleanup`
/// sweep: the age-based eviction never unblocks a banned IP.
pub proof fn lemma_block_survives_cleanup(
    lim: ConnectionRateLimiter,
    ip: IpAddress,
    rec: AttemptRecord,
    now: u64,
    max_age_ms: u64,
)
    requires
        lim.record(ip) == Some(rec),
        rec.failures >= lim.failure_limit(),
    ensures
        spec_kept(rec, now, max_age_ms, lim.failure_limit()),
{
}

/// An IP with no record — in particular right after `record_success`
/// wiped it — may attempt immediately, whatever the clock says.
pub proof fn lemma_no_record_allows(lim: ConnectionRateLimiter, ip: IpAddress)
    requires
        lim.record(ip) is None,
    ensures
        forall|now: u64| lim.spec_can_attempt(ip, now),
{
}

/// The backoff delay never exceeds the configured cap.
pub proof fn lemma_delay_capped(lim: ConnectionRateLimiter, failures: u32)
    ensures
        lim.spec_delay(failures) <= lim.max_delay_ms() as nat,
{
}

/// After exactly one failure the required wait is the base delay
/// (capped).
pub proof fn lemma_delay_after_first_failure(lim: ConnectionRateLimiter)
    ensures
        lim.spec_delay(1) == if lim.base_delay_ms() <= lim.max_delay_ms() {
            lim.base_delay_ms() as nat
        } else {
            lim.max_delay_ms() as nat
        },
{
    lemma2_to64();
    assert(pow2(0) == 1);
    assert(lim.base_delay_ms() as nat * pow2(0) == lim.base_delay_ms() as nat);
}

/// Each further failure doubles the uncapped wait: the wait after
/// `f + 1` failures is twice the uncapped wait after `f`, capped.
pub proof fn lemma_delay_doubles(lim: ConnectionRateLimiter, f: u32)
    requires
        1 <= f < u32::MAX,
    ensures
        lim.spec_delay((f + 1) as u32) == ({
            let raw = 2 * (lim.base_delay_ms() as nat * pow2((f - 1) as nat));
            if raw <= lim.max_delay_ms() as nat {
                raw
            } else {
                lim.max_delay_ms() as nat
            }
        }),
{
    lemma_pow2_unfold(f as nat);
    assert(lim.base_delay_ms() as nat * pow2(f as nat) == 2 * (lim.base_delay_ms() as nat * pow2(
        (f - 1) as nat,
    ))) by (nonlinear_arith)
        requires
            pow2(f as nat) == 2 * pow2((f - 1) as nat),
    ;
}

} // verus!
