//! Per-subnet connection limits (Sybil protection).
//!
//! [`SubnetTracker`] caps the connections accepted from any one IPv4 /24
//! prefix, [`Subnet16Tracker`] from any one /16 prefix. IPv6 addresses are
//! exempt from both limits: they carry no subnet key, a documented design
//! choice of the admission layer. Both trackers share one verified counting
//! core, a map from packed prefix key to active-connection count in which
//! an entry is dropped as soon as its count reaches zero.

use vstd::prelude::*;

use crate::config::{MAX_PEERS_PER_SUBNET_16, MAX_PEERS_PER_SUBNET_24};
use crate::error::SecurityError;
use crate::ip::IpAddress;
use crate::kvlist::{
    distinct_keys, find_kv, lemma_distinct_push, lemma_find_absent, lemma_find_at,
    lemma_find_push, lemma_find_remove, lemma_find_update,
};

verus! {

/// Sum of the per-prefix counts of an association list.
pub open spec fn sum_counts(s: Seq<(u32, usize)>) -> nat
    decreases s.len(),
{
    if s.len() == 0 {
        0
    } else {
        sum_counts(s.drop_last()) + s.last().1 as nat
    }
}

proof fn lemma_sum_update(s: Seq<(u32, usize)>, i: int, v: usize)
    requires
        0 <= i < s.len(),
    ensures
        sum_counts(s.update(i, (s[i].0, v))) == sum_counts(s) - s[i].1 + v,
    decreases s.len(),
{
    let t = s.update(i, (s[i].0, v));
    if i == s.len() - 1 {
        assert(t.drop_last() =~= s.drop_last());
    } else {
        assert(t.last() == s.last());
        assert(t.drop_last() =~= s.drop_last().update(i, (s[i].0, v)));
        lemma_sum_update(s.drop_last(), i, v);
    }
}

proof fn lemma_sum_remove(s: Seq<(u32, usize)>, i: int)
    requires
        0 <= i < s.len(),
    ensures
        sum_counts(s.remove(i)) == sum_counts(s) - s[i].1,
    decreases s.len(),
{
    if i == s.len() - 1 {
        assert(s.remove(i) =~= s.drop_last());
    } else {
        assert(s.remove(i).last() == s.last());
        assert(s.remove(i).drop_last() =~= s.drop_last().remove(i));
        lemma_sum_remove(s.drop_last(), i);
    }
}

/// The shared counting core: a map from packed prefix key to the number
/// of active connections in that prefix, with a per-prefix cap.
struct PrefixCounter {
    /// Pairs of packed prefix key and its count; keys are pairwise
    /// distinct and every held count is at least one.
    entries: Vec<(u32, usize)>,
    /// Maximum connections allowed per prefix.
    max: usize,
}

impl PrefixCounter {
    /// The count held for key `k` (zero when no entry holds it).
    spec fn count(self, k: u32) -> nat {
        match find_kv(self.entries@, k) {
            Some(c) => c as nat,
            None => 0,
        }
    }

    /// The per-prefix cap.
    spec fn limit(self) -> nat {
        self.max as nat
    }

    /// Keys are pairwise distinct and no entry holds a zero count.
    spec fn wf(self) -> bool {
        &&& distinct_keys(self.entries@)
        &&& forall|i: int|
            0 <= i < self.entries@.len() ==> (#[trigger] self.entries@[i]).1 >= 1
    }

    /// Sum of all held counts.
    spec fn total(self) -> nat {
        sum_counts(self.entries@)
    }

    fn new(max: usize) -> (r: Self)
        ensures
            r.wf(),
            r.limit() == max as nat,
            forall|k: u32| r.count(k) == 0,
            r.total() == 0,
    {
        let r = PrefixCounter { entries: Vec::new(), max };
        proof {
            assert(forall|k: u32| r.count(k) == 0);
        }
        r
    }

    /// Index of the entry holding `k`, if any.
    fn find_index(&self, k: u32) -> (r: Option<usize>)
        ensures
            match r {
                Some(i) => i < self.entries@.len() && self.entries@[i as int].0 == k,
                None => forall|j: int| 0 <= j < self.entries@.len() ==> self.entries@[j].0 != k,
            },
    {
        let mut i: usize = 0;
        while i < self.entries.len()
            invariant
                i <= self.entries@.len(),
                forall|j: int| 0 <= j < i ==> self.entries@[j].0 != k,
            decreases self.entries@.len() - i,
        {
            if self.entries[i].0 == k {
                return Some(i);
            }
            i = i + 1;
        }
        None
    }

    /// The count held for `k`, as a machine integer.
    fn lookup(&self, k: u32) -> (r: usize)
        requires
            self.wf(),
        ensures
            r as nat == self.count(k),
    {
        match self.find_index(k) {
            Some(i) => {
                proof {
                    lemma_find_at(self.entries@, i as int);
                }
                self.entries[i].1
            },
            None => {
                proof {
                    lemma_find_absent(self.entries@, k);
                }
                0
            },
        }
    }

    /// Adds one connection under `k` unless the prefix is at its cap.
    /// Returns whether the connection was counted.
    fn bump(&mut self, k: u32) -> (r: bool)
        requires
            old(self).wf(),
        ensures
            final(self).wf(),
            final(self).limit() == old(self).limit(),
            r == (old(self).count(k) < old(self).limit()),
            r ==> final(self).count(k) == old(self).count(k) + 1 && final(self).total() == old(
                self,
            ).total() + 1,
            !r ==> *final(self) == *old(self),
            forall|k2: u32| k2 != k ==> final(self).count(k2) == old(self).count(k2),
    {
        let ghost s0 = self.entries@;
        match self.find_index(k) {
            Some(i) => {
                let c = self.entries[i].1;
                proof {
                    lemma_find_at(s0, i as int);
                }
                if c >= self.max {
                    false
                } else {
                    self.entries[i] = (k, c + 1);
                    proof {
                        assert(self.entries@ =~= s0.update(i as int, (s0[i as int].0, (c
                            + 1) as usize)));
                        assert forall|k2: u32| true implies self.count(k2) == if k2 == k {
                            old(self).count(k2) + 1
                        } else {
                            old(self).count(k2)
                        } by {
                            lemma_find_update(s0, i as int, (c + 1) as usize, k2);
                        }
                        lemma_find_update(s0, i as int, (c + 1) as usize, k);
                        lemma_sum_update(s0, i as int, (c + 1) as usize);
                    }
                    true
                }
            },
            None => {
                proof {
                    lemma_find_absent(s0, k);
                }
                if self.max == 0 {
                    false
                } else {
                    self.entries.push((k, 1));
                    proof {
                        assert forall|k2: u32| true implies self.count(k2) == if k2 == k {
                            old(self).count(k2) + 1
                        } else {
                            old(self).count(k2)
                        } by {
                            lemma_find_push(s0, k, 1usize, k2);
                        }
                        lemma_distinct_push(s0, k, 1usize);
                        assert(self.entries@.drop_last() =~= s0);
                    }
                    true
                }
            },
        }
    }

    /// Removes one connection under `k`, dropping the entry when its
    /// count reaches zero. Removing under an untracked key is a no-op.
    fn drop_one(&mut self, k: u32)
        requires
            old(self).wf(),
        ensures
            final(self).wf(),
            final(self).limit() == old(self).limit(),
            final(self).count(k) == if old(self).count(k) > 0 {
                old(self).count(k) - 1
            } else {
                0
            },
            forall|k2: u32| k2 != k ==> final(self).count(k2) == old(self).count(k2),
            final(self).total() == if old(self).count(k) > 0 {
                old(self).total() - 1
            } else {
                old(self).total() as int
            },
    {
        let ghost s0 = self.entries@;
        match self.find_index(k) {
            Some(i) => {
                let c = self.entries[i].1;
                proof {
                    lemma_find_at(s0, i as int);
                }
                if c <= 1 {
                    self.entries.remove(i);
                    proof {
                        assert forall|k2: u32| true implies self.count(k2) == if k2 == k {
                            0nat
                        } else {
                            old(self).count(k2)
                        } by {
                            lemma_find_remove(s0, i as int, k2);
                        }
                        lemma_find_remove(s0, i as int, k);
                        lemma_sum_remove(s0, i as int);
                    }
                } else {
                    self.entries[i] = (k, c - 1);
                    proof {
                        assert(self.entries@ =~= s0.update(i as int, (s0[i as int].0, (c
                            - 1) as usize)));
                        assert forall|k2: u32| true implies self.count(k2) == if k2 == k {
                            (old(self).count(k2) - 1) as nat
                        } else {
                            old(self).count(k2)
                        } by {
                            lemma_find_update(s0, i as int, (c - 1) as usize, k2);
                        }
                        lemma_find_update(s0, i as int, (c - 1) as usize, k);
                        lemma_sum_update(s0, i as int, (c - 1) as usize);
                    }
                }
            },
            None => {
                proof {
                    lemma_find_absent(s0, k);
                }
            },
        }
    }

    /// Sum of all held counts, saturating at `usize::MAX`.
    fn total_sat(&self) -> (r: usize)
        ensures
            if self.total() <= usize::MAX {
                r as nat == self.total()
            } else {
                r == usize::MAX
            },
    {
        let mut acc: usize = 0;
        let mut i: usize = 0;
        while i < self.entries.len()
            invariant
                i <= self.entries@.len(),
                if sum_counts(self.entries@.take(i as int)) <= usize::MAX {
                    acc as nat == sum_counts(self.entries@.take(i as int))
                } else {
                    acc == usize::MAX
                },
            decreases self.entries@.len() - i,
        {
            let c = self.entries[i].1;
            proof {
                assert(self.entries@.take(i + 1).drop_last() =~= self.entries@.take(i as int));
                assert(self.entries@.take(i + 1).last() == self.entries@[i as int]);
            }
            if acc > usize::MAX - c {
                acc = usize::MAX;
            } else {
                acc = acc + c;
            }
            i = i + 1;
        }
        proof {
            assert(self.entries@.take(self.entries@.len() as int) =~= self.entries@);
        }
        acc
    }
}

/// Tracks connections per /24 subnet for Sybil attack protection.
pub struct SubnetTracker {
    inner: PrefixCounter,
}

impl SubnetTracker {
    /// The number of active connections counted in the /24 prefix `k`.
    pub closed spec fn count(self, k: u32) -> nat {
        self.inner.count(k)
    }

    /// The maximum connections allowed per /24 prefix.
    pub closed spec fn limit(self) -> nat {
        self.inner.limit()
    }

    /// Internal well-formedness of the counting map.
    pub closed spec fn wf(self) -> bool {
        self.inner.wf()
    }

    /// Sum of the counts over all /24 prefixes.
    pub closed spec fn total(self) -> nat {
        self.inner.total()
    }

    /// A connection from `ip` is admissible: IPv6 always, IPv4 while its
    /// /24 prefix is below the cap.
    pub open spec fn spec_can_accept(self, ip: IpAddress) -> bool {
        !ip.spec_is_v4() || self.count(ip.spec_subnet24()) < self.limit()
    }

    /// Create a new subnet tracker with default limits.
    pub fn new() -> (r: Self)
        ensures
            r.wf(),
            r.limit() == MAX_PEERS_PER_SUBNET_24 as nat,
            forall|k: u32| r.count(k) == 0,
            r.total() == 0,
    {
        SubnetTracker { inner: PrefixCounter::new(MAX_PEERS_PER_SUBNET_24) }
    }

    /// Create a new subnet tracker with custom limit.
    pub fn with_limit(max_per_subnet: usize) -> (r: Self)
        ensures
            r.wf(),
            r.limit() == max_per_subnet as nat,
            forall|k: u32| r.count(k) == 0,
            r.total() == 0,
    {
        SubnetTracker { inner: PrefixCounter::new(max_per_subnet) }
    }

    /// Extract the packed /24 subnet prefix from an IP address; IPv6
    /// addresses have none.
    pub fn extract_subnet_24(ip: &IpAddress) -> (r: Option<u32>)
        ensures
            r == if ip.spec_is_v4() {
                Some(ip.spec_subnet24())
            } else {
                None::<u32>
            },
    {
        match ip {
            IpAddress::V4 { a, b, c, d: _ } => Some(
                (*a as u32) * 65536 + (*b as u32) * 256 + (*c as u32),
            ),
            IpAddress::V6 { .. } => None,
        }
    }

    /// Extract the packed /16 subnet prefix from an IP address (also used
    /// for bootstrap diversity); IPv6 addresses have none.
    pub fn extract_subnet_16(ip: &IpAddress) -> (r: Option<u32>)
        ensures
            r == if ip.spec_is_v4() {
                Some(ip.spec_subnet16())
            } else {
                None::<u32>
            },
    {
        match ip {
            IpAddress::V4 { a, b, c: _, d: _ } => Some((*a as u32) * 256 + (*b as u32)),
            IpAddress::V6 { .. } => None,
        }
    }

    /// Check if a new connection from this IP is allowed, without any
    /// side effect. IPv6 addresses always pass.
    pub fn can_accept_connection(&self, ip: &IpAddress) -> (r: bool)
        requires
            self.wf(),
        ensures
            r == self.spec_can_accept(*ip),
    {
        match Self::extract_subnet_24(ip) {
            Some(k) => self.inner.lookup(k) < self.inner.max,
            None => true,
        }
    }

    /// Record a new connection from an IP address.
    ///
    /// Succeeds, counting the connection, exactly when the address is
    /// admissible ([`Self::spec_can_accept`]); a full /24 prefix rejects
    /// the attempt without mutating anything, and prefixes other than the
    /// address's own are never affected.
    pub fn add_connection(&mut self, ip: &IpAddress) -> (r: Result<(), SecurityError>)
        requires
            old(self).wf(),
        ensures
            final(self).wf(),
            final(self).limit() == old(self).limit(),
            r is Ok <==> old(self).spec_can_accept(*ip),
            !ip.spec_is_v4() ==> *final(self) == *old(self),
            ip.spec_is_v4() && old(self).spec_can_accept(*ip) ==> final(self).count(
                ip.spec_subnet24(),
            ) == old(self).count(ip.spec_subnet24()) + 1 && final(self).total() == old(
                self,
            ).total() + 1,
            ip.spec_is_v4() ==> forall|k2: u32|
                k2 != ip.spec_subnet24() ==> final(self).count(k2) == old(self).count(k2),
            !old(self).spec_can_accept(*ip) ==> *final(self) == *old(self) && r == Err::<
                (),
                SecurityError,
            >(
                (SecurityError::SubnetLimitExceeded {
                    prefix_bits: 24,
                    subnet: ip.spec_subnet24(),
                    limit: old(self).limit() as usize,
                }),
            ),
    {
        match Self::extract_subnet_24(ip) {
            Some(k) => {
                if self.inner.bump(k) {
                    Ok(())
                } else {
                    Err(
                        SecurityError::SubnetLimitExceeded {
                            prefix_bits: 24,
                            subnet: k,
                            limit: self.inner.max,
                        },
                    )
                }
            },
            None => Ok(()),
        }
    }

    /// Remove a connection from an IP address: frees exactly one slot in
    /// the address's /24 prefix group (saturating at zero), and touches
    /// no other group. IPv6 addresses are a no-op.
    pub fn remove_connection(&mut self, ip: &IpAddress)
        requires
            old(self).wf(),
        ensures
            final(self).wf(),
            final(self).limit() == old(self).limit(),
            !ip.spec_is_v4() ==> *final(self) == *old(self),
            ip.spec_is_v4() ==> final(self).count(ip.spec_subnet24()) == if old(self).count(
                ip.spec_subnet24(),
            ) > 0 {
                old(self).count(ip.spec_subnet24()) - 1
            } else {
                0
            },
            ip.spec_is_v4() ==> forall|k2: u32|
                k2 != ip.spec_subnet24() ==> final(self).count(k2) == old(self).count(k2),
            ip.spec_is_v4() ==> final(self).total() == if old(self).count(ip.spec_subnet24())
                > 0 {
                old(self).total() - 1
            } else {
                old(self).total() as int
            },
    {
        match Self::extract_subnet_24(ip) {
            Some(k) => self.inner.drop_one(k),
            None => {},
        }
    }

    /// Get the current connection count for the /24 subnet of `ip`
    /// (zero for IPv6).
    pub fn connection_count(&self, ip: &IpAddress) -> (r: usize)
        requires
            self.wf(),
        ensures
            r as nat == if ip.spec_is_v4() {
                self.count(ip.spec_subnet24())
            } else {
                0
            },
    {
        match Self::extract_subnet_24(ip) {
            Some(k) => self.inner.lookup(k),
            None => 0,
        }
    }

    /// Get total tracked connections across all subnets (saturating at
    /// `usize::MAX`).
    pub fn total_connections(&self) -> (r: usize)
        ensures
            if self.total() <= usize::MAX {
                r as nat == self.total()
            } else {
                r == usize::MAX
            },
    {
        self.inner.total_sat()
    }
}

/// Freeing one slot in a /24 prefix group that was exactly full reopens
/// admission for every address of that group.
pub proof fn lemma_remove_reopens_slot_24(pre: SubnetTracker, post: SubnetTracker, ip: IpAddress)
    requires
        ip.spec_is_v4(),
        pre.limit() >= 1,
        pre.count(ip.spec_subnet24()) == pre.limit(),
        post.limit() == pre.limit(),
        post.count(ip.spec_subnet24()) == pre.count(ip.spec_subnet24()) - 1,
    ensures
        post.spec_can_accept(ip),
{
}

/// Tracks connections per /16 subnet for stricter Sybil attack
/// protection.
///
/// A /16 subnet includes the first two octets. This guards against
/// attackers who control multiple IPs within a larger network range.
pub struct Subnet16Tracker {
    inner: PrefixCounter,
}

impl Subnet16Tracker {
    /// The number of active connections counted in the /16 prefix `k`.
    pub closed spec fn count(self, k: u32) -> nat {
        self.inner.count(k)
    }

    /// The maximum connections allowed per /16 prefix.
    pub closed spec fn limit(self) -> nat {
        self.inner.limit()
    }

    /// Internal well-formedness of the counting map.
    pub closed spec fn wf(self) -> bool {
        self.inner.wf()
    }

    /// Sum of the counts over all /16 prefixes.
    pub closed spec fn total(self) -> nat {
        self.inner.total()
    }

    /// A connection from `ip` is admissible: IPv6 always, IPv4 while its
    /// /16 prefix is below the cap.
    pub open spec fn spec_can_accept(self, ip: IpAddress) -> bool {
        !ip.spec_is_v4() || self.count(ip.spec_subnet16()) < self.limit()
    }

    /// Create a new /16 subnet tracker with default limits.
    pub fn new() -> (r: Self)
        ensures
            r.wf(),
            r.limit() == MAX_PEERS_PER_SUBNET_16 as nat,
            forall|k: u32| r.count(k) == 0,
            r.total() == 0,
    {
        Subnet16Tracker { inner: PrefixCounter::new(MAX_PEERS_PER_SUBNET_16) }
    }

    /// Create a new /16 subnet tracker with custom limit.
    pub fn with_limit(max_per_subnet: usize) -> (r: Self)
        ensures
            r.wf(),
            r.limit() == max_per_subnet as nat,
            forall|k: u32| r.count(k) == 0,
            r.total() == 0,
    {
        Subnet16Tracker { inner: PrefixCounter::new(max_per_subnet) }
    }

    /// Check if a new connection from this IP is allowed, without any
    /// side effect. IPv6 addresses always pass.
    pub fn can_accept_connection(&self, ip: &IpAddress) -> (r: bool)
        requires
            self.wf(),
        ensures
            r == self.spec_can_accept(*ip),
    {
        match SubnetTracker::extract_subnet_16(ip) {
            Some(k) => self.inner.lookup(k) < self.inner.max,
            None => true,
        }
    }

    /// Record a new connection from an IP address.
    ///
    /// Succeeds, counting the connection, exactly when the address is
    /// admissible ([`Self::spec_can_accept`]); a full /16 prefix rejects
    /// the attempt without mutating anything, and prefixes other than the
    /// address's own are never affected.
    pub fn add_connection(&mut self, ip: &IpAddress) -> (r: Result<(), SecurityError>)
        requires
            old(self).wf(),
        ensures
            final(self).wf(),
            final(self).limit() == old(self).limit(),
            r is Ok <==> old(self).spec_can_accept(*ip),
            !ip.spec_is_v4() ==> *final(self) == *old(self),
            ip.spec_is_v4() && old(self).spec_can_accept(*ip) ==> final(self).count(
                ip.spec_subnet16(),
            ) == old(self).count(ip.spec_subnet16()) + 1 && final(self).total() == old(
                self,
            ).total() + 1,
            ip.spec_is_v4() ==> forall|k2: u32|
                k2 != ip.spec_subnet16() ==> final(self).count(k2) == old(self).count(k2),
            !old(self).spec_can_accept(*ip) ==> *final(self) == *old(self) && r == Err::<
                (),
                SecurityError,
            >(
                (SecurityError::SubnetLimitExceeded {
                    prefix_bits: 16,
                    subnet: ip.spec_subnet16(),
                    limit: old(self).limit() as usize,
                }),
            ),
    {
        match SubnetTracker::extract_subnet_16(ip) {
            Some(k) => {
                if self.inner.bump(k) {
                    Ok(())
                } else {
                    Err(
                        SecurityError::SubnetLimitExceeded {
                            prefix_bits: 16,
                            subnet: k,
                            limit: self.inner.max,
                        },
                    )
                }
            },
            None => Ok(()),
        }
    }

    /// Remove a connection from an IP address: frees exactly one slot in
    /// the address's /16 prefix group (saturating at zero), and touches
    /// no other group. IPv6 addresses are a no-op.
    pub fn remove_connection(&mut self, ip: &IpAddress)
        requires
            old(self).wf(),
        ensures
            final(self).wf(),
            final(self).limit() == old(self).limit(),
            !ip.spec_is_v4() ==> *final(self) == *old(self),
            ip.spec_is_v4() ==> final(self).count(ip.spec_subnet16()) == if old(self).count(
                ip.spec_subnet16(),
            ) > 0 {
                old(self).count(ip.spec_subnet16()) - 1
            } else {
                0
            },
            ip.spec_is_v4() ==> forall|k2: u32|
                k2 != ip.spec_subnet16() ==> final(self).count(k2) == old(self).count(k2),
            ip.spec_is_v4() ==> final(self).total() == if old(self).count(ip.spec_subnet16())
                > 0 {
                old(self).total() - 1
            } else {
                old(self).total() as int
            },
    {
        match SubnetTracker::extract_subnet_16(ip) {
            Some(k) => self.inner.drop_one(k),
            None => {},
        }
    }

    /// Get the current connection count for the /16 subnet of `ip`
    /// (zero for IPv6).
    pub fn connection_count(&self, ip: &IpAddress) -> (r: usize)
        requires
            self.wf(),
        ensures
            r as nat == if ip.spec_is_v4() {
                self.count(ip.spec_subnet16())
            } else {
                0
            },
    {
        match SubnetTracker::extract_subnet_16(ip) {
            Some(k) => self.inner.lookup(k),
            None => 0,
        }
    }

    /// Get total tracked connections across all /16 subnets (saturating
    /// at `usize::MAX`).
    pub fn total_connections(&self) -> (r: usize)
        ensures
            if self.total() <= usize::MAX {
                r as nat == self.total()
            } else {
                r == usize::MAX
            },
    {
        self.inner.total_sat()
    }
}

/// Freeing one slot in a /16 prefix group that was exactly full reopens
/// admission for every address of that group.
pub proof fn lemma_remove_reopens_slot_16(pre: Subnet16Tracker, post: Subnet16Tracker, ip: IpAddress)
    requires
        ip.spec_is_v4(),
        pre.limit() >= 1,
        pre.count(ip.spec_subnet16()) == pre.limit(),
        post.limit() == pre.limit(),
        post.count(ip.spec_subnet16()) == pre.count(ip.spec_subnet16()) - 1,
    ensures
        post.spec_can_accept(ip),
{
}

} // verus!
