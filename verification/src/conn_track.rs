//! Hard cap on simultaneous connections.
//!
//! [`ConnectionTracker`] keeps the set of currently admitted peer IPs and
//! refuses new peers once the set reaches the configured maximum,
//! regardless of subnet distribution. Membership is idempotent: re-adding
//! an already-present IP succeeds without counting it twice.

use vstd::prelude::*;

use crate::error::SecurityError;
use crate::ip::IpAddress;

verus! {

broadcast use vstd::seq_lib::seq_to_set_is_finite, vstd::set::group_set_axioms;

/// Tracks total connections and enforces a hard limit.
pub struct ConnectionTracker {
    /// The currently connected peer IPs, each held once.
    connections: Vec<IpAddress>,
    /// Maximum total connections allowed.
    max_connections: usize,
}

impl ConnectionTracker {
    /// The set of currently admitted peer IPs.
    pub closed spec fn peers(self) -> Set<IpAddress> {
        self.connections@.to_set()
    }

    /// The configured maximum number of simultaneous connections.
    pub closed spec fn limit(self) -> nat {
        self.max_connections as nat
    }

    /// The number of currently admitted peers.
    pub closed spec fn count(self) -> nat {
        self.peers().len()
    }

    /// Internal well-formedness: each IP held once, never more IPs than
    /// the maximum.
    pub closed spec fn wf(self) -> bool {
        &&& self.connections@.no_duplicates()
        &&& self.connections@.len() <= self.max_connections
    }

    /// Create a new connection tracker with the given maximum.
    pub fn new(max_connections: usize) -> (r: Self)
        ensures
            r.wf(),
            r.limit() == max_connections as nat,
            r.peers() == Set::<IpAddress>::empty(),
            r.count() == 0,
    {
        let r = ConnectionTracker { connections: Vec::new(), max_connections };
        proof {
            assert(r.connections@.to_set() =~= Set::<IpAddress>::empty());
        }
        r
    }

    /// Index of `ip` in the backing list, if present.
    fn find_index(&self, ip: &IpAddress) -> (r: Option<usize>)
        ensures
            match r {
                Some(i) => i < self.connections@.len() && self.connections@[i as int] == *ip,
                None => !self.connections@.contains(*ip),
            },
    {
        let mut i: usize = 0;
        while i < self.connections.len()
            invariant
                i <= self.connections@.len(),
                forall|j: int| 0 <= j < i ==> self.connections@[j] != *ip,
            decreases self.connections@.len() - i,
        {
            if self.connections[i] == *ip {
                return Some(i);
            }
            i = i + 1;
        }
        None
    }

    /// Check if a new connection can be accepted.
    pub fn can_accept_connection(&self) -> (r: bool)
        requires
            self.wf(),
        ensures
            r == (self.count() < self.limit()),
    {
        proof {
            self.connections@.unique_seq_to_set();
        }
        self.connections.len() < self.max_connections
    }

    /// Add a connection.
    ///
    /// Idempotent: an already-tracked IP is reported as success without
    /// being counted again. An untracked IP is admitted exactly when the
    /// tracked set is below the maximum; at the maximum the attempt is
    /// rejected without mutating anything.
    pub fn add_connection(&mut self, ip: &IpAddress) -> (r: Result<(), SecurityError>)
        requires
            old(self).wf(),
        ensures
            final(self).wf(),
            final(self).limit() == old(self).limit(),
            r is Ok <==> old(self).peers().contains(*ip) || old(self).count() < old(self).limit(),
            old(self).peers().contains(*ip) ==> r is Ok && *final(self) == *old(self),
            !old(self).peers().contains(*ip) && old(self).count() < old(self).limit() ==> r is Ok
                && final(self).peers() == old(self).peers().insert(*ip) && final(self).count()
                == old(self).count() + 1,
            !old(self).peers().contains(*ip) && old(self).count() >= old(self).limit()
                ==> *final(self) == *old(self) && r == Err::<(), SecurityError>(
                (SecurityError::TotalLimitExceeded { limit: old(self).limit() as usize }),
            ),
    {
        let ghost s0 = self.connections@;
        proof {
            s0.unique_seq_to_set();
        }
        match self.find_index(ip) {
            Some(_) => Ok(()),
            None => {
                if self.connections.len() >= self.max_connections {
                    Err(SecurityError::TotalLimitExceeded { limit: self.max_connections })
                } else {
                    self.connections.push(*ip);
                    proof {
                        let t = self.connections@;
                        assert forall|y: IpAddress| t.contains(y) implies s0.contains(y) || y
                            == *ip by {
                            let j = choose|j: int| 0 <= j < t.len() && t[j] == y;
                            if j < s0.len() {
                                assert(s0[j] == y);
                            }
                        }
                        assert(t[s0.len() as int] == *ip);
                        assert forall|y: IpAddress| s0.contains(y) implies t.contains(y) by {
                            let j = choose|j: int| 0 <= j < s0.len() && s0[j] == y;
                            assert(t[j] == y);
                        }
                        assert(t.to_set() =~= s0.to_set().insert(*ip));
                        assert(t.no_duplicates());
                        t.unique_seq_to_set();
                    }
                    Ok(())
                }
            },
        }
    }

    /// Remove a connection. Removing an untracked IP is a no-op.
    pub fn remove_connection(&mut self, ip: &IpAddress)
        requires
            old(self).wf(),
        ensures
            final(self).wf(),
            final(self).limit() == old(self).limit(),
            final(self).peers() == old(self).peers().remove(*ip),
            final(self).count() == if old(self).peers().contains(*ip) {
                old(self).count() - 1
            } else {
                old(self).count() as int
            },
    {
        let ghost s0 = self.connections@;
        proof {
            s0.unique_seq_to_set();
        }
        match self.find_index(ip) {
            Some(i) => {
                self.connections.remove(i);
                proof {
                    s0.remove_ensures(i as int);
                    let t = self.connections@;
                    assert forall|y: IpAddress| t.contains(y) implies s0.contains(y) && y
                        != *ip by {
                        let j = choose|j: int| 0 <= j < t.len() && t[j] == y;
                        if j < i {
                            assert(s0[j] == y);
                        } else {
                            assert(s0[j + 1] == y);
                        }
                    }
                    assert forall|y: IpAddress| s0.contains(y) && y != *ip implies t.contains(
                        y,
                    ) by {
                        let j = choose|j: int| 0 <= j < s0.len() && s0[j] == y;
                        if j < i {
                            assert(t[j] == y);
                        } else {
                            assert(j != i);
                            assert(t[j - 1] == y);
                        }
                    }
                    assert(t.to_set() =~= s0.to_set().remove(*ip));
                    assert forall|a: int, b: int| 0 <= a < b < t.len() implies t[a] != t[b] by {
                        if b < i {
                        } else if a < i {
                            assert(t[a] == s0[a] && t[b] == s0[b + 1]);
                        } else {
                            assert(t[a] == s0[a + 1] && t[b] == s0[b + 1]);
                        }
                    }
                    assert(t.no_duplicates());
                    t.unique_seq_to_set();
                }
            },
            None => {
                proof {
                    assert(s0.to_set() =~= s0.to_set().remove(*ip));
                }
            },
        }
    }

    /// Check if an IP is currently connected.
    pub fn has_connection(&self, ip: &IpAddress) -> (r: bool)
        requires
            self.wf(),
        ensures
            r == self.peers().contains(*ip),
    {
        match self.find_index(ip) {
            Some(_) => true,
            None => false,
        }
    }

    /// Get the current connection count.
    pub fn current_count(&self) -> (r: usize)
        requires
            self.wf(),
        ensures
            r as nat == self.count(),
    {
        proof {
            self.connections@.unique_seq_to_set();
        }
        self.connections.len()
    }

    /// Get remaining capacity.
    pub fn remaining_capacity(&self) -> (r: usize)
        requires
            self.wf(),
        ensures
            r as nat == self.limit() - self.count(),
    {
        proof {
            self.connections@.unique_seq_to_set();
        }
        self.max_connections - self.connections.len()
    }
}

/// The tracked-peer count never exceeds the configured maximum.
pub proof fn lemma_count_within_limit(t: ConnectionTracker)
    requires
        t.wf(),
    ensures
        t.count() <= t.limit(),
{
    t.connections@.unique_seq_to_set();
}

} // verus!
