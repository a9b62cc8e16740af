//! Bootstrap peer diversity validation (eclipse protection).
//!
//! A node that trusts only a handful of bootstrap peers from one network
//! neighbourhood can be surrounded. [`validate_bootstrap_peers`] therefore
//! demands enough peers, and enough *topological spread* among them: their
//! multiaddr strings must contain IPv4 literals from enough distinct /16
//! subnets. Entries with no parseable IP literal (DNS names, for instance)
//! contribute nothing to the diversity count; IPv6 literals carry no /16
//! key and contribute nothing either.

use vstd::prelude::*;
use vstd::string::StringSliceAdditionalSpecFns;
use vstd::utf8::encode_utf8;

use crate::config::MIN_BOOTSTRAP_PEERS;
use crate::error::SecurityError;
use crate::ip::IpAddress;
use crate::parse::{
    is_ipv4_bytes, is_ipv6_bytes, parse_ipv4, parse_ipv6, spec_ipv4_of, spec_ipv6_of, split_on,
    split_ranges, SLASH,
};
use crate::subnet::SubnetTracker;

verus! {

broadcast use vstd::seq_lib::seq_to_set_is_finite, vstd::set::group_set_axioms;

/// What one `/`-delimited segment denotes: an IPv4 literal, else an IPv6
/// literal, else nothing.
pub open spec fn spec_parse_ip(t: Seq<u8>) -> Option<IpAddress> {
    if is_ipv4_bytes(t) {
        Some(spec_ipv4_of(t))
    } else if is_ipv6_bytes(t) {
        Some(spec_ipv6_of(t))
    } else {
        None
    }
}

/// The first segment of the list that denotes an IP address.
pub open spec fn first_ip(parts: Seq<Seq<u8>>) -> Option<IpAddress>
    decreases parts.len(),
{
    if parts.len() == 0 {
        None
    } else {
        match spec_parse_ip(parts[0]) {
            Some(ip) => Some(ip),
            None => first_ip(parts.skip(1)),
        }
    }
}

/// The IP address embedded in a multiaddr's bytes: the first
/// `/`-delimited segment that is an IP literal.
pub open spec fn multiaddr_ip(s: Seq<u8>) -> Option<IpAddress> {
    first_ip(split_on(s, SLASH))
}

/// Skipping segments that denote no IP does not change the first IP.
proof fn lemma_first_ip_skip(parts: Seq<Seq<u8>>, k: int)
    requires
        0 <= k <= parts.len(),
        forall|m: int| 0 <= m < k ==> spec_parse_ip(#[trigger] parts[m]) is None,
    ensures
        first_ip(parts) == first_ip(parts.skip(k)),
    decreases k,
{
    if k == 0 {
        assert(parts.skip(0) =~= parts);
    } else {
        lemma_first_ip_skip(parts, k - 1);
        let q = parts.skip(k - 1);
        assert(q.len() > 0);
        assert(q[0] == parts[k - 1]);
        assert(q.skip(1) =~= parts.skip(k));
    }
}

/// An IPv4 literal is never an IPv6 literal, so trying IPv4 first loses
/// nothing.
fn parse_ip_range(s: &[u8], lo: usize, hi: usize) -> (r: Option<IpAddress>)
    requires
        lo <= hi <= s@.len(),
    ensures
        r == spec_parse_ip(s@.subrange(lo as int, hi as int)),
{
    match parse_ipv4(s, lo, hi) {
        Some(ip) => Some(ip),
        None => parse_ipv6(s, lo, hi),
    }
}

/// The IP address embedded in a multiaddr's bytes.
#[verifier::loop_isolation(false)]
fn multiaddr_ip_bytes(bytes: &[u8]) -> (r: Option<IpAddress>)
    ensures
        r == multiaddr_ip(bytes@),
{
    let n = bytes.len();
    let ranges = split_ranges(bytes, 0, n, SLASH);
    let ghost parts = split_on(bytes@.subrange(0, n as int), SLASH);
    proof {
        assert(bytes@.subrange(0, n as int) =~= bytes@);
        assert(forall|k: int|
            0 <= k < ranges@.len() ==> parts[k] == bytes@.subrange(
                (#[trigger] ranges@[k]).0 as int,
                ranges@[k].1 as int,
            ));
    }
    let mut k: usize = 0;
    while k < ranges.len()
        invariant
            k <= ranges@.len(),
            forall|m: int| 0 <= m < k ==> spec_parse_ip(#[trigger] parts[m]) is None,
        decreases ranges@.len() - k,
    {
        let rk = ranges[k];
        match parse_ip_range(bytes, rk.0, rk.1) {
            Some(ip) => {
                proof {
                    lemma_first_ip_skip(parts, k as int);
                    assert(parts.skip(k as int)[0] == parts[k as int]);
                }
                return Some(ip);
            },
            None => {},
        }
        k = k + 1;
    }
    proof {
        lemma_first_ip_skip(parts, parts.len() as int);
        assert(parts.skip(parts.len() as int) =~= Seq::<Seq<u8>>::empty());
    }
    None
}

/// Extract the IP address embedded in a multiaddr string: the first
/// `/`-delimited segment that parses as an IPv4 or IPv6 literal.
pub fn extract_ip_from_multiaddr(addr: &str) -> (r: Option<IpAddress>)
    ensures
        r == multiaddr_ip(addr.spec_bytes()),
{
    multiaddr_ip_bytes(addr.as_bytes())
}

/// The UTF-8 bytes of one configured peer string.
pub open spec fn peer_bytes(p: String) -> Seq<u8> {
    encode_utf8(p@)
}

/// The byte views of the configured peer strings, in order.
pub open spec fn peer_views(peers: Seq<String>) -> Seq<Seq<u8>> {
    Seq::new(peers.len(), |k: int| peer_bytes(peers[k]))
}

/// The /16 key contributed by one peer entry: present exactly when the
/// entry embeds an IPv4 literal.
pub open spec fn peer_subnet16(t: Seq<u8>) -> Option<u32> {
    match multiaddr_ip(t) {
        Some(ip) => if ip is V4 {
            Some(ip.spec_subnet16())
        } else {
            None
        },
        None => None,
    }
}

/// The distinct /16 subnets covered by the configured peers' IPv4
/// literals.
pub open spec fn bootstrap_subnets(views: Seq<Seq<u8>>) -> Set<u32>
    decreases views.len(),
{
    if views.len() == 0 {
        Set::<u32>::empty()
    } else {
        let rest = bootstrap_subnets(views.drop_last());
        match peer_subnet16(views.last()) {
            Some(k) => rest.insert(k),
            None => rest,
        }
    }
}

/// The subnet set is finite (it collects at most one key per peer).
pub proof fn lemma_bootstrap_subnets_finite(views: Seq<Seq<u8>>)
    ensures
        bootstrap_subnets(views).finite(),
    decreases views.len(),
{
    if views.len() > 0 {
        lemma_bootstrap_subnets_finite(views.drop_last());
    }
}

/// Validates bootstrap peer configuration for eclipse attack protection.
///
/// Accepts exactly when at least [`MIN_BOOTSTRAP_PEERS`] peers are
/// configured *and* their embedded IPv4 literals cover at least that many
/// distinct /16 subnets; each rejection names the failing threshold.
#[verifier::loop_isolation(false)]
pub fn validate_bootstrap_peers(peers: &[String]) -> (r: Result<(), SecurityError>)
    ensures
        ({
            let views = peer_views(peers@);
            match r {
                Ok(()) => peers@.len() >= MIN_BOOTSTRAP_PEERS && bootstrap_subnets(views).len()
                    >= MIN_BOOTSTRAP_PEERS,
                Err(e) => {
                    ||| (peers@.len() < MIN_BOOTSTRAP_PEERS && e == (SecurityError::BootstrapCountTooLow {
                        required: MIN_BOOTSTRAP_PEERS,
                        actual: peers@.len() as usize,
                    }))
                    ||| (peers@.len() >= MIN_BOOTSTRAP_PEERS && bootstrap_subnets(views).len()
                        < MIN_BOOTSTRAP_PEERS && e == (SecurityError::BootstrapDiversityTooLow {
                        required: MIN_BOOTSTRAP_PEERS,
                        actual: bootstrap_subnets(views).len() as usize,
                    }))
                },
            }
        }),
{
    let ghost views = peer_views(peers@);
    if peers.len() < MIN_BOOTSTRAP_PEERS {
        return Err(
            SecurityError::BootstrapCountTooLow {
                required: MIN_BOOTSTRAP_PEERS,
                actual: peers.len(),
            },
        );
    }
    let mut seen: Vec<u32> = Vec::new();
    let mut i: usize = 0;
    while i < peers.len()
        invariant
            i <= peers@.len(),
            seen@.no_duplicates(),
            seen@.to_set() == bootstrap_subnets(views.take(i as int)),
        decreases peers@.len() - i,
    {
        let p: &String = &peers[i];
        let bytes = p.as_str().as_bytes();
        proof {
            assert(bytes@ == peer_bytes(peers@[i as int]));
            assert(views.take(i + 1).drop_last() =~= views.take(i as int));
            assert(views.take(i + 1).last() == views[i as int]);
        }
        let key: Option<u32> = match multiaddr_ip_bytes(bytes) {
            Some(ip) => SubnetTracker::extract_subnet_16(&ip),
            None => None,
        };
        match key {
            Some(k) => {
                let mut present = false;
                let mut j: usize = 0;
                while j < seen.len()
                    invariant
                        j <= seen@.len(),
                        present == exists|m: int| 0 <= m < j && seen@[m] == k,
                    decreases seen@.len() - j,
                {
                    if seen[j] == k {
                        present = true;
                    }
                    j = j + 1;
                }
                if !present {
                    let ghost seen0 = seen@;
                    seen.push(k);
                    proof {
                        assert(forall|m: int| 0 <= m < seen0.len() ==> seen0[m] != k);
                        assert(seen@.no_duplicates());
                        assert forall|y: u32| seen@.to_set().contains(y) implies
                            seen0.to_set().insert(k).contains(y) by {
                            let m = choose|m: int| 0 <= m < seen@.len() && seen@[m] == y;
                            if m < seen0.len() {
                                assert(seen0[m] == y);
                            }
                        }
                        assert forall|y: u32| seen0.to_set().insert(k).contains(y) implies
                            seen@.to_set().contains(y) by {
                            if y == k {
                                assert(seen@[seen0.len() as int] == y);
                            } else {
                                let m = choose|m: int| 0 <= m < seen0.len() && seen0[m] == y;
                                assert(seen@[m] == y);
                            }
                        }
                        assert(seen@.to_set() =~= seen0.to_set().insert(k));
                    }
                } else {
                    proof {
                        let m = choose|m: int| 0 <= m < seen@.len() && seen@[m] == k;
                        assert(seen@.to_set().contains(k));
                        assert(seen@.to_set() =~= seen@.to_set().insert(k));
                    }
                }
                proof {
                    assert(peer_subnet16(views[i as int]) == Some(k));
                    assert(bootstrap_subnets(views.take(i + 1)) == bootstrap_subnets(
                        views.take(i as int),
                    ).insert(k));
                }
            },
            None => {
                proof {
                    assert(peer_subnet16(views[i as int]) is None);
                    assert(bootstrap_subnets(views.take(i + 1)) == bootstrap_subnets(
                        views.take(i as int),
                    ));
                }
            },
        }
        i = i + 1;
    }
    proof {
        assert(views.take(views.len() as int) =~= views);
        lemma_bootstrap_subnets_finite(views);
        seen@.unique_seq_to_set();
    }
    if seen.len() < MIN_BOOTSTRAP_PEERS {
        return Err(
            SecurityError::BootstrapDiversityTooLow {
                required: MIN_BOOTSTRAP_PEERS,
                actual: seen.len(),
            },
        );
    }
    Ok(())
}

} // verus!
