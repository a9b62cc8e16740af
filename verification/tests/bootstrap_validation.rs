//! Bootstrap diversity validation and multiaddr IP extraction.

use mesh_admission::bootstrap::{extract_ip_from_multiaddr, validate_bootstrap_peers};
use mesh_admission::error::SecurityError;
use mesh_admission::ip::IpAddress;

#[test]
fn test_requires_minimum_bootstrap_peers() {
    // A configuration with fewer than 3 bootstrap peers is rejected.
    let peers_0: Vec<String> = vec![];
    let result_0 = validate_bootstrap_peers(&peers_0);
    assert!(result_0.is_err(), "Should require at least 3 bootstrap peers");

    let peers_1 = vec!["/ip4/192.168.1.1/tcp/9000/p2p/12D3KooWTest1".to_string()];
    let result_1 = validate_bootstrap_peers(&peers_1);
    assert!(result_1.is_err(), "1 bootstrap peer should fail");

    let peers_2 = vec![
        "/ip4/192.168.1.1/tcp/9000/p2p/12D3KooWTest1".to_string(),
        "/ip4/10.0.1.1/tcp/9000/p2p/12D3KooWTest2".to_string(),
    ];
    let result_2 = validate_bootstrap_peers(&peers_2);
    assert!(result_2.is_err(), "2 bootstrap peers should fail");

    let err = result_2.unwrap_err();
    let msg = err.message();
    assert!(
        msg.contains("Minimum") && msg.contains("bootstrap"),
        "Error should mention minimum bootstrap peers requirement"
    );
}

#[test]
fn test_bootstrap_peers_must_be_diverse() {
    // All bootstrap peers from the same /16 are rejected.
    let same_subnet_peers = vec![
        "/ip4/192.168.1.1/tcp/9000/p2p/12D3KooWTest1".to_string(),
        "/ip4/192.168.1.2/tcp/9000/p2p/12D3KooWTest2".to_string(),
        "/ip4/192.168.1.3/tcp/9000/p2p/12D3KooWTest3".to_string(),
    ];
    let result = validate_bootstrap_peers(&same_subnet_peers);
    assert!(
        result.is_err(),
        "Bootstrap peers from same /16 subnet should fail"
    );

    let err = result.unwrap_err();
    let msg = err.message();
    assert!(
        msg.contains("/16") && msg.contains("different"),
        "Error should mention /16 subnet diversity requirement"
    );
}

#[test]
fn test_accepts_diverse_bootstrap_peers() {
    let diverse_peers = vec![
        "/ip4/192.168.1.1/tcp/9000/p2p/12D3KooWTest1".to_string(),
        "/ip4/10.0.1.1/tcp/9000/p2p/12D3KooWTest2".to_string(),
        "/ip4/172.16.1.1/tcp/9000/p2p/12D3KooWTest3".to_string(),
    ];
    let result = validate_bootstrap_peers(&diverse_peers);
    assert!(
        result.is_ok(),
        "Diverse bootstrap peers should be accepted: {:?}",
        result
    );
}

#[test]
fn test_bootstrap_peers_partially_diverse_fails() {
    // Only 2 distinct /16 subnets among 3 peers.
    let partial_peers = vec![
        "/ip4/192.168.1.1/tcp/9000/p2p/12D3KooWTest1".to_string(),
        "/ip4/192.168.2.1/tcp/9000/p2p/12D3KooWTest2".to_string(),
        "/ip4/10.0.1.1/tcp/9000/p2p/12D3KooWTest3".to_string(),
    ];
    let result = validate_bootstrap_peers(&partial_peers);
    assert!(
        result.is_err(),
        "Only 2 unique /16 subnets among 3 peers should fail"
    );
    assert_eq!(
        result.unwrap_err(),
        SecurityError::BootstrapDiversityTooLow { required: 3, actual: 2 }
    );
}

#[test]
fn test_bootstrap_ipv6_and_dns_peers_add_no_diversity() {
    // IPv6 literals and DNS names parse (or not) but contribute no /16.
    let peers = vec![
        "/ip4/192.168.1.1/tcp/9000".to_string(),
        "/ip6/2001:db8::1/tcp/9000".to_string(),
        "/dns4/example.com/tcp/9000".to_string(),
    ];
    let result = validate_bootstrap_peers(&peers);
    assert_eq!(
        result.unwrap_err(),
        SecurityError::BootstrapDiversityTooLow { required: 3, actual: 1 }
    );
}

#[test]
fn test_extract_ip_from_multiaddr() {
    let addr = "/ip4/192.168.1.100/tcp/9000/p2p/12D3KooWTest";
    let ip = extract_ip_from_multiaddr(addr);
    assert_eq!(ip, Some(IpAddress::v4(192, 168, 1, 100)));

    let addr_v6 = "/ip6/::1/tcp/9000/p2p/12D3KooWTest";
    let ip_v6 = extract_ip_from_multiaddr(addr_v6);
    assert_eq!(ip_v6, Some(IpAddress::v6(0, 0, 0, 0, 0, 0, 0, 1)));

    let invalid = "/dns4/example.com/tcp/9000";
    let ip_invalid = extract_ip_from_multiaddr(invalid);
    assert_eq!(ip_invalid, None);
}

#[test]
fn test_extract_ip_rejects_malformed_ipv4_literals() {
    // Leading zeros, out-of-range octets and wrong shapes never parse.
    assert_eq!(extract_ip_from_multiaddr("/ip4/192.168.01.1/tcp/1"), None);
    assert_eq!(extract_ip_from_multiaddr("/ip4/256.1.1.1/tcp/1"), None);
    assert_eq!(extract_ip_from_multiaddr("/ip4/1.2.3/tcp/1"), None);
    assert_eq!(extract_ip_from_multiaddr("/ip4/1.2.3.4.5/tcp/1"), None);
    assert_eq!(extract_ip_from_multiaddr("/ip4/1..2.3/tcp/1"), None);
    assert_eq!(
        extract_ip_from_multiaddr("/ip4/0.0.0.0/tcp/9000"),
        Some(IpAddress::v4(0, 0, 0, 0))
    );
    assert_eq!(
        extract_ip_from_multiaddr("/ip4/255.255.255.255/tcp/9000"),
        Some(IpAddress::v4(255, 255, 255, 255))
    );
}

#[test]
fn test_extract_ip_parses_ipv6_forms() {
    assert_eq!(
        extract_ip_from_multiaddr("/ip6/1:2:3:4:5:6:7:8/tcp/1"),
        Some(IpAddress::v6(1, 2, 3, 4, 5, 6, 7, 8))
    );
    assert_eq!(
        extract_ip_from_multiaddr("/ip6/::/tcp/1"),
        Some(IpAddress::v6(0, 0, 0, 0, 0, 0, 0, 0))
    );
    assert_eq!(
        extract_ip_from_multiaddr("/ip6/2001:db8::ff/tcp/1"),
        Some(IpAddress::v6(0x2001, 0xdb8, 0, 0, 0, 0, 0, 0xff))
    );
    assert_eq!(
        extract_ip_from_multiaddr("/ip6/1::/tcp/1"),
        Some(IpAddress::v6(1, 0, 0, 0, 0, 0, 0, 0))
    );
    assert_eq!(
        extract_ip_from_multiaddr("/ip6/::ffff:192.168.1.1/tcp/1"),
        Some(IpAddress::v6(0, 0, 0, 0, 0, 0xffff, 0xc0a8, 0x0101))
    );
    assert_eq!(
        extract_ip_from_multiaddr("/ip6/1:2:3:4:5:6:192.168.1.1/tcp/1"),
        Some(IpAddress::v6(1, 2, 3, 4, 5, 6, 0xc0a8, 0x0101))
    );
    assert_eq!(
        extract_ip_from_multiaddr("/ip6/AbCd::EF/tcp/1"),
        Some(IpAddress::v6(0xabcd, 0, 0, 0, 0, 0, 0, 0xef))
    );
}

#[test]
fn test_extract_ip_rejects_malformed_ipv6_literals() {
    assert_eq!(extract_ip_from_multiaddr("/ip6/1:2:3/tcp/1"), None);
    assert_eq!(extract_ip_from_multiaddr("/ip6/1:2:3:4:5:6:7:8:9/tcp/1"), None);
    assert_eq!(extract_ip_from_multiaddr("/ip6/1::2::3/tcp/1"), None);
    assert_eq!(extract_ip_from_multiaddr("/ip6/:::/tcp/1"), None);
    assert_eq!(extract_ip_from_multiaddr("/ip6/12345::/tcp/1"), None);
    assert_eq!(extract_ip_from_multiaddr("/ip6/g::1/tcp/1"), None);
    assert_eq!(extract_ip_from_multiaddr("/ip6/1:2:3:4:5:6:7:8::/tcp/1"), None);
    assert_eq!(extract_ip_from_multiaddr("/ip6/1::2:3:4:5:6:7:8/tcp/1"), None);
    // "::" may stand for a single zero group.
    assert_eq!(
        extract_ip_from_multiaddr("/ip6/1:2:3:4:5:6:7::/tcp/1"),
        Some(IpAddress::v6(1, 2, 3, 4, 5, 6, 7, 0))
    );
}

#[test]
fn test_extract_ip_takes_first_parseable_segment() {
    // The scan takes the first segment that parses as an IP.
    assert_eq!(
        extract_ip_from_multiaddr("/dns4/example.com/ip4/1.2.3.4/tcp/1"),
        Some(IpAddress::v4(1, 2, 3, 4))
    );
    assert_eq!(extract_ip_from_multiaddr(""), None);
    assert_eq!(extract_ip_from_multiaddr("no-slashes-at-all"), None);
}
