//! Subnet tracker behaviour: per-/24 and per-/16 connection caps.

use mesh_admission::ip::IpAddress;
use mesh_admission::subnet::{Subnet16Tracker, SubnetTracker};

#[test]
fn test_rejects_too_many_peers_from_same_subnet() {
    // After 5 peers from 192.168.1.0/24, reject new connections.
    let mut tracker = SubnetTracker::new();

    for i in 1..=5u8 {
        let ip = IpAddress::v4(192, 168, 1, i);
        assert!(
            tracker.add_connection(&ip).is_ok(),
            "Connection {} should be allowed",
            i
        );
    }

    let ip_6 = IpAddress::v4(192, 168, 1, 6);
    let result = tracker.add_connection(&ip_6);
    assert!(
        result.is_err(),
        "6th connection from same /24 subnet should be rejected"
    );

    let err = result.unwrap_err();
    assert!(
        err.message().contains("Subnet limit exceeded"),
        "Error should mention subnet limit"
    );
}

#[test]
fn test_allows_connections_from_different_subnets() {
    let mut tracker = SubnetTracker::new();

    for subnet in 1..=10u8 {
        for host in 1..=5u8 {
            let ip = IpAddress::v4(192, 168, subnet, host);
            assert!(
                tracker.add_connection(&ip).is_ok(),
                "Connection from 192.168.{}.{} should be allowed",
                subnet,
                host
            );
        }
    }

    assert_eq!(tracker.total_connections(), 50);
}

#[test]
fn test_can_accept_connection_returns_false_at_limit() {
    let mut tracker = SubnetTracker::new();

    for i in 1..=5u8 {
        let peer_ip = IpAddress::v4(10, 0, 0, i);
        tracker.add_connection(&peer_ip).unwrap();
    }

    let new_ip = IpAddress::v4(10, 0, 0, 100);
    assert!(
        !tracker.can_accept_connection(&new_ip),
        "Should not accept connection when subnet is at limit"
    );

    let different_subnet = IpAddress::v4(10, 0, 1, 1);
    assert!(
        tracker.can_accept_connection(&different_subnet),
        "Should accept connection from different subnet"
    );
}

#[test]
fn test_remove_connection_frees_slot() {
    let mut tracker = SubnetTracker::new();

    for i in 1..=5u8 {
        let ip = IpAddress::v4(172, 16, 0, i);
        tracker.add_connection(&ip).unwrap();
    }

    let removed_ip = IpAddress::v4(172, 16, 0, 3);
    tracker.remove_connection(&removed_ip);

    let new_ip = IpAddress::v4(172, 16, 0, 100);
    assert!(
        tracker.add_connection(&new_ip).is_ok(),
        "Should allow connection after removing one"
    );
}

#[test]
fn test_extract_subnet_24_correct() {
    let ip = IpAddress::v4(192, 168, 100, 50);
    let subnet = SubnetTracker::extract_subnet_24(&ip);
    assert_eq!(subnet, Some(192 * 65536 + 168 * 256 + 100));
}

#[test]
fn test_extract_subnet_16_correct() {
    let ip = IpAddress::v4(10, 20, 30, 40);
    let subnet = SubnetTracker::extract_subnet_16(&ip);
    assert_eq!(subnet, Some(10 * 256 + 20));
}

#[test]
fn test_extract_subnet_of_ipv6_is_none() {
    let ip = IpAddress::v6(0x2001, 0xdb8, 0, 0, 0, 0, 0, 1);
    assert_eq!(SubnetTracker::extract_subnet_24(&ip), None);
    assert_eq!(SubnetTracker::extract_subnet_16(&ip), None);
}

#[test]
fn test_ipv6_exempt_from_subnet_limits() {
    // Any number of IPv6 peers sharing a prefix pass both trackers.
    let mut t24 = SubnetTracker::with_limit(1);
    let mut t16 = Subnet16Tracker::with_limit(1);
    for i in 0..10u16 {
        let ip = IpAddress::v6(0x2001, 0xdb8, 0, 0, 0, 0, 0, i);
        assert!(t24.can_accept_connection(&ip));
        assert!(t16.can_accept_connection(&ip));
        assert!(t24.add_connection(&ip).is_ok());
        assert!(t16.add_connection(&ip).is_ok());
    }
    assert_eq!(t24.total_connections(), 0);
    assert_eq!(t16.total_connections(), 0);
}

#[test]
fn test_subnet_error_message_exact() {
    let mut tracker = SubnetTracker::with_limit(1);
    tracker.add_connection(&IpAddress::v4(192, 168, 1, 1)).unwrap();
    let err = tracker
        .add_connection(&IpAddress::v4(192, 168, 1, 2))
        .unwrap_err();
    assert_eq!(
        err.message(),
        "Subnet limit exceeded: max 1 connections from /24 subnet 192.168.1.x"
    );
}

#[test]
fn test_subnet16_rejects_too_many_peers_from_same_subnet() {
    // After 3 peers from same /16 subnet, reject new connections.
    let mut tracker = Subnet16Tracker::new();

    for i in 1..=3u8 {
        let ip = IpAddress::v4(192, 168, i, i);
        assert!(
            tracker.add_connection(&ip).is_ok(),
            "Connection {} should be allowed from /16 subnet",
            i
        );
    }

    let ip_4 = IpAddress::v4(192, 168, 4, 4);
    let result = tracker.add_connection(&ip_4);
    assert!(
        result.is_err(),
        "4th connection from same /16 subnet should be rejected"
    );

    let err = result.unwrap_err();
    let msg = err.message();
    assert!(
        msg.contains("/16") && msg.contains("limit"),
        "Error should mention /16 subnet limit: {}",
        msg
    );
}

#[test]
fn test_subnet16_allows_connections_from_different_subnets() {
    let mut tracker = Subnet16Tracker::new();

    for subnet in 1..=10u8 {
        for host in 1..=3u8 {
            let ip = IpAddress::v4(subnet, host, 1, 1);
            assert!(
                tracker.add_connection(&ip).is_ok(),
                "Connection from {}.{}.1.1 should be allowed",
                subnet,
                host
            );
        }
    }

    assert_eq!(tracker.total_connections(), 30);
}

#[test]
fn test_subnet16_can_accept_returns_false_at_limit() {
    let mut tracker = Subnet16Tracker::new();

    for i in 1..=3u8 {
        let peer_ip = IpAddress::v4(10, 20, i, 1);
        tracker.add_connection(&peer_ip).unwrap();
    }

    let new_ip = IpAddress::v4(10, 20, 100, 1);
    assert!(
        !tracker.can_accept_connection(&new_ip),
        "Should not accept connection when /16 subnet is at limit"
    );

    let different_subnet = IpAddress::v4(10, 21, 1, 1);
    assert!(
        tracker.can_accept_connection(&different_subnet),
        "Should accept connection from different /16 subnet"
    );
}

#[test]
fn test_subnet16_remove_connection_frees_slot() {
    let mut tracker = Subnet16Tracker::new();

    for i in 1..=3u8 {
        let ip = IpAddress::v4(172, 16, i, 1);
        tracker.add_connection(&ip).unwrap();
    }

    let removed_ip = IpAddress::v4(172, 16, 2, 1);
    tracker.remove_connection(&removed_ip);

    let new_ip = IpAddress::v4(172, 16, 100, 1);
    assert!(
        tracker.add_connection(&new_ip).is_ok(),
        "Should allow connection after removing one from /16 subnet"
    );
}

#[test]
fn test_subnet16_with_custom_limit() {
    let mut tracker = Subnet16Tracker::with_limit(5);

    for i in 1..=5u8 {
        let ip = IpAddress::v4(10, 0, i, 1);
        assert!(tracker.add_connection(&ip).is_ok());
    }

    let ip_6 = IpAddress::v4(10, 0, 100, 1);
    assert!(tracker.add_connection(&ip_6).is_err());
}

#[test]
fn test_max_connections_with_subnet_tracker() {
    // Use the subnet tracker to count a global total across subnets.
    let max_total: usize = 10;
    let mut tracker = SubnetTracker::new();

    for i in 0..max_total {
        let ip = IpAddress::v4((i + 1) as u8, 0, 0, 1);
        tracker.add_connection(&ip).unwrap();
    }

    assert_eq!(tracker.total_connections(), max_total);
}

#[test]
fn test_connection_count_tracks_per_subnet() {
    let mut tracker = SubnetTracker::new();
    let a = IpAddress::v4(10, 0, 0, 1);
    let b = IpAddress::v4(10, 0, 0, 2);
    let other = IpAddress::v4(10, 0, 1, 1);
    assert_eq!(tracker.connection_count(&a), 0);
    tracker.add_connection(&a).unwrap();
    tracker.add_connection(&b).unwrap();
    tracker.add_connection(&other).unwrap();
    assert_eq!(tracker.connection_count(&a), 2);
    assert_eq!(tracker.connection_count(&other), 1);
    tracker.remove_connection(&b);
    assert_eq!(tracker.connection_count(&a), 1);
    // Removing below zero saturates.
    tracker.remove_connection(&a);
    tracker.remove_connection(&a);
    tracker.remove_connection(&a);
    assert_eq!(tracker.connection_count(&a), 0);
}
