//! Hard cap on simultaneous connections.

use mesh_admission::conn_track::ConnectionTracker;
use mesh_admission::ip::IpAddress;

#[test]
fn test_connection_tracker_enforces_max_total() {
    let mut tracker = ConnectionTracker::new(5);

    for i in 1..=5u8 {
        let ip = IpAddress::v4(i, 0, 0, 1);
        assert!(
            tracker.add_connection(&ip).is_ok(),
            "Connection {} should be allowed",
            i
        );
    }

    let ip_6 = IpAddress::v4(6, 0, 0, 1);
    let result = tracker.add_connection(&ip_6);
    assert!(
        result.is_err(),
        "6th connection should be rejected (max total)"
    );

    let err = result.unwrap_err();
    let msg = err.message();
    assert!(
        msg.contains("maximum") || msg.contains("limit"),
        "Error should mention max connections: {}",
        msg
    );
}

#[test]
fn test_connection_tracker_remove_allows_new() {
    let mut tracker = ConnectionTracker::new(3);

    for i in 1..=3u8 {
        let ip = IpAddress::v4(i, 0, 0, 1);
        tracker.add_connection(&ip).unwrap();
    }

    assert_eq!(tracker.current_count(), 3);

    let removed_ip = IpAddress::v4(2, 0, 0, 1);
    tracker.remove_connection(&removed_ip);

    assert_eq!(tracker.current_count(), 2);

    let new_ip = IpAddress::v4(4, 0, 0, 1);
    assert!(
        tracker.add_connection(&new_ip).is_ok(),
        "Should allow new connection after removal"
    );
}

#[test]
fn test_connection_tracker_tracks_peer_ips() {
    let mut tracker = ConnectionTracker::new(10);

    let ip = IpAddress::v4(1, 2, 3, 4);
    tracker.add_connection(&ip).unwrap();

    assert!(tracker.has_connection(&ip), "Should track connected peer IP");

    let other_ip = IpAddress::v4(5, 6, 7, 8);
    assert!(
        !tracker.has_connection(&other_ip),
        "Should not have unconnected IP"
    );
}

#[test]
fn test_connection_tracker_prevents_duplicate_tracking() {
    let mut tracker = ConnectionTracker::new(10);

    let ip = IpAddress::v4(1, 2, 3, 4);
    tracker.add_connection(&ip).unwrap();

    // Adding the same IP again is an idempotent success.
    let result = tracker.add_connection(&ip);
    assert!(result.is_ok());

    assert_eq!(tracker.current_count(), 1, "Should not double-count same IP");
}

#[test]
fn test_connection_tracker_remove_untracked_is_noop() {
    let mut tracker = ConnectionTracker::new(2);
    let ip = IpAddress::v4(1, 2, 3, 4);
    tracker.add_connection(&ip).unwrap();
    tracker.remove_connection(&IpAddress::v4(9, 9, 9, 9));
    assert_eq!(tracker.current_count(), 1);
    assert!(tracker.has_connection(&ip));
}

#[test]
fn test_connection_tracker_capacity_and_acceptance() {
    let mut tracker = ConnectionTracker::new(2);
    assert!(tracker.can_accept_connection());
    assert_eq!(tracker.remaining_capacity(), 2);
    tracker.add_connection(&IpAddress::v4(1, 0, 0, 1)).unwrap();
    tracker.add_connection(&IpAddress::v4(2, 0, 0, 1)).unwrap();
    assert!(!tracker.can_accept_connection());
    assert_eq!(tracker.remaining_capacity(), 0);
    assert_eq!(
        tracker
            .add_connection(&IpAddress::v4(3, 0, 0, 1))
            .unwrap_err()
            .message(),
        "Connection limit exceeded: maximum 2 connections allowed"
    );
}
