//! Per-IP exponential backoff and the global sliding-window limiter.
//! Time is explicit: each call names its instant in milliseconds.

use mesh_admission::global_limit::GlobalConnectionRateLimiter;
use mesh_admission::ip::IpAddress;
use mesh_admission::rate_limit::ConnectionRateLimiter;

#[test]
fn test_connection_rate_limiting_allows_first_attempt() {
    let limiter = ConnectionRateLimiter::new();
    let ip = IpAddress::v4(192, 168, 1, 1);

    assert!(
        limiter.can_attempt(&ip, 0),
        "First connection attempt should be allowed"
    );
}

#[test]
fn test_connection_rate_limiting_exponential_backoff() {
    let mut limiter = ConnectionRateLimiter::with_config(100, 10_000, 10);
    let ip = IpAddress::v4(192, 168, 1, 1);

    // First attempt is immediate.
    assert!(limiter.can_attempt(&ip, 0));

    // One failure: must wait the base delay (100 ms).
    limiter.record_failure(ip, 0);
    assert!(
        !limiter.can_attempt(&ip, 0),
        "Should not allow immediate retry after failure"
    );
    assert!(
        !limiter.can_attempt(&ip, 99),
        "Should still be blocked inside the base delay"
    );
    assert!(
        limiter.can_attempt(&ip, 150),
        "Should allow retry after waiting base delay"
    );

    // Second failure at 150 ms: the wait doubles to 200 ms.
    limiter.record_failure(ip, 150);
    assert!(!limiter.can_attempt(&ip, 150));
    assert!(
        !limiter.can_attempt(&ip, 250),
        "Should still be blocked during exponential backoff"
    );
    assert!(
        limiter.can_attempt(&ip, 400),
        "Should allow retry after exponential delay"
    );
}

#[test]
fn test_backoff_delay_never_exceeds_max() {
    let mut limiter = ConnectionRateLimiter::with_config(100, 300, 100);
    let ip = IpAddress::v4(1, 1, 1, 1);
    // Many failures: the uncapped delay would be enormous, but the
    // required wait stays at max_delay (300 ms).
    for _ in 0..40 {
        limiter.record_failure(ip, 0);
    }
    assert_eq!(limiter.time_until_allowed(&ip, 0), 300);
    assert!(!limiter.can_attempt(&ip, 299));
    assert!(limiter.can_attempt(&ip, 300));
}

#[test]
fn test_connection_rate_limiting_success_resets() {
    let mut limiter = ConnectionRateLimiter::new();
    let ip = IpAddress::v4(192, 168, 1, 1);

    limiter.record_failure(ip, 0);
    limiter.record_failure(ip, 0);
    assert_eq!(limiter.failure_count(&ip), 2);

    limiter.record_success(&ip);
    assert_eq!(limiter.failure_count(&ip), 0);
    assert!(limiter.can_attempt(&ip, 0));
}

#[test]
fn test_connection_rate_limiting_max_failures_blocks() {
    let mut limiter = ConnectionRateLimiter::with_config(1, 10, 3);
    let ip = IpAddress::v4(192, 168, 1, 1);

    for _ in 0..3 {
        limiter.record_failure(ip, 0);
    }

    assert!(
        !limiter.can_attempt(&ip, 0),
        "Should be blocked after max failures"
    );
    assert!(
        !limiter.can_attempt(&ip, 50),
        "Should remain blocked after waiting"
    );
    assert!(
        !limiter.can_attempt(&ip, u64::MAX),
        "Should remain blocked forever"
    );
    assert_eq!(
        limiter.time_until_allowed(&ip, 1_000_000),
        u64::MAX,
        "A session-blocked IP reports the never sentinel"
    );
}

#[test]
fn test_time_until_allowed_counts_down() {
    let mut limiter = ConnectionRateLimiter::with_config(100, 10_000, 10);
    let ip = IpAddress::v4(8, 8, 8, 8);
    assert_eq!(limiter.time_until_allowed(&ip, 0), 0);
    limiter.record_failure(ip, 0);
    assert_eq!(limiter.time_until_allowed(&ip, 0), 100);
    assert_eq!(limiter.time_until_allowed(&ip, 40), 60);
    assert_eq!(limiter.time_until_allowed(&ip, 100), 0);
}

#[test]
fn test_record_attempt_keeps_failure_count() {
    let mut limiter = ConnectionRateLimiter::with_config(100, 10_000, 10);
    let ip = IpAddress::v4(9, 9, 9, 9);
    limiter.record_failure(ip, 0);
    limiter.record_attempt(ip, 500);
    assert_eq!(limiter.failure_count(&ip), 1);
    // The attempt restamped the clock, so the backoff counts from 500.
    assert!(!limiter.can_attempt(&ip, 550));
    assert!(limiter.can_attempt(&ip, 600));
}

#[test]
fn test_cleanup_drops_stale_entries_but_keeps_blocks() {
    let mut limiter = ConnectionRateLimiter::with_config(100, 10_000, 3);
    let stale = IpAddress::v4(1, 0, 0, 1);
    let fresh = IpAddress::v4(2, 0, 0, 1);
    let banned = IpAddress::v4(3, 0, 0, 1);

    limiter.record_failure(stale, 0);
    limiter.record_failure(fresh, 9_000);
    for _ in 0..3 {
        limiter.record_failure(banned, 0);
    }

    limiter.cleanup(10_000, 5_000);

    assert_eq!(limiter.failure_count(&stale), 0, "stale entry swept");
    assert_eq!(limiter.failure_count(&fresh), 1, "fresh entry kept");
    assert_eq!(limiter.failure_count(&banned), 3, "session block kept");
    assert!(!limiter.can_attempt(&banned, u64::MAX));
}

#[test]
fn test_global_rate_limiter_allows_initial_connections() {
    let limiter = GlobalConnectionRateLimiter::new(10);

    assert!(
        limiter.can_accept_new_connection(0),
        "Should allow first connection"
    );
}

#[test]
fn test_global_rate_limiter_enforces_per_minute_limit() {
    let mut limiter = GlobalConnectionRateLimiter::new(3);

    for i in 1..=3 {
        assert!(
            limiter.record_new_connection(0),
            "Connection {} should be allowed",
            i
        );
    }

    assert!(
        !limiter.record_new_connection(0),
        "4th connection should be rejected (per-minute limit)"
    );
}

#[test]
fn test_global_rate_limiter_resets_after_window() {
    let mut limiter = GlobalConnectionRateLimiter::with_window(3, 100);

    for _ in 0..3 {
        assert!(limiter.record_new_connection(0));
    }
    assert!(!limiter.record_new_connection(0));

    // Past the window, the old admissions have aged out.
    assert!(
        limiter.record_new_connection(150),
        "Should allow connection after window reset"
    );
}

#[test]
fn test_global_rate_limiter_sliding_window() {
    // The limiter slides continuously; it has no fixed bucket edges.
    let mut limiter = GlobalConnectionRateLimiter::with_window(3, 100);

    assert!(limiter.record_new_connection(0));
    assert!(limiter.record_new_connection(0));

    assert!(limiter.record_new_connection(60));

    assert!(!limiter.record_new_connection(60));

    // At 120 ms the two admissions from t=0 have expired; the one from
    // t=60 still counts.
    assert!(limiter.record_new_connection(120));
    assert!(limiter.record_new_connection(120));
    assert!(!limiter.record_new_connection(120));
}

#[test]
fn test_global_rate_limiter_counts_and_capacity() {
    let mut limiter = GlobalConnectionRateLimiter::with_window(3, 100);
    assert_eq!(limiter.current_count(0), 0);
    assert_eq!(limiter.remaining_capacity(0), 3);
    assert!(limiter.record_new_connection(0));
    assert!(limiter.record_new_connection(10));
    assert_eq!(limiter.current_count(10), 2);
    assert_eq!(limiter.remaining_capacity(10), 1);
    // One admission ages out at 105; the other at 110.
    assert_eq!(limiter.current_count(105), 1);
    assert_eq!(limiter.remaining_capacity(110), 3);
}
