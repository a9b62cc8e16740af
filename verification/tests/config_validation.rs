//! Security configuration defaults and startup validation.

use mesh_admission::config::{
    validate_network_config, NetworkConfig, SecurityConfig, DEFAULT_IDLE_TIMEOUT_SECS,
};
use mesh_admission::error::SecurityError;

#[test]
fn test_enforces_max_connections() {
    let config = NetworkConfig {
        listen_addresses: vec!["/ip4/0.0.0.0/tcp/9000".to_string()],
        bootstrap_peers: vec![],
        max_connections: 10,
    };

    let invalid_config = NetworkConfig {
        listen_addresses: vec!["/ip4/0.0.0.0/tcp/9000".to_string()],
        bootstrap_peers: vec![],
        max_connections: 0,
    };

    let result = validate_network_config(&invalid_config);
    assert!(result.is_err(), "max_connections of 0 should be rejected");

    let result = validate_network_config(&config);
    assert!(
        result.is_ok(),
        "Valid max_connections should pass: {:?}",
        result
    );
}

#[test]
fn test_idle_connection_timeout_config() {
    let config = SecurityConfig::default();
    assert_eq!(
        config.idle_timeout,
        DEFAULT_IDLE_TIMEOUT_SECS * 1000,
        "Default idle timeout should be {} seconds",
        DEFAULT_IDLE_TIMEOUT_SECS
    );
}

#[test]
fn test_custom_idle_timeout() {
    let config = SecurityConfig { idle_timeout: 60 * 1000, ..Default::default() };
    assert_eq!(config.idle_timeout, 60 * 1000);
}

#[test]
fn test_validate_network_config_empty_bootstrap_ok() {
    // Empty bootstrap peers are OK for local development.
    let config = NetworkConfig {
        listen_addresses: vec!["/ip4/0.0.0.0/tcp/9000".to_string()],
        bootstrap_peers: vec![],
        max_connections: 50,
    };

    let result = validate_network_config(&config);
    assert!(
        result.is_ok(),
        "Empty bootstrap peers should be OK: {:?}",
        result
    );
}

#[test]
fn test_validate_network_config_with_diverse_bootstrap() {
    let config = NetworkConfig {
        listen_addresses: vec!["/ip4/0.0.0.0/tcp/9000".to_string()],
        bootstrap_peers: vec![
            "/ip4/192.168.1.1/tcp/9000/p2p/12D3KooWTest1".to_string(),
            "/ip4/10.0.1.1/tcp/9000/p2p/12D3KooWTest2".to_string(),
            "/ip4/172.16.1.1/tcp/9000/p2p/12D3KooWTest3".to_string(),
        ],
        max_connections: 50,
    };

    let result = validate_network_config(&config);
    assert!(
        result.is_ok(),
        "Diverse bootstrap peers should pass: {:?}",
        result
    );
}

#[test]
fn test_validate_network_config_rejects_non_diverse_bootstrap() {
    let config = NetworkConfig {
        listen_addresses: vec!["/ip4/0.0.0.0/tcp/9000".to_string()],
        bootstrap_peers: vec![
            "/ip4/192.168.1.1/tcp/9000/p2p/12D3KooWTest1".to_string(),
            "/ip4/192.168.2.1/tcp/9000/p2p/12D3KooWTest2".to_string(),
            "/ip4/192.168.3.1/tcp/9000/p2p/12D3KooWTest3".to_string(),
        ],
        max_connections: 50,
    };

    let result = validate_network_config(&config);
    assert!(result.is_err(), "Non-diverse bootstrap peers should fail");
}

#[test]
fn test_validate_network_config_zero_max_error_variant() {
    let config = NetworkConfig {
        listen_addresses: vec![],
        bootstrap_peers: vec![],
        max_connections: 0,
    };
    let err = validate_network_config(&config).unwrap_err();
    assert_eq!(err, SecurityError::InvalidConfiguration);
    assert_eq!(err.message(), "max_connections must be greater than 0");
}

#[test]
fn test_validate_network_config_bootstrap_checked_before_max() {
    // A bad bootstrap list is reported even when max_connections is also
    // bad: validation runs in the order the node starts up.
    let config = NetworkConfig {
        listen_addresses: vec![],
        bootstrap_peers: vec!["/ip4/1.2.3.4/tcp/9000".to_string()],
        max_connections: 0,
    };
    let err = validate_network_config(&config).unwrap_err();
    assert_eq!(
        err,
        SecurityError::BootstrapCountTooLow { required: 3, actual: 1 }
    );
}

#[test]
fn test_security_config_defaults() {
    let config = SecurityConfig::default();
    assert_eq!(config.max_peers_per_subnet, 5);
    assert!(config.validate_bootstrap_peers);
    assert_eq!(config.rate_limit_base_delay, 1000);
    assert_eq!(config.rate_limit_max_delay, 300_000);
}
