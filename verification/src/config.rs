//! Policy thresholds and the network-configuration validation that the
//! node runs once at startup.

use vstd::prelude::*;

use crate::bootstrap::{bootstrap_subnets, peer_views, validate_bootstrap_peers};
use crate::error::SecurityError;

verus! {

/// Maximum peers allowed from the same /24 subnet (Sybil protection).
pub const MAX_PEERS_PER_SUBNET_24: usize = 5;

/// Maximum peers allowed from the same /16 subnet (stricter Sybil
/// protection).
pub const MAX_PEERS_PER_SUBNET_16: usize = 3;

/// Minimum required bootstrap peers for eclipse attack protection.
pub const MIN_BOOTSTRAP_PEERS: usize = 3;

/// Default maximum new connections per minute (global rate limit).
pub const DEFAULT_MAX_CONNECTIONS_PER_MINUTE: usize = 10;

/// Default idle connection timeout in seconds.
pub const DEFAULT_IDLE_TIMEOUT_SECS: u64 = 300;

/// Extended network security configuration. All durations are in
/// milliseconds.
#[derive(Clone, Copy, Debug)]
pub struct SecurityConfig {
    /// Maximum peers per /24 subnet.
    pub max_peers_per_subnet: usize,
    /// Idle connection timeout, in milliseconds.
    pub idle_timeout: u64,
    /// Enable bootstrap peer validation.
    pub validate_bootstrap_peers: bool,
    /// Rate limiting base delay, in milliseconds.
    pub rate_limit_base_delay: u64,
    /// Rate limiting max delay, in milliseconds.
    pub rate_limit_max_delay: u64,
}

impl Default for SecurityConfig {
    /// The compiled-in policy defaults: five peers per /24, five minutes
    /// of idle timeout, bootstrap validation on, one second of base
    /// backoff delay capped at five minutes.
    fn default() -> (r: Self)
        ensures
            r.max_peers_per_subnet == MAX_PEERS_PER_SUBNET_24,
            r.idle_timeout == DEFAULT_IDLE_TIMEOUT_SECS * 1000,
            r.validate_bootstrap_peers == true,
            r.rate_limit_base_delay == 1000u64,
            r.rate_limit_max_delay == 300000u64,
    {
        SecurityConfig {
            max_peers_per_subnet: MAX_PEERS_PER_SUBNET_24,
            idle_timeout: DEFAULT_IDLE_TIMEOUT_SECS * 1000,
            validate_bootstrap_peers: true,
            rate_limit_base_delay: 1000,
            rate_limit_max_delay: 300000,
        }
    }
}

/// The network configuration the surrounding node hands to the admission
/// layer at startup.
#[derive(Clone, Debug)]
pub struct NetworkConfig {
    /// Multiaddr strings the node listens on.
    pub listen_addresses: Vec<String>,
    /// Multiaddr strings of the configured bootstrap peers.
    pub bootstrap_peers: Vec<String>,
    /// Maximum simultaneous connections; must be positive.
    pub max_connections: u32,
}

/// Validate network configuration with security checks, once at startup.
///
/// A non-empty bootstrap list must pass [`validate_bootstrap_peers`]
/// (an empty list is explicitly permitted, for local single-node use),
/// and `max_connections` must be positive; the first failed check names
/// the error.
pub fn validate_network_config(config: &NetworkConfig) -> (r: Result<(), SecurityError>)
    ensures
        ({
            let bl = config.bootstrap_peers@.len();
            let views = peer_views(config.bootstrap_peers@);
            let diversity = bootstrap_subnets(views).len();
            match r {
                Ok(()) => (bl == 0 || (bl >= MIN_BOOTSTRAP_PEERS && diversity
                    >= MIN_BOOTSTRAP_PEERS)) && config.max_connections != 0,
                Err(e) => {
                    ||| (bl != 0 && bl < MIN_BOOTSTRAP_PEERS && e == (SecurityError::BootstrapCountTooLow {
                        required: MIN_BOOTSTRAP_PEERS,
                        actual: bl as usize,
                    }))
                    ||| (bl != 0 && bl >= MIN_BOOTSTRAP_PEERS && diversity < MIN_BOOTSTRAP_PEERS
                        && e == (SecurityError::BootstrapDiversityTooLow {
                        required: MIN_BOOTSTRAP_PEERS,
                        actual: diversity as usize,
                    }))
                    ||| ((bl == 0 || (bl >= MIN_BOOTSTRAP_PEERS && diversity
                        >= MIN_BOOTSTRAP_PEERS)) && config.max_connections == 0 && e
                        == SecurityError::InvalidConfiguration)
                },
            }
        }),
{
    if !config.bootstrap_peers.is_empty() {
        match validate_bootstrap_peers(config.bootstrap_peers.as_slice()) {
            Ok(()) => {},
            Err(e) => {
                return Err(e);
            },
        }
    }
    if config.max_connections == 0 {
        return Err(SecurityError::InvalidConfiguration);
    }
    Ok(())
}

} // verus!
