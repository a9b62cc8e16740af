//! Admission control and anti-Sybil / anti-eclipse defenses for a
//! peer-to-peer node.
//!
//! The crate gathers the stateful trackers and validators that decide, for
//! every connection attempt and for the configured bootstrap set, whether a
//! peer may join the mesh:
//!
//! - per-/24 and per-/16 subnet connection limits ([`subnet`]),
//! - a per-IP exponential-backoff rate limiter ([`rate_limit`]),
//! - a global sliding-window admission limiter ([`global_limit`]),
//! - a hard cap on simultaneous connections ([`conn_track`]),
//! - bootstrap peer diversity validation ([`bootstrap`]) and the policy
//!   configuration around it ([`config`]).
//!
//! All trackers are plain in-memory structures; the caller serializes access
//! and supplies the current time, in milliseconds, where an operation
//! depends on a clock.

pub mod ip;

pub mod kvlist;

pub mod error;

pub mod config;

pub mod subnet;

pub mod conn_track;

pub mod clock;

pub mod global_limit;

pub mod rate_limit;

pub mod parse;

pub mod bootstrap;
