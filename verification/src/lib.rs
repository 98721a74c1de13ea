//! Verified core of a distributed serving fabric for model-inference workers.
//!
//! Three cooperating services share this library: a registry (a central
//! directory of services with heartbeat, health-check and eviction rules),
//! a babysitter (a per-worker supervisor), and a router (a reverse proxy
//! with model-, session- and size-aware load balancing). The library holds
//! the state machines, parsers and selection rules of the three engines;
//! the network and process plumbing around them lives outside.

pub mod aggregate;
pub mod babysitter;
pub mod balancer;
pub mod bindings;
pub mod config;
pub mod instance;
pub mod json;
pub mod metadata;
pub mod proxy;
pub mod registry;
pub mod strutil;

use vstd::prelude::*;

verus! {

/// A record is healthy only while its heartbeat is younger than this (seconds).
pub const STALE_THRESHOLD_SECS: u64 = 120;

/// The registry reaper evicts records whose heartbeat is older than this (seconds).
pub const EVICTION_THRESHOLD_SECS: u64 = 300;

/// Requests whose summed text size exceeds this default go to "static" cache instances.
pub const DEFAULT_CACHE_TYPE_ROUTING_THRESHOLD: usize = 51200;

/// A proxied request is attempted at most this many times.
pub const MAX_PROXY_RETRIES: u32 = 3;

} // verus!
