//! Endpoint accelerator core: the managed block of the system hosts file,
//! candidate-address sourcing, probe-result selection, and the health
//! checker's switch policy, verified with Verus.
//!
//! The library is the part worth proving: parsing and rendering of the
//! hosts file's managed block together with the laws that rewrites preserve
//! everything outside the block, the validation that guards every mutation,
//! the candidate merge with its cap, the median-of-rounds and final
//! selection of the tester, the sliding-window and silent-window policy of
//! the health checker, and the privilege channel's protocol. The
//! surrounding process — file handles and locks, sockets and TLS, clocks,
//! persistence — hands plain values in and takes plain values back.

pub mod addr;
pub mod broker;
pub mod candidates;
pub mod config;
pub mod health;
pub mod history;
pub mod hosts;
pub mod hosts_laws;
pub mod probe;
pub mod rpc;
pub mod tester;
pub mod text;
pub mod workflow;

use vstd::prelude::*;

verus! {

/// Sentinel latency reported for a failed probe, in milliseconds.
pub const FAILURE_LATENCY_MS: u64 = 9999;

} // verus!
