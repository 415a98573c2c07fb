//! A decentralized, eventually-consistent graph database core.
//!
//! Nodes carry named, timestamped fields; replicas converge by merging
//! fields with a timestamp-plus-lexical-tie-break rule. This crate holds
//! the conflict-resolution engine, the node data model, the stable binary
//! node encoding, the wire-interchange representation, and the in-memory
//! cache that the asynchronous shell drives.

use vstd::prelude::*;

pub mod codec;
pub mod crdt;
pub mod engine;
pub mod graph;
pub mod repr;
pub mod store;
pub mod ulid;

verus! {

/// Milliseconds an incoming update may lie in the future before it is
/// treated as clock skew or forgery and discarded.
pub const FUTURE_UPDATE_THRESHOLD_MS: u64 = 600_000;

} // verus!
