//! Resource-aware consistent hashing for shard placement, plus a small
//! Merkle-tree utility over content digests.
//!
//! The core assigns logical entities to a dynamic set of physical nodes:
//! placement is deterministic in the entity identifier and the ring state,
//! adding or removing a node disturbs few placements, and nodes whose
//! available resources are too low are excluded from new work.

pub mod consistent_hashing;
pub mod hash;
pub mod laws;
pub mod merkle;
pub mod node_index;
pub mod ring_order;
