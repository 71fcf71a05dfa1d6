//! Indexer core for a shielded-transaction protocol: an append-only Merkle
//! commitment tree over note commitments, a map of per-note authentication
//! paths kept current as the tree grows, a per-block note-position index,
//! and the follower/commit logic that advances one block at a time with
//! rollback on failure and an atomic persistence step.

pub mod blocks;
pub mod codec;
pub mod error;
pub mod follower;
pub mod merkle;
pub mod notes;
pub mod processor;
pub mod service;
pub mod storage;
pub mod tree;
pub mod witness;
