//! Lifecycle of source documents: content hashing, versions and staleness,
//! deterministic chunking, and exact-content deduplication.
pub mod state;
pub mod dedup;
pub mod split;
pub mod chunk;
