//! Verified core of a package-cache reclamation tool.
//!
//! The library decides which locally cached package artifacts are safe to
//! reclaim: a generational-index LRU slot cache, segmented-LRU and LFU
//! eviction policies, a usage cache with size accounting, a crash-safe
//! quarantine ledger, and the planning logic that ties them together.
//! Filesystem work (scanning, moving directories, persisting indexes)
//! belongs outside the library; everything here operates on plain values
//! and carries verified contracts.

pub mod arc_lfu;
pub mod cache;
pub mod clock;
pub mod ml;
pub mod optimization;
pub mod safety;
pub mod types;
