//! A sharded, expiring, ordered key-value store with per-key broadcast.

pub mod byte_order;
pub mod sorted_map;
pub mod expiry;
pub mod outside;
pub mod state;
pub mod shard;
pub mod db;
pub mod laws;
