//! Hierarchical path locking: the verified core.

pub mod cluster;
pub mod config;
pub mod daemon;
pub mod db;
pub mod engine;
pub mod events;
pub mod order;
pub mod proto;
pub mod raft;
pub mod service;
pub mod status;
pub mod store_keys;
pub mod store_laws;
pub mod store_rocksdb;
pub mod text;
