//! Local event store and relay-synchronization core for a desktop client of a
//! decentralized social-networking protocol: a namespaced key-value store with
//! atomic batched writes, derived indexes (authors, chronological feed,
//! contacts, profiles), an event-classification pipeline with idempotent
//! ingestion, and subscription-filter maintenance.

pub mod error;
pub mod keys;
pub mod codec;
pub mod model;
pub mod records;
pub mod kv;
pub mod metadata;
pub mod db;
pub mod filters;
pub mod sync;
pub mod laws;
pub mod context;
pub mod screen;
pub mod component;
