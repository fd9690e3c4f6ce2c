//! Decision logic of a caching reverse proxy for unary gRPC traffic.
//!
//! The crate holds the rules by which the proxy classifies a request, derives
//! its cache key, routes the key to a cache shard, frames a stored entry,
//! reflects service resources into the routing table and tracks readiness.
//! Performing I/O is left to the caller: every function here takes plain
//! values and returns plain values.

pub mod text;
pub mod qualified_service;
pub mod field_ref;
pub mod headers;
pub mod status;
pub mod hash;
pub mod service;
pub mod discovery;
pub mod ring;
pub mod cache;
pub mod proxy;
pub mod descriptor_set;
pub mod health;
pub mod crd;
pub mod config;
pub mod service_store;
pub mod registry;
pub mod resource_change;
