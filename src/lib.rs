//! An embedded property-graph database: labelled nodes and typed directed
//! edges with key/value properties, an in-memory store with adjacency
//! indices, secondary key indices, a write-ahead log with committed-only
//! recovery, MVCC snapshots with a deadlock detector, and a small Cypher-like
//! query pipeline.

pub mod error;
pub mod graph;
pub mod memory;
pub mod mvcc;
pub mod deadlock;
pub mod wal;
pub mod text;
pub mod parser;
pub mod query;
pub mod config;
pub mod transaction;
pub mod index;
pub mod import;
pub mod disk;
pub mod snapshot;
