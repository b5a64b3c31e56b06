//! quickset: an in-memory, searchable, multi-table columnar store with a
//! pull-replication sync layer.
//!
//! The engine — typed tables with stable row ids, the five search
//! predicates, the database of named tables, and the sync coordinator — is
//! verified; an embedding program supplies the transport: sockets, JSON,
//! clocks and threads.

pub mod auth;
pub mod config;
pub mod database;
pub mod ops;
pub mod query;
pub mod search;
pub mod sort;
pub mod sync;
pub mod table;
pub mod text;
pub mod value;
