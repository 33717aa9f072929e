//! Cell-based storage of materialized-view rows over an ordered key-value store.
//!
//! A row is split into one key-value cell per column. The key of a cell is the
//! table's keyspace prefix, then an order-preserving encoding of the row's
//! primary key, then the column index as four big-endian bytes.

pub mod types;
pub mod codec;
pub mod order;
pub mod keys;
pub mod store;
pub mod table;
pub mod state;
pub mod laws;
