//! A single-node, file-backed tabular storage engine: fixed-size pages of
//! fixed-width records, a free-space ledger of reusable slots, and per-field
//! indexes for equality lookups. The library decides; the caller reads and
//! writes the table's files.
pub mod bytes;
pub mod dbtype;
pub mod engine;
pub mod error;
pub mod field;
pub mod filters;
pub mod free_space;
pub mod index;
pub mod ledger;
pub mod position;
pub mod table;
pub mod table_metadata;
mod text;
pub mod wire;
