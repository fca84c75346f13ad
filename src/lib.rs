//! Typed record transformation and batched persistence for report ingestion.
//!
//! Raw delimited-text fields are normalized into typed column values, column
//! batches are checked against a declared schema, records are flattened into
//! string attribute maps, and those maps are grouped into capacity-bounded
//! write batches per destination table.

pub mod text;
pub mod number;
pub mod decimal;
pub mod error;
pub mod normalize;
pub mod columns;
pub mod persist;
pub mod names;
pub mod encode;
pub mod accounts;
