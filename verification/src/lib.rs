//! Gazetteer lookup library: normalizes raw address records (expanding
//! compact house-number ranges, deduplicating, partitioning into bounded
//! chunks) and serves postal-code, street and coordinate queries over an
//! in-memory index built from the normalized records.
//!
//! All I/O (reading CSV files, HTTP transport) lives outside this crate;
//! the functions here work on plain lines and records and carry contracts
//! for everything they compute.

pub mod expand;
pub mod index;
pub mod ingest;
pub mod query;
pub mod record;
pub mod strutil;
