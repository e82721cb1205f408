//! Random access into plain-text FASTA files.
//!
//! The library builds a compact positional index (one row per sequence:
//! name, base count, byte offset of the first base, bases per line, bytes
//! per line) from a single forward scan, persists it as a tab-separated
//! sidecar table, and uses it to compute the exact byte position of any
//! 1-based base coordinate so that a subsequence can be reconstructed from
//! one seek and one bounded read, skipping line terminators at the indexed
//! cadence.
//!
//! All functions here work on plain values (byte vectors and integers);
//! opening, seeking and reading files is left to the caller.

pub mod errors;
pub mod index;
pub mod query;
pub mod region;
pub mod scan;
pub mod sidecar;
pub mod store;
pub mod utils;
pub mod wrap;
