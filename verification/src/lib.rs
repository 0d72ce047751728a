//! Byte-for-byte comparison of two files over chunked, parallel scans.
//!
//! The comparison walks the shared byte-offset space of two byte regions in
//! consecutive chunks, reporting each point of divergence as a diff record
//! that carries the 1-based line number in the first region and the 0-based
//! byte offset where the mismatch begins. A differing region is collapsed
//! into a single record: after a mismatch the scan skips ahead until a
//! newline appears in either region. Length mismatch between the two regions
//! is accounted once, as the absolute difference of the lengths, without
//! scanning the dangling tail.

pub mod comparator;
pub mod context;
pub mod laws;
pub mod model;
pub mod scanner;
