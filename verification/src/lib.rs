//! Parallel per-key summary statistics over newline-delimited `key;value`
//! records, where each value is a signed fixed-point decimal with one
//! fractional digit (held internally as an integer scaled by 10).
//!
//! The library contains the verified core of the pipeline: the aggregate
//! statistics, the hash-keyed accumulator, the byte-level record parser,
//! the newline-aligned partitioner, and the output formatter. Opening and
//! memory-mapping the input file, and running one scan per thread, are left
//! to the embedding program; the scan itself works on a plain byte slice.

pub mod agg;
pub mod hash_table;
pub mod parse;
pub mod pipeline;
pub mod render;
