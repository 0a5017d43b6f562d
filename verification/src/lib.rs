//! Duplicate-file detection by tiered content hashing.
//!
//! The library narrows a population of files down to groups with identical
//! content: files are bucketed by exact byte length, each bucket is split by
//! a digest of the leading bytes, and only the files that still collide are
//! digested in full. All functions work on plain values; reading the file
//! system is left to the caller.
//!
//! - [`scanner`]: candidate files and the size partitioner;
//! - [`merge`]: merging the buckets of several workers;
//! - [`hasher`]: content digests, the two hashing stages and the merge
//!   into duplicate groups;
//! - [`pipeline`]: the stages put together, and what holds of the result;
//! - [`statistics`], [`output`]: the figures and the shape of a report;
//! - [`utils`], [`args`]: path validation, cancellation, progress and the
//!   settings of a run;
//! - [`distinct`], [`inclusion`]: facts about sequences that the proofs
//!   rest on.

pub mod args;
pub mod distinct;
pub mod hasher;
pub mod inclusion;
pub mod merge;
pub mod output;
pub mod pipeline;
pub mod scanner;
pub mod statistics;
pub mod utils;
