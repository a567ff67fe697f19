//! Reports files that share a filename, grouped and ranked by size.
//!
//! The crate holds the reporting core: partitioning discovered file records
//! by filename, ranking groups and members by size, summarising totals, and
//! filtering the ranked result.  Directory traversal, pattern matching and
//! printing are left to the surrounding program, which hands the core a
//! plain record list and renders what comes back.

pub mod grouping;
pub mod model;
pub mod report;
