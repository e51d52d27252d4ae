//! Partitioning of an alphabetically ordered, frequency-weighted key space
//! into contiguous ranges of roughly equal weight.
//!
//! `table` holds the frequency table and the search that locates a count in
//! it; `boundary` chooses a cut near a target count and derives its boundary
//! strings; `buckets` assembles the cuts into buckets.

pub mod table;
pub mod boundary;
pub mod buckets;
