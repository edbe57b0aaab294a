//! Rank-driven resolution of overlapping genomic variant records.
//!
//! The engine partitions a sorted record stream into maximal runs of
//! range-overlapping records, decides for each pair of overlapping records
//! whether they can coexist in any sample (a genotype-phase test), and keeps
//! exactly one representative per conflict group, chosen by an externally
//! supplied priority order.

pub mod bits;
pub mod cluster;
pub mod conflict;
pub mod engine;
pub mod genotype;
pub mod nums;
pub mod paths;
pub mod range;
pub mod rank;
pub mod record;
