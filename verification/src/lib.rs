//! Verified core of an exon read-counting tool.
//!
//! Given a set of annotated exon regions and a stream of aligned reads
//! (position, mapping quality, flag bitmask and CIGAR operations), the
//! library normalizes the regions, classifies each read against a filter
//! policy, decides CIGAR-aware overlap with the regions, and aggregates
//! accepted/rejected tallies per category. All I/O (alignment files,
//! annotation files, the command line) lives outside this crate; the
//! library works on plain values and every function is verified.

pub mod cigar;
pub mod errors;
pub mod filter;
pub mod regions;
pub mod scan;
