//! Streaming length statistics for FASTA/FASTQ sequence records.
//!
//! The library scans chunked byte input for sequence records, collects the
//! length of each record that passes a minimum-length filter, and computes
//! percentile-style length thresholds (the Nx table) and an adaptive
//! histogram over the sorted lengths.

pub mod buffer;
pub mod pool;
pub mod scan;
pub mod stats;
