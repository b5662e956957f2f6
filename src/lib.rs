//! Counting of the k-mers of DNA reads.
//!
//! A k-mer is packed into one 64-bit word (`kmer`, over the base-four model of
//! `packed`). Reads are told apart from the other lines of a FASTA or FASTQ
//! stream (`reads`), their canonical k-mers are extracted (`extract`), routed
//! to the peers that own them (`partition`), and aggregated into a histogram
//! of multiplicities (`histogram`, `count`).
pub mod packed;
pub mod kmer;
pub mod extract;
pub mod partition;
pub mod histogram;
pub mod reads;
pub mod count;
