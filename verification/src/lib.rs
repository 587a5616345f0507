//! Alignment-to-pileup engine with nanopore signal-move annotations.
//!
//! The library turns already-fetched alignment records into per-position
//! pileup columns: it decodes one record's CIGAR, qualities and move table
//! into a dense per-reference-offset event table, keeps the decoded reads in
//! a windowed cache with eviction, and scans the cache column by column to
//! emit pileup rows. All I/O (indexed alignment and reference readers, CLI)
//! lives outside; the library works on plain values.

pub mod bytes;
pub mod cache;
pub mod pileup;
pub mod read;
pub mod region;
