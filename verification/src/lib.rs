//! Frequency histograms of sequence-read lengths, aggregated in parallel.
//!
//! The library counts how often each read length occurs in a set of
//! sequence records.  The counting core splits the lengths into per-worker
//! chunks, counts each chunk, and merges the partial histograms; the merged
//! result is proved equal to what a single sequential pass produces.

pub mod aggregate;
pub mod histogram;
pub mod record;
pub mod series;
