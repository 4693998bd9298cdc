//! Streaming corpus cleaning: a multi-hash bit-array membership filter,
//! paragraph-level deduplication driven by that filter, and a rolling-hash
//! detector of repeated byte windows inside one document.

pub mod bloom;
pub mod dedup;
pub mod dedup_laws;
pub mod endian;
pub mod error;
pub mod filter_laws;
mod fingerprints;
pub mod hash;
pub mod ratio;
pub mod repetitions;
pub mod snapshot;
pub mod stats;
pub mod text;
pub mod text_laws;
