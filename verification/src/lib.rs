//! Parallel compression of LAZ point records into chunked streams.

pub mod buffer;
pub mod chunk_table;
pub mod chunking;
pub mod codec;
pub mod compressor;
pub mod error;
pub mod failures;
pub mod format;
pub mod laws;
pub mod laz_compressor;
pub mod parallel;
pub mod records;
pub mod sink;
pub mod vlr;
