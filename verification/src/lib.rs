//! Chunked compression: workers turn the bytes they read into independently
//! finalized DEFLATE blocks, a collector gathers the blocks, and a writer lays
//! them out in ascending order of length.

pub mod cli;
pub mod codec;
pub mod compressor;
pub mod error;
pub mod laws;
pub mod message;
pub mod worker;
pub mod writer;
