//! The LZ77 stage: a rolling-hash index, the sliding window that finds
//! back-references, and the in-band byte encoding of the reference stream.

pub mod hashes;
pub mod implementation;
pub mod round_trip;

pub use implementation::LZ77Compressor;
