//! The Huffman stage: weight tables, the code tree built from them, and the coded bit
//! stream with its self-describing header.

pub mod implementation;
pub mod predef_codes;
pub mod round_trip;
pub mod trees;
pub mod utils;
pub mod weights;

pub use implementation::HuffmanCodes;
pub use implementation::HuffmanCompressor;
pub use trees::HuffmanTreeCreator;
