//! A lossless byte-stream compressor built on static Huffman coding.
//!
//! The library counts how often each byte value occurs in an input buffer,
//! builds a prefix-free binary code tree by repeatedly merging the two
//! lowest-frequency candidates, packs the input into a bitstream using that
//! code, and serializes the frequency table as a fixed 1024-byte header from
//! which an equivalent tree can be rebuilt for decoding.

pub mod algorithm;
pub mod bits;
pub mod codec;
pub mod tree;
