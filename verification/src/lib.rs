//! A verified parser for the marker-segment structure of a lossless-mode
//! JPEG bitstream: it walks a big-endian byte buffer, recognizes two-byte
//! marker codes, and reconstructs the frame header, the Huffman table
//! definitions and the scan headers into a `Frame` value.

pub mod encode;
pub mod grammar;
pub mod laws;
pub mod parser;
pub mod types;
