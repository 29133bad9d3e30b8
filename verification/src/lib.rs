//! Least-significant-bit steganography for uncompressed bitmap images.
//!
//! A message is framed by two fixed markers and hidden one bit per byte in
//! the pixel array of a bitmap, in the lowest bit of each byte. Every
//! function here works on byte buffers held in memory and is verified
//! against a mathematical model of the bit stream.

pub mod codec;
pub mod error;
pub mod header;
pub mod marker;
pub mod reader;
pub mod stream;
pub mod writer;
