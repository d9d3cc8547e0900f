//! A compact, self-describing variable-length encoding for unsigned 64-bit
//! integers ("prefix varint").
//!
//! Every value in `0..=u64::MAX` is represented in 1 to 9 bytes, and the
//! byte length of an encoding is recoverable from its first byte alone: the
//! number of trailing zero bits of the first byte, plus one, is the total
//! length.

pub mod le;
pub mod varint;

pub use varint::{decode, encode, prefix_len, size_of, Error};
