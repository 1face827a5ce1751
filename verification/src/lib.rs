//! A bit-level packing primitive.
//!
//! The crate serializes sequences of unsigned integers of arbitrary bit width
//! (1 to 32 bits) into a contiguous byte buffer and deserializes them back in
//! the same order, with no padding between fields. Two engines are provided:
//! the byte-cursor engine ([`BitPack`]), which addresses the buffer one byte
//! at a time and packs least significant bits first, and the word-accumulator
//! engine ([`WordPacker`] and [`WordUnpacker`]), which gathers up to 32 bits
//! most significant bits first and commits them to the buffer as
//! little-endian words.

pub mod accum;
pub mod bits;
pub mod grow;
pub mod laws;
pub mod pack;

pub use accum::{WordPacker, WordUnpacker};
pub use pack::{BitPack, BYTE_BITS, MAX_BITS};
