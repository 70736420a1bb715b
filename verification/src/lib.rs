//! A lossless, block-based byte-stream compressor: a Burrows-Wheeler block
//! permutation, a move-to-front recoding and a canonical Huffman entropy coder
//! with a self-describing header. A second block coder puts run-length coding
//! and an adaptive arithmetic coder in the place of the Huffman coder. Every
//! function carries a contract. Verus proves each of them but those of the
//! small functions in `alphabet`, `bits` and `queue` that call the linked
//! list, the bit vector and the priority queue of other crates: what these
//! say of the calls is taken from the sources of those crates and believed.
//!
//! A stream is cut into windows, and each window becomes one record; the
//! records stand one behind the other without anything between them. A
//! record is
//!
//! - the primary index of the block, in four bytes, big-endian;
//! - the number of payload bits, in eight bytes, big-endian;
//! - the canonical code table, as a stream of bits: its entries in the
//!   order of their code words, each as a bit 0 for each bit that its code
//!   word is longer than what the entry before it carries over, a bit 1,
//!   and the eight bits of its byte, the most significant first; a code
//!   word of bits 1 alone ends the table;
//! - the payload: the code words of the symbols of the block.
//!
//! Table and payload are packed into bytes with the first bit of each byte
//! in the least significant place; the last byte is filled up with zero
//! bits. A table of one entry is written as the entry of the empty code
//! word, and stands for the one-bit code word 0. The record of an empty
//! block is its two numbers alone, at the end of the stream: it declares no
//! payload bit, and its table has no entry.

pub mod alphabet;
pub mod arithmetic;
pub mod bits;
pub mod bwt;
pub mod decode;
pub mod encode;
pub mod huffman;
pub mod improver;
pub mod laws;
pub mod mtf;
pub mod mtftree;
pub mod queue;
pub mod result;
pub mod rle;
pub mod rotation;
pub mod stable;
pub mod suffix;
pub mod utils;

pub use decode::decode;
pub use encode::encode;
