//! The canonical Huffman entropy coder: the code of a block, the header that
//! carries it, and the bit-packed payload.

pub mod tree;
pub mod encode;
pub mod iterator;
pub mod table;
pub mod header;
pub mod forest;
pub mod laws;
pub mod decode;
pub mod canon;
pub mod round_trip;
