//! An adaptive arithmetic coder over bytes, with code values of 16 bits.

pub mod coder;
pub mod decode;
pub mod encode;
pub mod frequencies;
pub mod laws;
pub mod limits;
