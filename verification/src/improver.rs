//! A block coder for data with long runs: the Burrows-Wheeler transform with
//! its primary index in front, move-to-front, run-length coding, and the
//! adaptive arithmetic coder.

use crate::arithmetic::encode::message_fits;
use crate::bwt::{inverse_transform, primary_index, transform};
use crate::huffman::header::push_be_bytes;
use crate::huffman::table::be_bytes;
use crate::mtf::{decoded, encoded};
use crate::result::{Error, ErrorKind};
use crate::rle::{run_coded, run_expanded};
use vstd::prelude::*;
use vstd::slice::slice_subrange;

verus! {

/// A block of `len` bytes can be encoded: its primary index fits in four
/// bytes, and the arithmetic coder can take what is prepared of it, which is
/// at most twice as long as the block and its index, and two bytes more.
pub open spec fn data_fits(len: int) -> bool {
    len <= u32::MAX && message_fits(2 * (len + 4) + 2)
}

/// Whether a block of `len` bytes can be encoded.
pub fn can_hold_data(len: usize) -> (fits: bool)
    ensures
        fits == data_fits(len as int),
{
    len <= 0x3FF_FFFA
}

/// What the arithmetic coder gets for a block: the run-length code of the
/// move-to-front code of the primary index, in four big-endian bytes, and
/// the last column of the block.
pub open spec fn prepared(data: Seq<u8>) -> Seq<u8> {
    run_coded(encoded(be_bytes(primary_index(data) as nat, 4) + transform(data)))
}

/// The code of a block: the arithmetic code of what is prepared of it.
pub fn encode(data: &[u8]) -> (code: Vec<u8>)
    requires
        0 < data@.len(),
        data_fits(data@.len() as int),
    ensures
        code@ == crate::arithmetic::coder::coded(prepared(data@)),
{
    let symbols = prepare(data);
    crate::arithmetic::encode::encode(symbols.as_slice())
}

/// The bytes that the arithmetic coder gets for a block.
pub fn prepare(data: &[u8]) -> (symbols: Vec<u8>)
    requires
        0 < data@.len(),
        data_fits(data@.len() as int),
    ensures
        symbols@ == prepared(data@),
        message_fits(symbols@.len() as int),
{
    let (mut last, num) = crate::bwt::apply(data);
    let mut new_data: Vec<u8> = Vec::new();
    push_be_bytes(&mut new_data, num as u64, 4);
    new_data.append(&mut last);
    let ranks = crate::mtf::apply(new_data.as_slice());
    let coded = crate::rle::apply(ranks.as_slice());
    proof {
        crate::rle::lemma_run_coded_length(ranks@);
    }
    coded
}

/// The big-endian number in the first four of `bytes`.
pub open spec fn be_value(bytes: Seq<u8>) -> int {
    ((bytes[0] as int * 256 + bytes[1] as int) * 256 + bytes[2] as int) * 256 + bytes[3] as int
}

/// The block that the bytes of the arithmetic coder stand for, or how they
/// fail: as truncated where they are no run-length code or their bytes are
/// fewer than four, as invalid where the primary index is no place of the
/// block.
pub open spec fn restored(symbols: Seq<u8>) -> Result<Seq<u8>, ErrorKind> {
    if !crate::rle::is_run_code(symbols, 0, None) {
        Err(ErrorKind::TruncatedStream)
    } else {
        let data = decoded(run_expanded(symbols, 0, None));
        if data.len() < 4 {
            Err(ErrorKind::TruncatedStream)
        } else if be_value(data) >= data.len() - 4 {
            Err(ErrorKind::InvalidIndex)
        } else {
            Ok(inverse_transform(data.skip(4), be_value(data)))
        }
    }
}

/// The block that the bytes of the arithmetic coder stand for.
pub fn restore(symbols: &[u8]) -> (block: Result<Vec<u8>, Error>)
    ensures
        match restored(symbols@) {
            Ok(data) => block.is_ok() && block.unwrap()@ == data,
            Err(kind) => block.is_err() && block.unwrap_err().kind == kind,
        },
{
    if !crate::rle::is_coded(symbols) {
        return Err(Error::of_kind(ErrorKind::TruncatedStream));
    }
    let ranks = crate::rle::reverse(symbols);
    let data = crate::mtf::reverse(ranks.as_slice());
    if data.len() < 4 {
        return Err(Error::of_kind(ErrorKind::TruncatedStream));
    }
    let index: u32 = ((data[0] as u32 * 256 + data[1] as u32) * 256 + data[2] as u32) * 256
        + data[3] as u32;
    let last = slice_subrange(data.as_slice(), 4, data.len());
    proof {
        assert(last@ =~= data@.skip(4));
    }
    crate::bwt::reverse(last, index)
}

/// The block of which `data` is the code: what the message of the
/// arithmetic code stands for.
pub fn decode(data: &[u8]) -> (block: Result<Vec<u8>, Error>)
    ensures
        match restored(crate::arithmetic::coder::decoded_message(data@)) {
            Ok(bytes) => block.is_ok() && block.unwrap()@ == bytes,
            Err(kind) => block.is_err() && block.unwrap_err().kind == kind,
        },
{
    let symbols = crate::arithmetic::decode::decode(data);
    restore(symbols.as_slice())
}

/// A number of four bytes is the number in its big-endian bytes.
pub proof fn lemma_be_value(value: nat, behind: Seq<u8>)
    requires
        value <= u32::MAX,
    ensures
        be_value(be_bytes(value, 4) + behind) == value,
{
    let bytes = be_bytes(value, 4) + behind;
    reveal_with_fuel(crate::huffman::table::be_byte, 5);
    assert(bytes[0] == be_bytes(value, 4)[0]);
    assert(bytes[1] == be_bytes(value, 4)[1]);
    assert(bytes[2] == be_bytes(value, 4)[2]);
    assert(bytes[3] == be_bytes(value, 4)[3]);
    assert(bytes[3] == value % 256);
    assert(bytes[2] == (value / 256) % 256);
    assert(bytes[1] == (value / 256 / 256) % 256);
    assert(bytes[0] == (value / 256 / 256 / 256) % 256);
}

/// Round trip: the code of a block of one byte or more is decoded to the
/// block, if no run of equal bytes in the move-to-front code of its primary
/// index and its last column is longer than 255 bytes.
pub proof fn lemma_restored_prepared(data: Seq<u8>)
    requires
        0 < data.len(),
        data_fits(data.len() as int),
        crate::rle::short_runs(encoded(be_bytes(primary_index(data) as nat, 4) + transform(data))),
    ensures
        restored(crate::arithmetic::coder::decoded_message(
            crate::arithmetic::coder::coded(prepared(data)),
        )) == Ok::<Seq<u8>, ErrorKind>(data),
{
    crate::bwt::lemma_rotation_order_exists(data);
    crate::bwt::lemma_inverse_of_transform(data);
    let index = primary_index(data) as nat;
    let plain = be_bytes(index, 4) + transform(data);
    let ranks = encoded(plain);
    let symbols = prepared(data);
    crate::rle::lemma_run_coded_length(ranks);
    crate::arithmetic::laws::lemma_decoded_coded(symbols);
    crate::rle::lemma_expanded_coded(ranks);
    crate::mtf::lemma_decoded_encoded(plain);
    lemma_be_value(index, transform(data));
    assert(plain.skip(4) =~= transform(data));
}

} // verus!
