//! What holds of the coder as a whole: what is encoded is decoded to what
//! it was.

use crate::bwt::{
    lemma_inverse_of_transform, lemma_rotation_order_exists, primary_index, transform,
};
use crate::decode::{
    decoded_block, decoded_stream, payload_symbols, record_length, BlockResult, StreamResult,
    Symbols,
};
use crate::encode::{block_record, block_symbols, encoding, first_window};
use crate::huffman::decode::{
    block_failure, block_header, block_payload, next_symbol, readable_bits, Step,
};
use crate::huffman::encode::{block_fits, frequencies, payload_of};
use crate::huffman::forest::lemma_huffman_codes;
use crate::huffman::iterator::{stream_bits};
use crate::huffman::laws::{lemma_occurs, lemma_payload_bound};
use crate::huffman::round_trip::{
    lemma_header_round_trip, lemma_listing_prefix_free, lemma_next_symbol, lemma_payload_front,
    lemma_stream_bits_add, lemma_unpack, padding,
};
use crate::huffman::table::{header_bits, listing, zero_bits, HeaderView};
use crate::huffman::tree::{huffman_codes, is_prefix_code};
use crate::mtf::{decoded, encoded, lemma_decoded_encoded};
use vstd::prelude::*;

verus! {

/// The payload of bytes under a prefix code, read with the listing of the
/// code, gives the bytes back.
pub proof fn lemma_payload_round_trip(codes: Map<u8, Seq<bool>>, symbols: Seq<u8>)
    requires
        is_prefix_code(codes),
        forall|i: int| 0 <= i < symbols.len() ==> codes.contains_key(#[trigger] symbols[i]),
    ensures
        payload_symbols(listing(codes), payload_of(codes, symbols)) == Symbols::Read(symbols),
    decreases symbols.len(),
{
    let entries = listing(codes);
    lemma_listing_prefix_free(codes);
    if symbols.len() == 0 {
        assert(payload_of(codes, symbols) =~= Seq::<bool>::empty());
        assert(symbols =~= Seq::<u8>::empty());
    } else {
        let first = symbols[0];
        let others = symbols.skip(1);
        assert(symbols =~= seq![first] + others);
        lemma_payload_front(codes, first, others);
        let rest = payload_of(codes, others);
        assert(codes.contains_key(first));
        let i = choose|i: int| 0 <= i < entries.len() && (#[trigger] entries[i]).0 == first;
        assert(codes[entries[i].0] == entries[i].1);
        let code = entries[i].1;
        assert(code.len() >= 1);
        lemma_next_symbol(entries, i, rest, 0);
        let bits = code + rest;
        assert(bits.skip(code.len() as int) =~= rest);
        assert forall|k: int| 0 <= k < others.len() implies codes.contains_key(
            #[trigger] others[k],
        ) by {
            assert(others[k] == symbols[k + 1]);
        }
        lemma_payload_round_trip(codes, others);
        assert(payload_of(codes, symbols) == bits);
        assert(bits.len() > 0);
        assert(next_symbol(entries, bits, 0) == (Step::Symbol {
            letter: first,
            used: code.len(),
        }));
        assert(payload_symbols(entries, bits.skip(code.len() as int)) == Symbols::Read(others));
        assert(payload_symbols(entries, bits) == Symbols::Read(seq![first] + others));
    }
}

/// The symbols of a block all have a code word of the Huffman code of the
/// block, of at most 255 bits; the code is a prefix code, and the payload
/// has one bit or more and no more bits than the machine can count.
pub proof fn lemma_block_code(block: Seq<u8>)
    requires
        0 < block.len(),
        block_fits(block.len() as int),
    ensures
        is_prefix_code(huffman_codes(frequencies(block_symbols(block)))),
        huffman_codes(frequencies(block_symbols(block))) != Map::<u8, Seq<bool>>::empty(),
        forall|i: int|
            0 <= i < block_symbols(block).len() ==> huffman_codes(
                frequencies(block_symbols(block)),
            ).contains_key(#[trigger] block_symbols(block)[i]),
        1 <= payload_of(
            huffman_codes(frequencies(block_symbols(block))),
            block_symbols(block),
        ).len() <= 255 * block.len(),
        forall|letter: u8| #[trigger]
            huffman_codes(frequencies(block_symbols(block))).contains_key(letter) ==> huffman_codes(
                frequencies(block_symbols(block)),
            )[letter].len() <= 255,
{
    let symbols = block_symbols(block);
    let freqs = frequencies(symbols);
    let codes = huffman_codes(freqs);
    lemma_rotation_order_exists(block);
    lemma_huffman_codes(freqs);
    assert(symbols.len() == block.len());
    assert forall|i: int| 0 <= i < symbols.len() implies codes.contains_key(
        #[trigger] symbols[i],
    ) && codes[symbols[i]].len() <= 255 by {
        lemma_occurs(symbols, i);
        assert(freqs.contains_key(symbols[i]));
    }
    lemma_payload_bound(symbols, codes);
    assert(codes.contains_key(symbols.last()));
    assert(codes[symbols.last()].len() >= 1);
    assert(codes.contains_key(symbols[0]));
}

/// A header at the start of bytes is read back off the bits that a reader
/// may read.
pub proof fn lemma_readable_header(
    bytes: Seq<u8>,
    initial: u32,
    bit_size: nat,
    codes: Map<u8, Seq<bool>>,
    behind: Seq<bool>,
)
    requires
        bit_size <= usize::MAX,
        is_prefix_code(codes),
        codes != Map::<u8, Seq<bool>>::empty(),
        forall|letter: u8| #[trigger] codes.contains_key(letter) ==> codes[letter].len() <= 255,
        stream_bits(bytes) == header_bits(initial, bit_size, listing(codes)) + behind,
    ensures
        crate::huffman::table::parse_header(readable_bits(bytes)) == Some(
            (
                HeaderView { initial, bit_size: bit_size as usize, entries: listing(codes) },
                header_bits(initial, bit_size, listing(codes)).len(),
            ),
        ),
{
    let bits = stream_bits(bytes);
    lemma_header_round_trip(initial, bit_size, codes, behind);
    crate::huffman::encode::lemma_header_length(initial, bit_size, listing(codes), codes);
    if bits.len() > usize::MAX {
        crate::huffman::round_trip::lemma_parse_header_take(bits, usize::MAX as int);
    }
}

/// The record of a block, whatever bytes stand behind it, starts with the
/// header of the block, which is read back; behind it stands the payload,
/// and the record has the length that the header gives.
pub proof fn lemma_record_start(block: Seq<u8>, more: Seq<u8>)
    requires
        0 < block.len(),
        block_fits(block.len() as int),
    ensures
        block_failure(block_record(block) + more).is_none(),
        block_header(block_record(block) + more) == (HeaderView {
            initial: primary_index(block) as u32,
            bit_size: payload_of(
                huffman_codes(frequencies(block_symbols(block))),
                block_symbols(block),
            ).len() as usize,
            entries: listing(huffman_codes(frequencies(block_symbols(block)))),
        }),
        block_payload(block_record(block) + more) == payload_of(
            huffman_codes(frequencies(block_symbols(block))),
            block_symbols(block),
        ),
        record_length(block_record(block) + more) == block_record(block).len(),
        block_record(block).len() > 0,
{
    let symbols = block_symbols(block);
    let codes = huffman_codes(frequencies(symbols));
    let initial = primary_index(block) as u32;
    lemma_block_code(block);
    let payload = payload_of(codes, symbols);
    let size = payload.len();
    let header = header_bits(initial, size, listing(codes));
    let record = block_record(block);
    let bytes = record + more;
    let pad = zero_bits(padding((header + payload).len() as int));
    lemma_unpack(header + payload);
    lemma_stream_bits_add(record, more);
    let behind = payload + pad + stream_bits(more);
    let bits = stream_bits(bytes);
    assert(bits =~= header + behind);
    lemma_readable_header(bytes, initial, size, codes, behind);
    assert(bits.skip(header.len() as int) =~= behind);
    assert(behind.take(size as int) =~= payload);
}

/// The record of a block, whatever bytes stand behind it, is decoded to the
/// block, and as many bytes are read as the record has.
pub proof fn lemma_block_round_trip(block: Seq<u8>, more: Seq<u8>)
    requires
        0 < block.len(),
        block_fits(block.len() as int),
    ensures
        decoded_block(block_record(block) + more) == (BlockResult::Read {
            bytes: block,
            used: block_record(block).len(),
        }),
        block_record(block).len() > 0,
{
    reveal(decoded_block);
    lemma_inverse_of_transform(block);
    lemma_rotation_order_exists(block);
    lemma_block_code(block);
    lemma_record_start(block, more);
    let symbols = block_symbols(block);
    let codes = huffman_codes(frequencies(symbols));
    assert(symbols.len() == block.len());
    lemma_payload_round_trip(codes, symbols);
    lemma_decoded_encoded(transform(block));
}

/// Round trip: what is encoded in windows of one byte or more, and of no
/// more bytes than fit a block, is decoded to what it was.
pub proof fn lemma_decode_of_encode(input: Seq<u8>, window: int)
    requires
        0 < window,
        block_fits(window),
    ensures
        decoded_stream(encoding(input, window)) == StreamResult::Read(input),
    decreases input.len(),
{
    if input.len() == 0 {
        assert(input =~= Seq::<u8>::empty());
    } else {
        let size = first_window(input, window);
        let first = input.take(size);
        let others = input.skip(size);
        let record = block_record(first);
        let behind = encoding(others, window);
        let whole = encoding(input, window);
        assert(whole == record + behind);
        lemma_block_round_trip(first, behind);
        assert(whole.skip(record.len() as int) =~= behind);
        lemma_decode_of_encode(others, window);
        assert(first + others =~= input);
    }
}

/// Round trip with the window that `encode` uses.
pub proof fn lemma_decode_of_default_encode(input: Seq<u8>)
    ensures
        decoded_stream(encoding(input, crate::encode::WINDOW_SIZE as int)) == StreamResult::Read(
            input,
        ),
{
    lemma_decode_of_encode(input, crate::encode::WINDOW_SIZE as int);
}

} // verus!
