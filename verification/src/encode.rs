//! Encoding a stream: it is cut into windows, and each window becomes one
//! block record.

use crate::bwt::{primary_index, transform};
use crate::huffman::encode::{block_fits, frequencies, payload_of};
use crate::huffman::iterator::packed;
use crate::huffman::table::{header_bits, listing};
use crate::huffman::tree::huffman_codes;
use crate::mtf::encoded;
use vstd::prelude::*;
use vstd::slice::{slice_subrange, slice_to_vec};

verus! {

/// The number of bytes of a window where none is given.
pub const WINDOW_SIZE: usize = 0x10_0000;

/// The bytes that the entropy coder gets for a block: the move-to-front code
/// of its Burrows-Wheeler transform.
pub open spec fn block_symbols(block: Seq<u8>) -> Seq<u8> {
    encoded(transform(block))
}

/// The record of `block`: the header with the primary index of the block,
/// the number of payload bits and the table of the Huffman code of the
/// block's symbols, and behind it the payload, packed into bytes.
pub open spec fn block_record(block: Seq<u8>) -> Seq<u8> {
    packed(
        header_bits(
            primary_index(block) as u32,
            payload_of(huffman_codes(frequencies(block_symbols(block))), block_symbols(block)).len(),
            listing(huffman_codes(frequencies(block_symbols(block)))),
        ) + payload_of(huffman_codes(frequencies(block_symbols(block))), block_symbols(block)),
    )
}

/// The length of the first window of an input.
pub open spec fn first_window(input: Seq<u8>, window: int) -> int {
    if input.len() < window {
        input.len() as int
    } else {
        window
    }
}

/// The encoding of `input` in windows of `window` bytes: the records of the
/// windows, one behind the other. A window of no bytes gives no record at
/// all.
pub open spec fn encoding(input: Seq<u8>, window: int) -> Seq<u8>
    decreases input.len(),
{
    if window <= 0 || input.len() == 0 {
        Seq::empty()
    } else {
        block_record(input.take(first_window(input, window))) + encoding(
            input.skip(first_window(input, window)),
            window,
        )
    }
}

/// The record of one more window behind an encoding of whole windows.
pub proof fn lemma_encoding_grows(input: Seq<u8>, window: int, block: Seq<u8>)
    requires
        window > 0,
        input.len() % (window as nat) == 0,
        0 < block.len() <= window,
    ensures
        encoding(input + block, window) == encoding(input, window) + block_record(block),
    decreases input.len(),
{
    let whole = input + block;
    if input.len() == 0 {
        assert(whole =~= block);
        assert(whole.take(first_window(whole, window)) =~= block);
        assert(whole.skip(first_window(whole, window)).len() == 0);
        assert(encoding(whole.skip(first_window(whole, window)), window) =~= Seq::<u8>::empty());
        assert(encoding(whole, window) =~= block_record(block));
        assert(encoding(input, window) + block_record(block) =~= block_record(block));
    } else {
        assert(input.len() >= window) by {
            if input.len() < window {
                vstd::arithmetic::div_mod::lemma_small_mod(input.len(), window as nat);
            }
        }
        let rest_in = input.skip(window);
        assert(rest_in.len() % (window as nat) == 0) by {
            vstd::arithmetic::div_mod::lemma_mod_sub_multiples_vanish(input.len() as int, window);
        }
        lemma_encoding_grows(rest_in, window, block);
        assert(whole.take(window) =~= input.take(window));
        assert(whole.skip(window) =~= rest_in + block);
        let first = block_record(input.take(window));
        assert(first + (encoding(rest_in, window) + block_record(block)) =~= (first + encoding(
            rest_in,
            window,
        )) + block_record(block));
    }
}

/// Cuts a stream into windows.
pub struct WindowedIterator<'a> {
    window: usize,
    read: &'a [u8],
    position: usize,
}

impl<'a> WindowedIterator<'a> {
    #[verifier::type_invariant]
    spec fn wf(self) -> bool {
        self.position <= self.read@.len()
    }

    /// The bytes that are still to be given out.
    pub closed spec fn remaining(self) -> Seq<u8> {
        self.read@.skip(self.position as int)
    }

    /// The length of a window.
    pub closed spec fn window(self) -> usize {
        self.window
    }

    /// Cuts `read` into windows of `window` bytes.
    pub fn from_read(window: usize, read: &'a [u8]) -> (iterator: WindowedIterator<'a>)
        ensures
            iterator.window() == window,
            iterator.remaining() == read@,
    {
        let iterator = WindowedIterator { window, read, position: 0 };
        assert(iterator.remaining() =~= read@);
        iterator
    }

    /// The next window: as many bytes as a window has, or the bytes that are
    /// left if they are fewer. Nothing where no byte is left or a window has
    /// no bytes.
    pub fn next(&mut self) -> (block: Option<Vec<u8>>)
        ensures
            final(self).window() == old(self).window(),
            block.is_none() <==> (old(self).window() == 0 || old(self).remaining().len() == 0),
            block.is_none() ==> final(self).remaining() == old(self).remaining(),
            block.is_some() ==> block.unwrap()@ == old(self).remaining().take(
                first_window(old(self).remaining(), old(self).window() as int),
            ),
            block.is_some() ==> final(self).remaining() == old(self).remaining().skip(
                first_window(old(self).remaining(), old(self).window() as int),
            ),
    {
        proof {
            use_type_invariant(&*self);
        }
        let length = self.read.len();
        if self.window == 0 || self.position >= length {
            return None;
        }
        let ghost before = self.remaining();
        let size = if length - self.position < self.window {
            length - self.position
        } else {
            self.window
        };
        let block = slice_to_vec(slice_subrange(self.read, self.position, self.position + size));
        self.position = self.position + size;
        proof {
            assert(block@ =~= before.take(size as int));
            assert(self.remaining() =~= before.skip(size as int));
        }
        Some(block)
    }
}

/// The record of one block.
pub fn encode_block(block: Vec<u8>) -> (record: Vec<u8>)
    requires
        0 < block.len(),
        block_fits(block.len() as int),
    ensures
        record@ == block_record(block@),
{
    let (bwted, initial) = crate::bwt::apply(block.as_slice());
    let mtfed = crate::mtf::apply(bwted.as_slice());
    assert(mtfed@.len() == block@.len());
    crate::huffman::encode::encode(mtfed.as_slice(), initial)
}

/// Encodes `read` in windows of `window` bytes.
pub fn encode_windows(window: usize, read: &[u8]) -> (output: Vec<u8>)
    requires
        block_fits(window as int),
    ensures
        output@ == encoding(read@, window as int),
{
    let mut output: Vec<u8> = Vec::new();
    let mut windows = WindowedIterator::from_read(window, read);
    let ghost mut done: int = 0;
    proof {
        assert(read@.take(0) =~= Seq::<u8>::empty());
        assert(read@.skip(0) =~= read@);
    }
    loop
        invariant_except_break
            0 <= done <= read@.len(),
            block_fits(window as int),
            windows.window() == window,
            windows.remaining() == read@.skip(done),
            window > 0 ==> done % (window as int) == 0 || done == read@.len(),
            output@ == encoding(read@.take(done), window as int),
        ensures
            output@ == encoding(read@, window as int),
        decreases read@.len() - done,
    {
        match windows.next() {
            None => {
                proof {
                    if window > 0 {
                        assert(read@.take(done) =~= read@);
                    } else {
                        assert(read@.take(done).len() == 0 || window <= 0);
                    }
                }
                break ;
            },
            Some(block) => {
                let ghost size = block@.len() as int;
                let ghost before = output@;
                let ghost bytes = block@;
                let mut record = encode_block(block);
                let ghost added = record@;
                output.append(&mut record);
                proof {
                    assert(read@.skip(done).take(size) =~= read@.subrange(done, done + size));
                    assert(read@.take(done) + bytes =~= read@.take(done + size));
                    assert(read@.skip(done).skip(size) =~= read@.skip(done + size));
                    lemma_encoding_grows(read@.take(done), window as int, bytes);
                    if size == window {
                        vstd::arithmetic::div_mod::lemma_mod_add_multiples_vanish(
                            done,
                            window as int,
                        );
                    }
                    done = done + size;
                }
            },
        }
    }
    output
}

/// Encodes `read` in windows of `WINDOW_SIZE` bytes.
pub fn encode(read: &[u8]) -> (output: Vec<u8>)
    ensures
        output@ == encoding(read@, WINDOW_SIZE as int),
{
    encode_windows(WINDOW_SIZE, read)
}

} // verus!
