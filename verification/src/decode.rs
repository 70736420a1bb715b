//! Decoding a stream: block records are read one behind the other, and each
//! gives its block back.

use crate::bwt::inverse_transform;
use crate::huffman::decode::{
    block_failure, block_header, block_header_bits, block_payload, next_symbol, DecoderIterator,
    Step,
};
use crate::huffman::table::TableEntry;
use crate::mtf::decoded;
use crate::result::{Error, ErrorKind};
use vstd::prelude::*;
use vstd::slice::slice_subrange;

verus! {

/// What a payload stands for, or the failure that ends reading it.
pub enum Symbols {
    Read(Seq<u8>),
    Failed(ErrorKind),
}

/// What reading a block gives: its bytes and the length of its record, or a
/// failure.
pub enum BlockResult {
    Read { bytes: Seq<u8>, used: nat },
    Failed(ErrorKind),
}

/// What reading a stream gives: its bytes, or the first failure.
pub enum StreamResult {
    Read(Seq<u8>),
    Failed(ErrorKind),
}

/// The bytes that the payload `bits` stands for under the code `table`: code
/// words are read until the bits are used up.
pub open spec fn payload_symbols(table: Seq<TableEntry>, bits: Seq<bool>) -> Symbols
    decreases bits.len(),
{
    if bits.len() == 0 {
        Symbols::Read(Seq::empty())
    } else {
        match next_symbol(table, bits, 0) {
            Step::Symbol { letter, used } => if 0 < used <= bits.len() {
                match payload_symbols(table, bits.skip(used as int)) {
                    Symbols::Read(more) => Symbols::Read(seq![letter] + more),
                    Symbols::Failed(kind) => Symbols::Failed(kind),
                }
            } else {
                Symbols::Failed(ErrorKind::UnknownCodeWord)
            },
            Step::Truncated => Symbols::Failed(ErrorKind::TruncatedStream),
            Step::Unknown => Symbols::Failed(ErrorKind::UnknownCodeWord),
        }
    }
}

/// The number of bytes that the record with which `bytes` starts takes: its
/// header and its payload, filled up to a whole byte.
pub open spec fn record_length(bytes: Seq<u8>) -> nat {
    ((block_header_bits(bytes) + block_header(bytes).bit_size + 7) / 8) as nat
}

/// The block of the record with which `bytes` starts. Its payload is read
/// with the code of its header; the bytes read are the move-to-front code of
/// the last column of the block, from which the block is rebuilt with the
/// primary index of the header. A primary index that is no place of the
/// block fails as invalid.
#[verifier::opaque]
pub open spec fn decoded_block(bytes: Seq<u8>) -> BlockResult {
    match block_failure(bytes) {
        Some(kind) => BlockResult::Failed(kind),
        None => match payload_symbols(block_header(bytes).entries, block_payload(bytes)) {
            Symbols::Failed(kind) => BlockResult::Failed(kind),
            Symbols::Read(symbols) => if block_header(bytes).initial >= symbols.len() {
                BlockResult::Failed(ErrorKind::InvalidIndex)
            } else {
                BlockResult::Read {
                    bytes: inverse_transform(
                        decoded(symbols),
                        block_header(bytes).initial as int,
                    ),
                    used: record_length(bytes),
                }
            },
        },
    }
}

/// The bytes of which `bytes` is the encoding: the blocks of its records,
/// one behind the other, up to the first failure.
pub open spec fn decoded_stream(bytes: Seq<u8>) -> StreamResult
    decreases bytes.len(),
{
    if bytes.len() == 0 {
        StreamResult::Read(Seq::empty())
    } else {
        match decoded_block(bytes) {
            BlockResult::Failed(kind) => StreamResult::Failed(kind),
            BlockResult::Read { bytes: block, used } => if 0 < used <= bytes.len() {
                match decoded_stream(bytes.skip(used as int)) {
                    StreamResult::Read(more) => StreamResult::Read(block + more),
                    StreamResult::Failed(kind) => StreamResult::Failed(kind),
                }
            } else {
                StreamResult::Failed(ErrorKind::TruncatedStream)
            },
        }
    }
}

/// Reads the payload of a block to its end.
fn read_symbols(iter: &mut DecoderIterator<'_>) -> (symbols: Result<Vec<u8>, Error>)
    requires
        old(iter).reader().budget() == old(iter).bits().len(),
    ensures
        final(iter).reader().source() == old(iter).reader().source(),
        match payload_symbols(old(iter).table(), old(iter).bits()) {
            Symbols::Read(read) => symbols.is_ok() && symbols.unwrap()@ == read && final(iter).reader().follows(old(iter).reader(), old(iter).bits().len() as int),
            Symbols::Failed(kind) => symbols.is_err() && symbols.unwrap_err().kind == kind,
        },
{
    let ghost start = iter.reader();
    let ghost all = iter.bits();
    let ghost table = iter.table();
    let mut symbols: Vec<u8> = Vec::new();
    let ghost mut taken: int = 0;
    proof {
        assert(start.pending() =~= start.pending().skip(0));
        assert(all.skip(0) =~= all);
    }
    loop
        invariant
            0 <= taken <= all.len(),
            start == old(iter).reader(),
            all == start.remaining(),
            all == old(iter).bits(),
            table == old(iter).table(),
            iter.table() == table,
            iter.reader().follows(start, taken),
            iter.bits() == all.skip(taken),
            start.budget() == all.len(),
            match payload_symbols(table, all.skip(taken)) {
                Symbols::Read(more) => payload_symbols(table, all) == Symbols::Read(
                    symbols@ + more,
                ),
                Symbols::Failed(kind) => payload_symbols(table, all) == Symbols::Failed(kind),
            },
        decreases all.len() - taken,
    {
        let ghost middle = iter.reader();
        let ghost rest = iter.bits();
        let ghost before = symbols@;
        match iter.next() {
            None => {
                proof {
                    assert(symbols@ + Seq::<u8>::empty() =~= symbols@);
                    iter.reader().lemma_follows_twice(middle, start, taken, 0);
                }
                return Ok(symbols);
            },
            Some(Err(error)) => {
                return Err(error);
            },
            Some(Ok(letter)) => {
                symbols.push(letter);
                proof {
                    let used = next_symbol(table, rest, 0)->used as int;
                    crate::huffman::decode::lemma_symbol_used(table, rest, 0);
                    middle.lemma_follows(start, taken);
                    iter.reader().lemma_follows_twice(middle, start, taken, used);
                    iter.reader().lemma_follows(start, taken + used);
                    assert(all.skip(taken).skip(used) =~= all.skip(taken + used));
                    match payload_symbols(table, all.skip(taken + used)) {
                        Symbols::Read(more) => {
                            assert(before + (seq![letter] + more) =~= symbols@ + more);
                        },
                        Symbols::Failed(_) => {},
                    }
                    taken = taken + used;
                }
            },
        }
    }
}

/// Reads the record with which `input` starts: gives its block back, and
/// the number of bytes of the record.
pub fn decode_block(input: &[u8]) -> (block: Result<(Vec<u8>, usize), Error>)
    requires
        input@.len() > 0,
    ensures
        match decoded_block(input@) {
            BlockResult::Read { bytes, used } => block.is_ok() && block.unwrap().0@ == bytes
                && block.unwrap().1 == used && 0 < used <= input@.len(),
            BlockResult::Failed(kind) => block.is_err() && block.unwrap_err().kind == kind,
        },
{
    reveal(decoded_block);
    let (mut iter, initial) = match crate::huffman::decode::decode(input) {
        None => {
            return Err(Error::of_kind(ErrorKind::CorruptHeader));
        },
        Some(Err(error)) => {
            return Err(error);
        },
        Some(Ok(pair)) => pair,
    };
    let ghost start = iter.reader();
    let symbols = match read_symbols(&mut iter) {
        Err(error) => {
            return Err(error);
        },
        Ok(symbols) => symbols,
    };
    let used = iter.consumed();
    proof {
        iter.reader().lemma_follows(start, block_payload(input@).len() as int);
        crate::huffman::laws::lemma_header_bits_used(
            crate::huffman::decode::readable_bits(input@),
        );
    }
    let demtfed = crate::mtf::reverse(symbols.as_slice());
    match crate::bwt::reverse(demtfed.as_slice(), initial) {
        Err(error) => Err(error),
        Ok(debwted) => Ok((debwted, used)),
    }
}

/// Reads the blocks of a stream one at a time.
pub struct DecodeIterator<'a> {
    input_iter: &'a [u8],
    position: usize,
    failed: bool,
}

impl<'a> DecodeIterator<'a> {
    #[verifier::type_invariant]
    spec fn wf(self) -> bool {
        self.position <= self.input_iter@.len()
    }

    /// The bytes that are still to be read.
    pub closed spec fn remaining(self) -> Seq<u8> {
        self.input_iter@.skip(self.position as int)
    }

    /// Whether a record failed: no block is read behind a failure.
    pub closed spec fn stopped(self) -> bool {
        self.failed
    }

    /// Starts at the first record of `input_iter`.
    pub fn new(input_iter: &'a [u8]) -> (iterator: DecodeIterator<'a>)
        ensures
            iterator.remaining() == input_iter@,
            !iterator.stopped(),
    {
        let iterator = DecodeIterator { input_iter, position: 0, failed: false };
        assert(iterator.remaining() =~= input_iter@);
        iterator
    }

    /// The block of the next record, or the failure of that record. Nothing
    /// behind the last record and behind a failure.
    pub fn next(&mut self) -> (block: Option<Result<Vec<u8>, Error>>)
        ensures
            block.is_none() <==> (old(self).stopped() || old(self).remaining().len() == 0),
            block.is_none() ==> final(self).remaining() == old(self).remaining() && final(self).stopped() == old(self).stopped(),
            block.is_some() ==> match decoded_block(old(self).remaining()) {
                BlockResult::Read { bytes, used } => block.unwrap().is_ok()
                    && block.unwrap().unwrap()@ == bytes && 0 < used <= old(self).remaining().len()
                    && final(self).remaining() == old(self).remaining().skip(used as int)
                    && !final(self).stopped(),
                BlockResult::Failed(kind) => block.unwrap().is_err()
                    && block.unwrap().unwrap_err().kind == kind && final(self).stopped(),
            },
    {
        proof {
            use_type_invariant(&*self);
        }
        let length = self.input_iter.len();
        if self.failed || self.position >= length {
            return None;
        }
        let ghost before = self.remaining();
        let rest = slice_subrange(self.input_iter, self.position, length);
        assert(rest@ =~= before);
        match decode_block(rest) {
            Err(error) => {
                self.failed = true;
                Some(Err(error))
            },
            Ok((bytes, used)) => {
                self.position = self.position + used;
                assert(self.remaining() =~= before.skip(used as int));
                Some(Ok(bytes))
            },
        }
    }
}

/// Decodes a stream: the bytes of all its blocks, or the first failure.
pub fn decode(read: &[u8]) -> (output: Result<Vec<u8>, Error>)
    ensures
        match decoded_stream(read@) {
            StreamResult::Read(bytes) => output.is_ok() && output.unwrap()@ == bytes,
            StreamResult::Failed(kind) => output.is_err() && output.unwrap_err().kind == kind,
        },
{
    let mut output: Vec<u8> = Vec::new();
    let mut blocks = DecodeIterator::new(read);
    let ghost mut done: int = 0;
    proof {
        assert(read@.skip(0) =~= read@);
    }
    loop
        invariant
            0 <= done <= read@.len(),
            !blocks.stopped(),
            blocks.remaining() == read@.skip(done),
            match decoded_stream(read@.skip(done)) {
                StreamResult::Read(more) => decoded_stream(read@) == StreamResult::Read(
                    output@ + more,
                ),
                StreamResult::Failed(kind) => decoded_stream(read@) == StreamResult::Failed(kind),
            },
        decreases read@.len() - done,
    {
        let ghost rest = read@.skip(done);
        let ghost before = output@;
        match blocks.next() {
            None => {
                proof {
                    assert(output@ + Seq::<u8>::empty() =~= output@);
                }
                return Ok(output);
            },
            Some(Err(error)) => {
                return Err(error);
            },
            Some(Ok(mut block)) => {
                let ghost bytes = block@;
                output.append(&mut block);
                proof {
                    let used = decoded_block(rest)->used as int;
                    assert(rest.skip(used) =~= read@.skip(done + used));
                    match decoded_stream(read@.skip(done + used)) {
                        StreamResult::Read(more) => {
                            assert(before + (bytes + more) =~= output@ + more);
                        },
                        StreamResult::Failed(_) => {},
                    }
                    done = done + used;
                }
            },
        }
    }
}

} // verus!
