//! Reading a block: its header, then its payload, code word by code word.

use crate::bits::{bits_get, bits_len, bits_of};
use crate::huffman::header::{descriptors_view, CodeDescriptor, Header};
use crate::huffman::iterator::{stream_bits, BitIterator};
use crate::huffman::table::{parse_header, HeaderView, TableEntry};
use crate::result::{Error, ErrorKind};
use vstd::prelude::*;

verus! {

/// What reading one code word off a stream of bits gives.
pub enum Step {
    /// The code word of `letter`, of `used` bits.
    Symbol { letter: u8, used: nat },
    /// The bits end inside a code word.
    Truncated,
    /// The bits are the start of no code word.
    Unknown,
}

/// The byte of the first entry from `from` on whose code word is `word`.
pub open spec fn find_code(table: Seq<TableEntry>, word: Seq<bool>, from: int) -> Option<u8>
    decreases table.len() - from,
{
    if from >= table.len() || from < 0 {
        None
    } else if table[from].1 == word {
        Some(table[from].0)
    } else {
        find_code(table, word, from + 1)
    }
}

/// `code` starts with `word`.
pub open spec fn starts_with(code: Seq<bool>, word: Seq<bool>) -> bool {
    word.len() <= code.len() && code.take(word.len() as int) == word
}

/// A code word of an entry from `from` on starts with `word`.
pub open spec fn some_code_starts(table: Seq<TableEntry>, word: Seq<bool>, from: int) -> bool
    decreases table.len() - from,
{
    if from >= table.len() || from < 0 {
        false
    } else {
        starts_with(table[from].1, word) || some_code_starts(table, word, from + 1)
    }
}

/// Reads one code word off `bits`, of which `taken` bits are read already
/// and are no code word: bits are taken one at a time until they are the
/// code word of an entry. Where no code word starts with the bits taken, the
/// bits are unknown; where the bits end first, they are truncated.
pub open spec fn next_symbol(table: Seq<TableEntry>, bits: Seq<bool>, taken: int) -> Step
    decreases bits.len() - taken,
{
    if taken >= bits.len() || taken < 0 {
        Step::Truncated
    } else {
        let word = bits.take(taken + 1);
        match find_code(table, word, 0) {
            Some(letter) => Step::Symbol { letter, used: (taken + 1) as nat },
            None => if !some_code_starts(table, word, 0) {
                Step::Unknown
            } else {
                next_symbol(table, bits, taken + 1)
            },
        }
    }
}

/// A code word that is read takes at least one bit, and no more than there
/// are.
pub proof fn lemma_symbol_used(table: Seq<TableEntry>, bits: Seq<bool>, taken: int)
    requires
        0 <= taken,
        next_symbol(table, bits, taken) is Symbol,
    ensures
        taken < next_symbol(table, bits, taken)->used <= bits.len(),
    decreases bits.len() - taken,
{
    if taken < bits.len() {
        let word = bits.take(taken + 1);
        if find_code(table, word, 0).is_none() && some_code_starts(table, word, 0) {
            lemma_symbol_used(table, bits, taken + 1);
        }
    }
}

/// `alive` tells of each entry whether its code word starts with `word`.
pub open spec fn holds_candidates(table: Seq<TableEntry>, alive: Seq<bool>, word: Seq<bool>) -> bool {
    &&& alive.len() == table.len()
    &&& forall|i: int|
        0 <= i < table.len() ==> #[trigger] alive[i] == starts_with(table[i].1, word)
}

/// A code word starts with bits and one more bit where it starts with the
/// bits and goes on with that bit.
pub proof fn lemma_starts_with_push(code: Seq<bool>, word: Seq<bool>, bit: bool)
    ensures
        starts_with(code, word.push(bit)) <==> (starts_with(code, word) && code.len() > word.len()
            && code[word.len() as int] == bit),
{
    let longer = word.push(bit);
    let k = word.len() as int;
    if starts_with(code, longer) {
        assert(code.take(k) =~= code.take(k + 1).take(k));
        assert(longer.take(k) =~= word);
        assert(code.take(k + 1)[k] == longer[k]);
    }
    if starts_with(code, word) && code.len() > k && code[k] == bit {
        assert(code.take(k + 1) =~= code.take(k).push(code[k]));
    }
}

/// The first entry from `from` on with the code word `word` is found.
pub proof fn lemma_find_first(table: Seq<TableEntry>, word: Seq<bool>, i: int, from: int)
    requires
        0 <= from <= i < table.len(),
        table[i].1 == word,
        forall|j: int| from <= j < i ==> (#[trigger] table[j]).1 != word,
    ensures
        find_code(table, word, from) == Some(table[i].0),
    decreases i - from,
{
    if from < i {
        assert(table[from].1 != word);
        lemma_find_first(table, word, i, from + 1);
    }
}

/// Where no entry from `from` on has the code word `word`, `word` is not
/// found.
pub proof fn lemma_find_none(table: Seq<TableEntry>, word: Seq<bool>, from: int)
    requires
        0 <= from,
        forall|j: int| from <= j < table.len() ==> (#[trigger] table[j]).1 != word,
    ensures
        find_code(table, word, from).is_none(),
    decreases table.len() - from,
{
    if from < table.len() {
        assert(table[from].1 != word);
        lemma_find_none(table, word, from + 1);
    }
}

/// A code word of an entry that starts with `word` is found to start with
/// it.
pub proof fn lemma_some_code_starts(table: Seq<TableEntry>, word: Seq<bool>, i: int, from: int)
    requires
        0 <= from <= i < table.len(),
        starts_with(table[i].1, word),
    ensures
        some_code_starts(table, word, from),
    decreases i - from,
{
    if from < i {
        lemma_some_code_starts(table, word, i, from + 1);
    }
}

/// Where no code word of an entry from `from` on starts with `word`, none is
/// found to start with it.
pub proof fn lemma_no_code_starts(table: Seq<TableEntry>, word: Seq<bool>, from: int)
    requires
        0 <= from,
        forall|j: int| from <= j < table.len() ==> !starts_with((#[trigger] table[j]).1, word),
    ensures
        !some_code_starts(table, word, from),
    decreases table.len() - from,
{
    if from < table.len() {
        assert(!starts_with(table[from].1, word));
        lemma_no_code_starts(table, word, from + 1);
    }
}

/// All entries of a table: the code word of each starts with no bits.
fn all_entries(codes: &Vec<CodeDescriptor>) -> (alive: Vec<bool>)
    ensures
        holds_candidates(descriptors_view(codes@), alive@, Seq::empty()),
{
    let ghost table = descriptors_view(codes@);
    let mut alive: Vec<bool> = Vec::new();
    let mut i: usize = 0;
    while i < codes.len()
        invariant
            i <= codes.len(),
            alive.len() == i,
            forall|a: int| 0 <= a < i ==> #[trigger] alive[a],
        decreases codes.len() - i,
    {
        alive.push(true);
        i += 1;
    }
    proof {
        assert forall|i: int| 0 <= i < table.len() implies #[trigger] alive[i] == starts_with(
            table[i].1,
            Seq::empty(),
        ) by {
            assert(table[i].1.take(0) =~= Seq::<bool>::empty());
        }
    }
    alive
}

/// Keeps of the entries whose code words start with the bits read so far
/// those whose code words go on with `bit`. Gives the byte of the first of
/// them whose code word ends with that bit, and whether any is kept.
fn narrow(
    codes: &Vec<CodeDescriptor>,
    alive: &mut Vec<bool>,
    taken: usize,
    bit: bool,
    Ghost(word): Ghost<Seq<bool>>,
) -> (found: (Option<u8>, bool))
    requires
        word.len() == taken,
        holds_candidates(descriptors_view(codes@), old(alive)@, word),
    ensures
        holds_candidates(descriptors_view(codes@), final(alive)@, word.push(bit)),
        found.0 == find_code(descriptors_view(codes@), word.push(bit), 0),
        found.0.is_none() ==> found.1 == some_code_starts(
            descriptors_view(codes@),
            word.push(bit),
            0,
        ),
{
    let ghost table = descriptors_view(codes@);
    let ghost longer = word.push(bit);
    let mut letter: Option<u8> = None;
    let mut any = false;
    let ghost mut first: int = -1;
    let ghost mut witness: int = -1;
    let mut i: usize = 0;
    while i < codes.len()
        invariant
            i <= codes.len(),
            table == descriptors_view(codes@),
            longer == word.push(bit),
            word.len() == taken,
            alive.len() == codes.len(),
            forall|j: int| 0 <= j < i ==> #[trigger] alive[j] == starts_with(table[j].1, longer),
            forall|j: int|
                i <= j < table.len() ==> #[trigger] alive[j] == starts_with(table[j].1, word),
            letter.is_none() ==> forall|j: int| 0 <= j < i ==> (#[trigger] table[j]).1 != longer,
            letter.is_some() ==> 0 <= first < i && table[first].1 == longer && letter == Some(
                table[first].0,
            ) && forall|j: int| 0 <= j < first ==> (#[trigger] table[j]).1 != longer,
            any ==> 0 <= witness < i && starts_with(table[witness].1, longer),
            !any ==> forall|j: int| 0 <= j < i ==> !starts_with((#[trigger] table[j]).1, longer),
        decreases codes.len() - i,
    {
        let ghost entry = table[i as int];
        proof {
            assert(entry == (codes[i as int].letter, bits_of(codes[i as int].code)));
            lemma_starts_with_push(entry.1, word, bit);
            if entry.1 == longer {
                assert(longer.take(longer.len() as int) =~= longer);
            }
        }
        if alive[i] {
            let descriptor = &codes[i];
            let length = bits_len(&descriptor.code);
            if length > taken && bits_get(&descriptor.code, taken) == bit {
                if length == taken + 1 && letter.is_none() {
                    letter = Some(descriptor.letter);
                    proof {
                        first = i as int;
                        assert(entry.1.take(taken + 1) =~= entry.1);
                    }
                }
                any = true;
                proof {
                    witness = i as int;
                }
            } else {
                alive.set(i, false);
            }
        }
        i += 1;
    }
    proof {
        match letter {
            Some(_) => {
                lemma_find_first(table, longer, first, 0);
            },
            None => {
                lemma_find_none(table, longer, 0);
                if any {
                    lemma_some_code_starts(table, longer, witness, 0);
                } else {
                    lemma_no_code_starts(table, longer, 0);
                }
            },
        }
    }
    (letter, any)
}

/// Gives the bytes that the payload of a block stands for, one at a time.
/// The table is held as a list and searched entry by entry: what a map keyed
/// by code words holds would rest on how a bit vector is hashed and
/// compared, of which nothing is stated.
pub struct DecoderIterator<'a> {
    input_iter: BitIterator<'a>,
    codes: Vec<CodeDescriptor>,
}

impl<'a> DecoderIterator<'a> {
    /// The payload bits that are still to be read.
    pub open spec fn bits(self) -> Seq<bool> {
        self.reader().remaining()
    }

    /// The code table in use.
    pub closed spec fn table(self) -> Seq<TableEntry> {
        descriptors_view(self.codes@)
    }

    /// The reader of the bits.
    pub closed spec fn reader(self) -> BitIterator<'a> {
        self.input_iter
    }

    /// Reads code words of `codes` off `input_iter`.
    pub fn new(codes: Vec<CodeDescriptor>, input_iter: BitIterator<'a>) -> (iterator:
        DecoderIterator<'a>)
        ensures
            iterator.table() == descriptors_view(codes@),
            iterator.bits() == input_iter.remaining(),
            iterator.reader() == input_iter,
    {
        DecoderIterator { input_iter, codes }
    }

    /// How many bytes of the block have been read, a byte counting from its
    /// first bit on.
    pub fn consumed(&self) -> (count: usize)
        ensures
            count == (8 * self.reader().source().len() - self.reader().pending().len() + 7) / 8,
            count <= self.reader().source().len(),
    {
        self.input_iter.consumed()
    }

    /// The next byte of the payload. Nothing where all the bits that were
    /// declared are read. A failure where the source ends before the
    /// declared bits do, be it inside a code word or before one, or where
    /// the payload holds bits with which no code word starts.
    pub fn next(&mut self) -> (symbol: Option<Result<u8, Error>>)
        ensures
            final(self).table() == old(self).table(),
            final(self).reader().source() == old(self).reader().source(),
            symbol.is_none() <==> old(self).reader().budget() == 0,
            symbol.is_none() ==> final(self).reader().follows(old(self).reader(), 0),
            symbol.is_some() ==> match next_symbol(old(self).table(), old(self).bits(), 0) {
                Step::Symbol { letter, used } => symbol.unwrap() == Ok::<u8, Error>(letter)
                    && final(self).reader().follows(old(self).reader(), used as int),
                Step::Truncated => symbol.unwrap().is_err() && symbol.unwrap().unwrap_err().kind
                    == ErrorKind::TruncatedStream,
                Step::Unknown => symbol.unwrap().is_err() && symbol.unwrap().unwrap_err().kind
                    == ErrorKind::UnknownCodeWord,
            },
    {
        let ghost start = self.input_iter;
        let ghost all = self.input_iter.remaining();
        let ghost table = descriptors_view(self.codes@);
        let mut alive = all_entries(&self.codes);
        let mut taken: usize = 0;
        proof {
            assert(self.input_iter.pending() =~= start.pending().skip(0));
            assert(all.take(0) =~= Seq::<bool>::empty());
            start.lemma_budget();
        }
        if self.input_iter.allowed() == 0 {
            return None;
        }
        loop
            invariant
                start.budget() > 0,
                0 <= taken <= all.len(),
                all.len() <= usize::MAX,
                start == old(self).input_iter,
                all == start.remaining(),
                table == descriptors_view(self.codes@),
                self.codes == old(self).codes,
                self.input_iter.follows(start, taken as int),
                holds_candidates(table, alive@, all.take(taken as int)),
                taken > 0 ==> next_symbol(table, all, 0) == next_symbol(table, all, taken as int),
            decreases all.len() - taken,
        {
            let ghost middle = self.input_iter;
            proof {
                middle.lemma_follows(start, taken as int);
            }
            let bit = match self.input_iter.next() {
                None => {
                    proof {
                        self.input_iter.lemma_follows_twice(middle, start, taken as int, 0);
                    }
                    return Some(Err(Error::of_kind(ErrorKind::TruncatedStream)));
                },
                Some(bit) => bit,
            };
            proof {
                self.input_iter.lemma_follows_twice(middle, start, taken as int, 1);
                assert(bit == all[taken as int]);
                assert(all.take(taken as int).push(bit) =~= all.take(taken + 1));
            }
            let (found, any) = narrow(
                &self.codes,
                &mut alive,
                taken,
                bit,
                Ghost(all.take(taken as int)),
            );
            match found {
                Some(letter) => {
                    return Some(Ok(letter));
                },
                None => {
                    if !any {
                        return Some(Err(Error::of_kind(ErrorKind::UnknownCodeWord)));
                    }
                },
            }
            taken = taken + 1;
        }
    }
}

/// The bits that a reader may read off `bytes`: all their bits, as far as
/// the machine can count them.
pub open spec fn readable_bits(bytes: Seq<u8>) -> Seq<bool> {
    if stream_bits(bytes).len() > usize::MAX {
        stream_bits(bytes).take(usize::MAX as int)
    } else {
        stream_bits(bytes)
    }
}

/// How the start of a block fails, if it does: as corrupt where the header
/// does not parse, and as truncated where the header declares more payload
/// bits than the bytes hold behind it.
pub open spec fn block_failure(bytes: Seq<u8>) -> Option<ErrorKind> {
    match parse_header(readable_bits(bytes)) {
        None => Some(ErrorKind::CorruptHeader),
        Some((header, used)) => if header.bit_size > stream_bits(bytes).len() - used {
            Some(ErrorKind::TruncatedStream)
        } else {
            None
        },
    }
}

/// What the header of a block says.
pub open spec fn block_header(bytes: Seq<u8>) -> HeaderView {
    parse_header(readable_bits(bytes)).unwrap().0
}

/// The number of bits that the header of a block takes.
pub open spec fn block_header_bits(bytes: Seq<u8>) -> int {
    parse_header(readable_bits(bytes)).unwrap().1 as int
}

/// The payload bits of a block: as many as its header declares, where the
/// block does not fail.
pub open spec fn block_payload(bytes: Seq<u8>) -> Seq<bool> {
    stream_bits(bytes).skip(block_header_bits(bytes)).take(block_header(bytes).bit_size as int)
}

/// Starts to read the block with which `input_iter` begins: reads its
/// header, and gives the reader of its payload and its primary index.
/// Nothing where there are no bytes.
pub fn decode<'a>(input_iter: &'a [u8]) -> (block: Option<
    Result<(DecoderIterator<'a>, u32), Error>,
>)
    ensures
        block.is_none() <==> input_iter@.len() == 0,
        block.is_some() ==> (block.unwrap().is_err() <==> block_failure(input_iter@).is_some()),
        block matches Some(Err(error)) ==> block_failure(input_iter@) == Some(error.kind),
        block matches Some(Ok(pair)) ==> pair.1 == block_header(input_iter@).initial,
        block matches Some(Ok(pair)) ==> pair.0.table() == block_header(input_iter@).entries,
        block matches Some(Ok(pair)) ==> pair.0.bits() == block_payload(input_iter@),
        block matches Some(Ok(pair)) ==> pair.0.reader().budget() == block_header(
            input_iter@,
        ).bit_size,
        block matches Some(Ok(pair)) ==> block_payload(input_iter@).len() == block_header(
            input_iter@,
        ).bit_size,
        block matches Some(Ok(pair)) ==> pair.0.reader().source() == input_iter@,
        block matches Some(Ok(pair)) ==> pair.0.reader().pending() == stream_bits(input_iter@).skip(
            block_header_bits(input_iter@),
        ),
{
    if input_iter.len() == 0 {
        return None;
    }
    let mut bit_iter = BitIterator::new(input_iter, usize::MAX);
    let ghost start = bit_iter;
    proof {
        assert(start.remaining() =~= readable_bits(input_iter@));
    }
    let header = match Header::decode(&mut bit_iter) {
        None => {
            return Some(Err(Error::of_kind(ErrorKind::CorruptHeader)));
        },
        Some(header) => header,
    };
    let ghost used = parse_header(readable_bits(input_iter@)).unwrap().1 as int;
    proof {
        bit_iter.lemma_follows(start, used);
        assert(bit_iter.pending() =~= stream_bits(input_iter@).skip(used));
    }
    if !bit_iter.holds(header.bit_size) {
        return Some(Err(Error::of_kind(ErrorKind::TruncatedStream)));
    }
    bit_iter.bit_size(header.bit_size);
    proof {
        assert(bit_iter.remaining() =~= stream_bits(input_iter@).skip(used).take(
            header.bit_size as int,
        ));
    }
    let initial = header.initial;
    let iter = DecoderIterator::new(header.code_descriptors, bit_iter);
    Some(Ok((iter, initial)))
}

} // verus!
