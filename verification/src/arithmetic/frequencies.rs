//! The adaptive model: the frequency of each symbol so far.

use crate::arithmetic::limits::{MAX_FREQUENCY, NUMBER_OF_CHARS, NUMBER_OF_SYMBOLS};
use vstd::prelude::*;

verus! {

/// The model of the coder. Symbol numbers run from 1 to 257: 1 to 256 for
/// the bytes, in an order that changes as the frequencies change, and 257
/// for the end of the message.
pub struct Frequencies {
    /// For each byte its symbol number.
    pub char_to_index: Vec<usize>,
    /// For each symbol number its byte; 256 for the end of the message.
    pub index_to_char: Vec<i32>,
    /// For each symbol number its frequency.
    pub frequencies: Vec<usize>,
    /// For each symbol number the sum of the frequencies of the symbols
    /// with greater numbers.
    pub cumulative: Vec<usize>,
}

/// The sum of the frequencies of the symbols with numbers above `index`.
pub open spec fn sum_above(frequencies: Seq<usize>, index: int) -> int
    decreases NUMBER_OF_SYMBOLS - index,
{
    if index >= NUMBER_OF_SYMBOLS {
        0
    } else {
        frequencies[index + 1] + sum_above(frequencies, index + 1)
    }
}

/// The frequencies when each is halved, rounding up.
pub open spec fn halved(frequencies: Seq<usize>) -> Seq<usize> {
    Seq::new(frequencies.len(), |i: int| ((frequencies[i] + 1) / 2) as usize)
}

/// The number at which the symbol with number `index` settles before its
/// frequency grows: the least number whose symbols up to `index` all have
/// the frequency of `index`.
pub open spec fn settled_index(frequencies: Seq<usize>, index: int) -> int
    decreases index,
{
    if index >= 1 && frequencies[index] == frequencies[index - 1] {
        settled_index(frequencies, index - 1)
    } else {
        index
    }
}

/// What the model holds, as mathematics: the frequencies, and for each
/// symbol number its byte. The sums and the symbol numbers of the bytes
/// follow from these.
pub struct Model {
    pub frequencies: Seq<usize>,
    pub index_to_char: Seq<i32>,
}

/// The model at the start: each byte has the number behind its value and,
/// like the end of the message, the frequency 1.
pub open spec fn initial_model() -> Model {
    Model {
        frequencies: Seq::new(
            (NUMBER_OF_SYMBOLS + 1) as nat,
            |i: int|
                if i == 0 {
                    0usize
                } else {
                    1usize
                },
        ),
        index_to_char: Seq::new((NUMBER_OF_SYMBOLS + 1) as nat, |i: int| (i - 1) as i32),
    }
}

/// The model once one more occurrence of the symbol with number `symbol` is
/// counted. Where the sum of the frequencies has reached its limit, all
/// are halved first, rounding up. The symbol changes places with the first
/// symbol of its frequency, and its frequency grows by one.
pub open spec fn updated(model: Model, symbol: int) -> Model {
    let base = if sum_above(model.frequencies, 0) == MAX_FREQUENCY {
        halved(model.frequencies)
    } else {
        model.frequencies
    };
    let place = settled_index(base, symbol);
    Model {
        frequencies: base.update(place, (base[place] + 1) as usize),
        index_to_char: model.index_to_char.update(place, model.index_to_char[symbol]).update(
            symbol,
            model.index_to_char[place],
        ),
    }
}

/// The symbol number of a byte.
pub open spec fn symbol_of(model: Model, byte: u8) -> int {
    choose|i: int| 1 <= i <= NUMBER_OF_CHARS && model.index_to_char[i] == byte
}

impl Frequencies {
    /// What the model holds.
    pub open spec fn model(self) -> Model {
        Model { frequencies: self.frequencies@, index_to_char: self.index_to_char@ }
    }

    /// The model is consistent.
    pub open spec fn wf(self) -> bool {
        &&& self.char_to_index.len() == NUMBER_OF_CHARS
        &&& self.index_to_char.len() == NUMBER_OF_SYMBOLS + 1
        &&& self.frequencies.len() == NUMBER_OF_SYMBOLS + 1
        &&& self.cumulative.len() == NUMBER_OF_SYMBOLS + 1
        &&& self.frequencies[0] == 0
        &&& forall|i: int| 1 <= i <= NUMBER_OF_SYMBOLS ==> #[trigger] self.frequencies[i] >= 1
        &&& forall|i: int|
            0 <= i <= NUMBER_OF_SYMBOLS ==> #[trigger] self.cumulative[i] == sum_above(
                self.frequencies@,
                i,
            )
        &&& self.cumulative[0] <= MAX_FREQUENCY
        &&& forall|c: int|
            0 <= c < NUMBER_OF_CHARS ==> 1 <= #[trigger] self.char_to_index[c] <= NUMBER_OF_CHARS
                && self.index_to_char[self.char_to_index[c] as int] == c
        &&& forall|i: int|
            1 <= i <= NUMBER_OF_CHARS ==> 0 <= #[trigger] self.index_to_char[i] < NUMBER_OF_CHARS
                && self.char_to_index[self.index_to_char[i] as int] == i
    }

    /// The model at the start: each byte has the number behind its value
    /// and, like the end of the message, the frequency 1.
    pub fn new() -> (model: Frequencies)
        ensures
            model.wf(),
            model.model() == initial_model(),
            forall|c: int| 0 <= c < NUMBER_OF_CHARS ==> #[trigger] model.char_to_index[c] == c + 1,
            forall|i: int|
                0 <= i <= NUMBER_OF_SYMBOLS ==> #[trigger] model.cumulative[i] == NUMBER_OF_SYMBOLS
                    - i,
    {
        let mut char_to_index: Vec<usize> = Vec::new();
        let mut i: usize = 0;
        while i < NUMBER_OF_CHARS
            invariant
                i <= NUMBER_OF_CHARS,
                char_to_index.len() == i,
                forall|c: int| 0 <= c < i ==> #[trigger] char_to_index[c] == c + 1,
            decreases NUMBER_OF_CHARS - i,
        {
            char_to_index.push(i + 1);
            i += 1;
        }
        let mut index_to_char: Vec<i32> = Vec::new();
        let mut frequencies: Vec<usize> = Vec::new();
        let mut cumulative: Vec<usize> = Vec::new();
        let mut i: usize = 0;
        while i < NUMBER_OF_SYMBOLS + 1
            invariant
                i <= NUMBER_OF_SYMBOLS + 1,
                index_to_char.len() == i,
                frequencies.len() == i,
                cumulative.len() == i,
                forall|k: int| 0 <= k < i ==> #[trigger] index_to_char[k] == k - 1,
                forall|k: int| 1 <= k < i ==> #[trigger] frequencies[k] == 1,
                i > 0 ==> frequencies[0] == 0,
                forall|k: int| 0 <= k < i ==> #[trigger] cumulative[k] == NUMBER_OF_SYMBOLS - k,
            decreases NUMBER_OF_SYMBOLS + 1 - i,
        {
            index_to_char.push(i as i32 - 1);
            frequencies.push(
                if i == 0 {
                    0
                } else {
                    1
                },
            );
            cumulative.push(NUMBER_OF_SYMBOLS - i);
            i += 1;
        }
        let model = Frequencies { char_to_index, index_to_char, frequencies, cumulative };
        proof {
            assert forall|i: int| 0 <= i <= NUMBER_OF_SYMBOLS implies sum_above(
                model.frequencies@,
                i,
            ) == NUMBER_OF_SYMBOLS - i by {
                lemma_sum_of_ones(model.frequencies@, i);
            }
            assert(model.frequencies@ =~= initial_model().frequencies);
            assert(model.index_to_char@ =~= initial_model().index_to_char);
        }
        model
    }

    /// The sum of all frequencies.
    pub fn get_total(&self) -> (total: usize)
        requires
            self.wf(),
        ensures
            total == self.cumulative[0],
            total == sum_above(self.frequencies@, 0),
            NUMBER_OF_SYMBOLS <= total <= MAX_FREQUENCY,
    {
        proof {
            lemma_sum_at_least(self.frequencies@, 0);
        }
        self.cumulative[0]
    }

    /// The sum of the frequencies of the symbols above `symbol_index`.
    pub fn get_low(&self, symbol_index: usize) -> (low: usize)
        requires
            self.wf(),
            symbol_index <= NUMBER_OF_SYMBOLS,
        ensures
            low == sum_above(self.frequencies@, symbol_index as int),
    {
        self.cumulative[symbol_index]
    }

    /// The sum of the frequencies of the symbols from `symbol_index` on.
    pub fn get_high(&self, symbol_index: usize) -> (high: usize)
        requires
            self.wf(),
            1 <= symbol_index <= NUMBER_OF_SYMBOLS,
        ensures
            high == sum_above(self.frequencies@, symbol_index - 1),
            high == sum_above(self.frequencies@, symbol_index as int)
                + self.frequencies[symbol_index as int],
            high <= self.cumulative[0],
    {
        proof {
            lemma_sum_falls(self.frequencies@, 0, symbol_index - 1);
        }
        self.cumulative[symbol_index - 1]
    }

    /// The byte of a symbol.
    pub fn index_to_char(&self, symbol_index: usize) -> (char: i32)
        requires
            self.wf(),
            symbol_index <= NUMBER_OF_SYMBOLS,
        ensures
            char == self.index_to_char[symbol_index as int],
            1 <= symbol_index <= NUMBER_OF_CHARS ==> 0 <= char < NUMBER_OF_CHARS,
    {
        self.index_to_char[symbol_index]
    }

    /// The symbol of a byte.
    pub fn char_to_index(&self, char: usize) -> (symbol_index: usize)
        requires
            self.wf(),
            char < NUMBER_OF_CHARS,
        ensures
            symbol_index == self.char_to_index[char as int],
            symbol_index == symbol_of(self.model(), char as u8),
            1 <= symbol_index <= NUMBER_OF_CHARS,
    {
        proof {
            let found = self.char_to_index[char as int] as int;
            assert(self.index_to_char[found] == char);
            let chosen = symbol_of(self.model(), char as u8);
            assert(1 <= chosen <= NUMBER_OF_CHARS && self.index_to_char[chosen] == char);
            assert(self.char_to_index[self.index_to_char[chosen] as int] == chosen);
        }
        self.char_to_index[char]
    }

    /// Halves all frequencies, rounding up, and sums them anew.
    fn halve(&mut self)
        requires
            old(self).wf(),
        ensures
            final(self).wf(),
            final(self).frequencies@ == halved(old(self).frequencies@),
            final(self).char_to_index == old(self).char_to_index,
            final(self).index_to_char == old(self).index_to_char,
            2 * final(self).cumulative[0] <= old(self).cumulative[0] + NUMBER_OF_SYMBOLS + 1,
    {
        let ghost before = self.frequencies@;
        let mut cum: usize = 0;
        let mut i: usize = NUMBER_OF_SYMBOLS + 1;
        while i > 0
            invariant
                i <= NUMBER_OF_SYMBOLS + 1,
                before == old(self).frequencies@,
                old(self).wf(),
                self.char_to_index == old(self).char_to_index,
                self.index_to_char == old(self).index_to_char,
                self.frequencies.len() == NUMBER_OF_SYMBOLS + 1,
                self.cumulative.len() == NUMBER_OF_SYMBOLS + 1,
                forall|k: int| 0 <= k < i ==> #[trigger] self.frequencies[k] == before[k],
                forall|k: int|
                    i <= k <= NUMBER_OF_SYMBOLS ==> #[trigger] self.frequencies[k] == (before[k]
                        + 1) / 2,
                forall|k: int|
                    i <= k <= NUMBER_OF_SYMBOLS ==> #[trigger] self.cumulative[k] == sum_above(
                        self.frequencies@,
                        k,
                    ),
                i <= NUMBER_OF_SYMBOLS ==> cum == sum_above(self.frequencies@, i - 1),
                i == NUMBER_OF_SYMBOLS + 1 ==> cum == 0,
                2 * cum <= sum_above(before, i - 1) + (NUMBER_OF_SYMBOLS + 1 - i),
                sum_above(before, i - 1) <= MAX_FREQUENCY || i == 0,
            decreases i,
        {
            i -= 1;
            let ghost previous = self.frequencies@;
            proof {
                lemma_sum_falls(before, 0, i as int);
                if i > 0 {
                    lemma_sum_falls(before, 0, i - 1);
                }
            }
            let halved_frequency = (self.frequencies[i] + 1) / 2;
            self.frequencies.set(i, halved_frequency);
            self.cumulative.set(i, cum);
            proof {
                assert forall|k: int| i <= k <= NUMBER_OF_SYMBOLS implies sum_above(
                    self.frequencies@,
                    k,
                ) == sum_above(previous, k) by {
                    lemma_sum_above_same(previous, self.frequencies@, k, i as int);
                }
            }
            cum = cum + halved_frequency;
            proof {
                if i > 0 {
                    lemma_sum_above_same(previous, self.frequencies@, i as int, i as int);
                    assert(sum_above(self.frequencies@, i - 1) == self.frequencies[i as int]
                        + sum_above(self.frequencies@, i as int));
                }
            }
        }
        proof {
            assert(self.frequencies@ =~= halved(before));
            lemma_sum_at_least(before, 0);
        }
    }

    /// Counts one more occurrence of the symbol with number `symbol_index`.
    /// Where the sum of the frequencies has reached its limit, all are
    /// halved first. The symbol changes places with the first symbol of the
    /// same frequency, so that the numbers stay in the order of falling
    /// frequency.
    pub fn update(&mut self, symbol_index: usize)
        requires
            old(self).wf(),
            1 <= symbol_index <= NUMBER_OF_CHARS,
        ensures
            final(self).wf(),
            final(self).model() == updated(old(self).model(), symbol_index as int),
    {
        let ghost chars = self.index_to_char@;
        if self.get_total() == MAX_FREQUENCY {
            self.halve();
        }
        let ghost base = self.frequencies@;
        let new_symbol_index = self.update_symbol_index_if_needed(symbol_index);
        let ghost swapped = *self;
        proof {
            lemma_sum_falls(base, 0, new_symbol_index as int);
            lemma_sum_falls(base, 0, new_symbol_index - 1);
            lemma_sum_at_least(base, 0);
            assert(sum_above(base, new_symbol_index - 1) == base[new_symbol_index as int]
                + sum_above(base, new_symbol_index as int));
        }
        let bumped = self.frequencies[new_symbol_index] + 1;
        self.frequencies.set(new_symbol_index, bumped);
        let mut index_to_update: usize = new_symbol_index;
        proof {
            assert forall|k: int| new_symbol_index <= k <= NUMBER_OF_SYMBOLS implies sum_above(
                self.frequencies@,
                k,
            ) == sum_above(base, k) by {
                lemma_sum_above_same(base, self.frequencies@, k, new_symbol_index as int);
            }
            assert forall|k: int| 0 <= k < new_symbol_index implies sum_above(
                self.frequencies@,
                k,
            ) == sum_above(base, k) + 1 by {
                lemma_sum_above_bumped(base, self.frequencies@, k, new_symbol_index as int);
            }
        }
        while index_to_update > 0
            invariant
                index_to_update <= new_symbol_index <= NUMBER_OF_CHARS,
                swapped.wf(),
                base == swapped.frequencies@,
                self.frequencies@ == base.update(new_symbol_index as int, (base[new_symbol_index as int] + 1) as usize),
                self.char_to_index == swapped.char_to_index,
                self.index_to_char == swapped.index_to_char,
                self.cumulative.len() == NUMBER_OF_SYMBOLS + 1,
                swapped.cumulative[0] < MAX_FREQUENCY,
                forall|k: int|
                    0 <= k <= NUMBER_OF_SYMBOLS ==> sum_above(self.frequencies@, k) == sum_above(
                        base,
                        k,
                    ) + if k < new_symbol_index {
                        1int
                    } else {
                        0int
                    },
                forall|k: int|
                    0 <= k < index_to_update ==> #[trigger] self.cumulative[k] == sum_above(
                        base,
                        k,
                    ),
                forall|k: int|
                    index_to_update <= k <= NUMBER_OF_SYMBOLS ==> #[trigger] self.cumulative[k]
                        == sum_above(self.frequencies@, k),
            decreases index_to_update,
        {
            index_to_update -= 1;
            proof {
                lemma_sum_falls(base, 0, index_to_update as int);
            }
            let raised = self.cumulative[index_to_update] + 1;
            self.cumulative.set(index_to_update, raised);
        }
    }

    /// Gives the symbol with number `symbol_index` the least number among
    /// the symbols of its frequency: it changes places with the symbol that
    /// had that number. The new number is returned.
    pub fn update_symbol_index_if_needed(&mut self, symbol_index: usize) -> (new_symbol_index:
        usize)
        requires
            old(self).wf(),
            1 <= symbol_index <= NUMBER_OF_CHARS,
        ensures
            final(self).wf(),
            new_symbol_index == settled_index(old(self).frequencies@, symbol_index as int),
            1 <= new_symbol_index <= symbol_index,
            final(self).frequencies == old(self).frequencies,
            final(self).cumulative == old(self).cumulative,
            final(self).index_to_char@ == old(self).index_to_char@.update(
                new_symbol_index as int,
                old(self).index_to_char[symbol_index as int],
            ).update(symbol_index as int, old(self).index_to_char[new_symbol_index as int]),
    {
        let mut new_symbol_index = symbol_index;
        while self.frequencies[new_symbol_index] == self.frequencies[new_symbol_index - 1]
            invariant
                1 <= new_symbol_index <= symbol_index <= NUMBER_OF_CHARS,
                *self == *old(self),
                self.wf(),
                settled_index(self.frequencies@, symbol_index as int) == settled_index(
                    self.frequencies@,
                    new_symbol_index as int,
                ),
            decreases new_symbol_index,
        {
            new_symbol_index -= 1;
        }
        if new_symbol_index < symbol_index {
            let new_char = self.index_to_char[new_symbol_index];
            let old_char = self.index_to_char[symbol_index];
            self.index_to_char.set(new_symbol_index, old_char);
            self.index_to_char.set(symbol_index, new_char);
            self.char_to_index.set(new_char as usize, symbol_index);
            self.char_to_index.set(old_char as usize, new_symbol_index);
            proof {
                assert forall|c: int| 0 <= c < NUMBER_OF_CHARS implies 1
                    <= #[trigger] self.char_to_index[c] <= NUMBER_OF_CHARS
                    && self.index_to_char[self.char_to_index[c] as int] == c by {
                    assert(1 <= old(self).char_to_index[c] <= NUMBER_OF_CHARS);
                }
                assert forall|i: int| 1 <= i <= NUMBER_OF_CHARS implies 0
                    <= #[trigger] self.index_to_char[i] < NUMBER_OF_CHARS
                    && self.char_to_index[self.index_to_char[i] as int] == i by {
                    assert(0 <= old(self).index_to_char[i] < NUMBER_OF_CHARS);
                }
            }
        } else {
            assert(self.index_to_char@ =~= old(self).index_to_char@.update(
                new_symbol_index as int,
                old(self).index_to_char[symbol_index as int],
            ).update(symbol_index as int, old(self).index_to_char[new_symbol_index as int]));
        }
        new_symbol_index
    }
}

/// Where every count is one, the counts above a place sum to the number of
/// symbols above it.
pub proof fn lemma_sum_of_ones(frequencies: Seq<usize>, index: int)
    requires
        0 <= index <= NUMBER_OF_SYMBOLS,
        forall|i: int| 1 <= i <= NUMBER_OF_SYMBOLS ==> #[trigger] frequencies[i] == 1,
    ensures
        sum_above(frequencies, index) == NUMBER_OF_SYMBOLS - index,
    decreases NUMBER_OF_SYMBOLS - index,
{
    if index < NUMBER_OF_SYMBOLS {
        lemma_sum_of_ones(frequencies, index + 1);
    }
}

/// Frequencies of one or more add up to at least their number.
pub proof fn lemma_sum_at_least(frequencies: Seq<usize>, index: int)
    requires
        0 <= index <= NUMBER_OF_SYMBOLS,
        forall|i: int| 1 <= i <= NUMBER_OF_SYMBOLS ==> #[trigger] frequencies[i] >= 1,
    ensures
        sum_above(frequencies, index) >= NUMBER_OF_SYMBOLS - index,
    decreases NUMBER_OF_SYMBOLS - index,
{
    if index < NUMBER_OF_SYMBOLS {
        lemma_sum_at_least(frequencies, index + 1);
    }
}

/// The sums fall as the numbers rise.
pub proof fn lemma_sum_falls(frequencies: Seq<usize>, low: int, high: int)
    requires
        0 <= low <= high <= NUMBER_OF_SYMBOLS,
    ensures
        sum_above(frequencies, high) <= sum_above(frequencies, low),
        0 <= sum_above(frequencies, high),
    decreases NUMBER_OF_SYMBOLS - low,
{
    if low < high {
        lemma_sum_falls(frequencies, low + 1, high);
    } else {
        lemma_sum_nonnegative(frequencies, high);
    }
}

/// A sum of counts is never negative.
pub proof fn lemma_sum_nonnegative(frequencies: Seq<usize>, index: int)
    ensures
        0 <= sum_above(frequencies, index),
    decreases NUMBER_OF_SYMBOLS - index,
{
    if index < NUMBER_OF_SYMBOLS {
        lemma_sum_nonnegative(frequencies, index + 1);
    }
}

/// A sum does not depend on the frequencies at and below its number.
pub proof fn lemma_sum_above_same(a: Seq<usize>, b: Seq<usize>, index: int, changed: int)
    requires
        changed <= index,
        forall|k: int| changed < k <= NUMBER_OF_SYMBOLS ==> a[k] == b[k],
    ensures
        sum_above(a, index) == sum_above(b, index),
    decreases NUMBER_OF_SYMBOLS - index,
{
    if index < NUMBER_OF_SYMBOLS {
        lemma_sum_above_same(a, b, index + 1, changed);
    }
}

/// A sum grows by one where one frequency above its number grows by one.
pub proof fn lemma_sum_above_bumped(a: Seq<usize>, b: Seq<usize>, index: int, changed: int)
    requires
        0 <= index < changed <= NUMBER_OF_SYMBOLS,
        forall|k: int| 0 <= k <= NUMBER_OF_SYMBOLS && k != changed ==> a[k] == b[k],
        b[changed] == a[changed] + 1,
    ensures
        sum_above(b, index) == sum_above(a, index) + 1,
    decreases NUMBER_OF_SYMBOLS - index,
{
    if index + 1 < changed {
        lemma_sum_above_bumped(a, b, index + 1, changed);
    } else {
        lemma_sum_above_same(a, b, index + 1, changed);
    }
}

} // verus!
