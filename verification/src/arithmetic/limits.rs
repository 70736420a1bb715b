//! The numbers that the coder is built on.

use vstd::prelude::*;

verus! {

/// The number of byte values.
pub const NUMBER_OF_CHARS: usize = 256;

/// The width of a code value in bits.
pub const CODE_VALUE_BITS: i32 = 16;

/// The greatest code value.
pub const CODE_VALUE_MAX: usize = 65535;

/// The first code value of the second quarter of the interval.
pub const CODE_VALUE_FIRST_QUARTER: usize = 16384;

/// The first code value of the upper half of the interval.
pub const CODE_VALUE_HALF: usize = 32768;

/// The first code value of the last quarter of the interval.
pub const CODE_VALUE_THIRD_QUARTER: usize = 49152;

/// The greatest total of the counts; beyond it they are halved.
pub const MAX_FREQUENCY: usize = 16383;

/// The number of the symbol that ends a message.
pub const EOF_SYMBOL: usize = 257;

/// The number of symbols: every byte value and the end of a message.
pub const NUMBER_OF_SYMBOLS: usize = 257;

/// The interval of code values is wide enough to tell all symbols apart:
/// it holds the middle of the range, and reaches into the first or into the
/// last quarter.
pub open spec fn is_interval(low: int, high: int) -> bool {
    &&& 0 <= low < CODE_VALUE_HALF
    &&& CODE_VALUE_HALF <= high <= CODE_VALUE_MAX
    &&& (low < CODE_VALUE_FIRST_QUARTER || high >= CODE_VALUE_THIRD_QUARTER)
}

/// The lower end of the part of the interval that belongs to a symbol whose
/// frequencies above it add up to `symbol_low` of `total`.
pub open spec fn narrowed_low(low: int, high: int, symbol_low: int, total: int) -> int {
    low + (high - low + 1) * symbol_low / total
}

/// The upper end of the part of the interval that belongs to a symbol
/// whose frequencies from it on add up to `symbol_high` of `total`.
pub open spec fn narrowed_high(low: int, high: int, symbol_high: int, total: int) -> int {
    low + (high - low + 1) * symbol_high / total - 1
}

/// The part of an interval that belongs to a symbol lies inside the
/// interval and is not empty.
pub proof fn lemma_narrowed(low: int, high: int, symbol_low: int, symbol_high: int, total: int)
    requires
        0 <= low <= high,
        0 <= symbol_low < symbol_high <= total,
        0 < total <= high - low + 1,
    ensures
        low <= narrowed_low(low, high, symbol_low, total) <= narrowed_high(
            low,
            high,
            symbol_high,
            total,
        ) <= high,
{
    let range = high - low + 1;
    assert(range * symbol_low >= 0) by (nonlinear_arith)
        requires
            range >= 0,
            symbol_low >= 0,
    ;
    assert(range * symbol_high <= range * total) by (nonlinear_arith)
        requires
            range >= 0,
            symbol_high <= total,
    ;
    assert(range * symbol_low + total <= range * symbol_high) by (nonlinear_arith)
        requires
            range >= total,
            symbol_low + 1 <= symbol_high,
            total > 0,
    ;
    vstd::arithmetic::div_mod::lemma_div_pos_is_pos(range * symbol_low, total);
    vstd::arithmetic::div_mod::lemma_div_is_ordered(range * symbol_high, range * total, total);
    vstd::arithmetic::div_mod::lemma_div_multiples_vanish(range, total);
    vstd::arithmetic::div_mod::lemma_div_is_ordered(
        range * symbol_low + total,
        range * symbol_high,
        total,
    );
    vstd::arithmetic::div_mod::lemma_div_plus_one(range * symbol_low, total);
    assert(range * total == total * range) by (nonlinear_arith);
}

/// How far a code value that lies in the interval stands above the frequency
/// sums: the sum below which the symbol of the code value is looked for.
pub open spec fn target(low: int, high: int, code_value: int, total: int) -> int {
    ((code_value - low + 1) * total - 1) / (high - low + 1)
}

/// The sum that belongs to a code value of the interval is below the total.
pub proof fn lemma_target(low: int, high: int, code_value: int, total: int)
    requires
        0 <= low <= code_value <= high,
        0 < total,
    ensures
        0 <= target(low, high, code_value, total) < total,
{
    let range = high - low + 1;
    let v = code_value - low + 1;
    assert(v * total >= 1) by (nonlinear_arith)
        requires
            v >= 1,
            total >= 1,
    ;
    assert(v * total - 1 < total * range) by (nonlinear_arith)
        requires
            v <= range,
            total >= 1,
    ;
    vstd::arithmetic::div_mod::lemma_div_pos_is_pos(v * total - 1, range);
    vstd::arithmetic::div_mod::lemma_div_by_multiple_is_strongly_ordered(
        v * total - 1,
        total * range,
        total,
        range,
    );
    vstd::arithmetic::div_mod::lemma_div_multiples_vanish(total, range);
}

/// A code value lies in the part of the interval of the symbol between
/// whose sums its own sum lies.
pub proof fn lemma_target_narrowed(
    low: int,
    high: int,
    code_value: int,
    symbol_low: int,
    symbol_high: int,
    total: int,
)
    requires
        0 <= low <= code_value <= high,
        0 < total,
        0 <= symbol_low <= target(low, high, code_value, total) < symbol_high,
    ensures
        narrowed_low(low, high, symbol_low, total) <= code_value <= narrowed_high(
            low,
            high,
            symbol_high,
            total,
        ),
{
    let range = high - low + 1;
    let v = code_value - low + 1;
    let x = v * total - 1;
    let cum = x / range;
    vstd::arithmetic::div_mod::lemma_fundamental_div_mod(x, range);
    vstd::arithmetic::div_mod::lemma_mod_bound(x, range);
    // range * symbol_low <= range * cum <= x < v * total
    assert(range * symbol_low <= range * cum) by (nonlinear_arith)
        requires
            symbol_low <= cum,
            range >= 0,
    ;
    assert(range * symbol_low < v * total);
    assert(range * symbol_low / total < v) by {
        vstd::arithmetic::div_mod::lemma_div_by_multiple_is_strongly_ordered(
            range * symbol_low,
            v * total,
            v,
            total,
        );
        vstd::arithmetic::div_mod::lemma_div_multiples_vanish(v, total);
        assert(v * total == total * v) by (nonlinear_arith);
    }
    // range * symbol_high >= range * (cum + 1) > x, so >= v * total
    assert(range * symbol_high >= range * (cum + 1)) by (nonlinear_arith)
        requires
            symbol_high >= cum + 1,
            range >= 0,
    ;
    assert(range * (cum + 1) == range * cum + range) by (nonlinear_arith);
    assert(range * symbol_high >= v * total);
    assert(range * symbol_high / total >= v) by {
        vstd::arithmetic::div_mod::lemma_div_is_ordered(v * total, range * symbol_high, total);
        vstd::arithmetic::div_mod::lemma_div_multiples_vanish(v, total);
        assert(v * total == total * v) by (nonlinear_arith);
    }
}

/// Two to the power `count`, as far as the coder counts.
pub open spec fn doubled(count: int) -> int {
    if count <= 0 {
        1
    } else if count == 1 {
        2
    } else if count == 2 {
        4
    } else if count == 3 {
        8
    } else if count == 4 {
        16
    } else if count == 5 {
        32
    } else if count == 6 {
        64
    } else if count == 7 {
        128
    } else if count == 8 {
        256
    } else if count == 9 {
        512
    } else if count == 10 {
        1024
    } else if count == 11 {
        2048
    } else if count == 12 {
        4096
    } else if count == 13 {
        8192
    } else if count == 14 {
        16384
    } else if count == 15 {
        32768
    } else if count == 16 {
        65536
    } else {
        131072
    }
}

} // verus!
