//! The arithmetic of a bounded draw: which raw words are kept, what value a
//! kept word stands for, and why no value is favoured.
use vstd::arithmetic::div_mod::{
    lemma_fundamental_div_mod, lemma_mod_bound, lemma_mod_sub_multiples_vanish,
};
use vstd::prelude::*;

verus! {

/// Whether a bounded draw keeps the raw word `word`: the low half of the
/// 64-bit product `bound * word` must reach `2^32 mod bound`. The words that
/// are turned away are the ones that would make some results more likely than
/// others.
pub open spec fn accepts(bound: u32, word: u32) -> bool {
    (bound * word) % 0x1_0000_0000 >= 0x1_0000_0000int % (bound as int)
}

/// The result that a kept raw word stands for: the high half of the 64-bit
/// product `bound * word`.
pub open spec fn scaled(bound: u32, word: u32) -> u32 {
    ((bound * word) / 0x1_0000_0000) as u32
}

/// The number of raw words that a draw below `bound` keeps for each of its
/// values: `2^32 / bound`, rounded down.
pub open spec fn words_per_value(bound: u32) -> int {
    0x1_0000_0000int / (bound as int)
}

/// The least raw word that a draw below `bound` keeps for the value `v`: the
/// least `x` whose product with the bound reaches `v * 2^32 + 2^32 mod bound`.
pub open spec fn first_word_for(bound: u32, v: u32) -> int {
    (v * 0x1_0000_0000 + 0x1_0000_0000int % (bound as int) + bound - 1) / (bound as int)
}

/// No value is favoured. The raw words that are kept and stand for the value
/// `v` are consecutive, from `first_word_for` on, and there are
/// `words_per_value` of them, whatever `v` is: with raw words that are all
/// equally likely, so are the values below the bound.
pub proof fn lemma_no_bias(bound: u32, v: u32, word: u32)
    requires
        bound != 0,
        v < bound,
    ensures
        (accepts(bound, word) && scaled(bound, word) == v) <==> (first_word_for(bound, v) <= word
            < first_word_for(bound, v) + words_per_value(bound)),
        0 <= first_word_for(bound, v),
        first_word_for(bound, v) + words_per_value(bound) <= 0x1_0000_0000,
{
    let r = 0x1_0000_0000int;
    let b = bound as int;
    let t = r % b;
    let q = r / b;
    let from = v * r + t;
    let lo = first_word_for(bound, v);
    let p = bound * word;
    lemma_fundamental_div_mod(r, b);
    lemma_mod_bound(r, b);
    lemma_fundamental_div_mod(from + b - 1, b);
    lemma_mod_bound(from + b - 1, b);
    assert(0 <= p) by (nonlinear_arith)
        requires
            p == bound * word,
    ;
    lemma_fundamental_div_mod(p, r);
    lemma_mod_bound(p, r);
    lemma_scaled_below_bound(bound, word);
    // The products of the bound with `lo - 1`, `lo` and `lo + q` lie around
    // the products that are kept for `v`, which are those from `from` up to
    // `from + q * b`, the next multiple of 2^32.
    assert(from <= b * lo < from + b);
    assert(from + b * q == (v + 1) * r) by (nonlinear_arith)
        requires
            r == b * q + t,
            from == v * r + t,
    ;
    assert(b * (lo + q) == b * lo + b * q) by (nonlinear_arith);
    assert(0 <= lo) by (nonlinear_arith)
        requires
            0 <= from <= b * lo,
            0 < b,
    ;
    assert(lo + q <= r) by (nonlinear_arith)
        requires
            b * lo < from + b,
            b * (lo + q) == b * lo + b * q,
            from + b * q == (v + 1) * r,
            v + 1 <= b,
            0 < b,
            0 < r,
    ;
    if accepts(bound, word) && scaled(bound, word) == v {
        assert(p == r * v + p % r);
        assert(from <= p < (v + 1) * r) by (nonlinear_arith)
            requires
                p == r * v + p % r,
                t <= p % r < r,
                from == v * r + t,
        ;
        assert(lo <= word) by (nonlinear_arith)
            requires
                from <= p,
                p == b * word,
                b * lo < from + b,
                0 < b,
        ;
        assert(word < lo + q) by (nonlinear_arith)
            requires
                p < from + b * q,
                p == b * word,
                b * (lo + q) == b * lo + b * q,
                from <= b * lo,
                0 < b,
        ;
    }
    if lo <= word < lo + q {
        assert(from <= p) by (nonlinear_arith)
            requires
                lo <= word,
                p == b * word,
                from <= b * lo,
                0 < b,
        ;
        assert(p < (v + 1) * r) by (nonlinear_arith)
            requires
                word + 1 <= lo + q,
                p == b * word,
                b * (lo + q) == b * lo + b * q,
                b * lo < from + b,
                from + b * q == (v + 1) * r,
                0 < b,
        ;
        assert(p / r == v && p % r == p - v * r) by (nonlinear_arith)
            requires
                v * r + t <= p < (v + 1) * r,
                from == v * r + t,
                0 <= t,
                p == r * (p / r) + p % r,
                0 <= p % r < r,
                0 < r,
        ;
    }
}

/// Every kept word stands for a value below the bound.
pub proof fn lemma_scaled_below_bound(bound: u32, word: u32)
    requires
        bound != 0,
    ensures
        scaled(bound, word) < bound,
        (bound * word) / 0x1_0000_0000 < bound,
{
    assert((bound * word) / 0x1_0000_0000 < bound) by (nonlinear_arith)
        requires
            0 < bound,
            0 <= word < 0x1_0000_0000,
    ;
    assert(0 <= (bound * word) / 0x1_0000_0000) by (nonlinear_arith)
        requires
            0 < bound,
            0 <= word,
    ;
}

/// The product of two 32-bit words fits in 64 bits.
pub proof fn lemma_product_fits(a: u32, b: u32)
    ensures
        0 <= a * b <= u64::MAX,
{
    assert(0 <= a * b <= 0xffff_ffff * 0xffff_ffff) by (nonlinear_arith)
        requires
            0 <= a <= 0xffff_ffff,
            0 <= b <= 0xffff_ffff,
    ;
}

/// Truncating a 64-bit value to 32 bits leaves it modulo 2^32.
pub proof fn lemma_low_half(v: u64)
    ensures
        v as u32 == v % 0x1_0000_0000,
{
    assert(v as u32 == v % 0x1_0000_0000) by (bit_vector);
}

/// Shifting a 64-bit value right by 32 bits divides it by 2^32.
pub proof fn lemma_high_half(v: u64)
    ensures
        v >> 32 == v / 0x1_0000_0000,
        v >> 32 <= u32::MAX,
{
    assert(v >> 32 == v / 0x1_0000_0000) by (bit_vector);
    assert(v >> 32 <= 0xffff_ffff) by (bit_vector);
}

/// The negated bound, reduced modulo the bound, is `2^32 mod bound`.
pub proof fn lemma_threshold(bound: u32)
    requires
        bound != 0,
    ensures
        0u32.wrapping_sub(bound) % bound == 0x1_0000_0000int % (bound as int),
        0x1_0000_0000int % (bound as int) < bound,
{
    let b = bound as int;
    assert(0u32.wrapping_sub(bound) == 0x1_0000_0000 - b);
    lemma_mod_sub_multiples_vanish(0x1_0000_0000, b);
    lemma_mod_bound(0x1_0000_0000, b);
}

} // verus!
