//! Bit patterns of floating-point numbers in the unit range, made from raw
//! words without any division.
//!
//! A pattern made here has the exponent field of the numbers from 1 to 2 and
//! a mantissa of random bits, so it stands for a number `x` with
//! `1 <= x <= 2`; the number meant is `x - 1`, which lies between 0 and 1,
//! both included. One more random bit rounds the mantissa up, which is how
//! the upper end is reached: a mantissa of ones that is rounded up carries
//! into the exponent and gives the pattern of 2. For the signed range a
//! further random bit is the sign.
use crate::gen32::{Gen32, RawGen32};
use vstd::prelude::*;

verus! {

/// The pattern of the `f32` number 1.
pub const F32_ONE: u32 = 0x3f80_0000;

/// The pattern of the `f32` number 2.
pub const F32_TWO: u32 = 0x4000_0000;

/// The pattern of the `f64` number 1.
pub const F64_ONE: u64 = 0x3ff0_0000_0000_0000;

/// The pattern of the `f64` number 2.
pub const F64_TWO: u64 = 0x4000_0000_0000_0000;

/// The `f32` pattern that a raw word gives: the pattern of 1, plus the top 23
/// bits of the word as mantissa, plus the next bit to round it up, and for
/// the signed range the bit after that as the sign.
pub open spec fn f32_pattern(word: u32, unsigned: bool) -> u32 {
    let magnitude = F32_ONE + word / 0x200 + (word / 0x100) % 2;
    if unsigned {
        magnitude as u32
    } else {
        (magnitude + ((word / 0x80) % 2) * 0x8000_0000) as u32
    }
}

/// The `f64` pattern that a 64-bit value gives: the pattern of 1, plus the
/// top 52 bits of the value as mantissa, plus the next bit to round it up,
/// and for the signed range the bit after that as the sign.
pub open spec fn f64_pattern(value: u64, unsigned: bool) -> u64 {
    let magnitude = F64_ONE + value / 0x1000 + (value / 0x800) % 2;
    if unsigned {
        magnitude as u64
    } else {
        (magnitude + ((value / 0x400) % 2) * 0x8000_0000_0000_0000) as u64
    }
}

/// Makes the pattern of an `f32` from one raw word. Without its sign bit the
/// pattern lies between that of 1 and that of 2, so the number less 1 is in
/// the unit range; with `unsigned` the sign bit is never set.
pub fn ieee754_random_f32_bits<G: Gen32>(gen: &mut G, unsigned: bool) -> (bits: u32)
    ensures
        bits == f32_pattern(old(gen).peek(), unsigned),
        *final(gen) == old(gen).advance(),
        F32_ONE <= bits % 0x8000_0000 <= F32_TWO,
        unsigned ==> bits < 0x8000_0000,
{
    let word: u32 = gen.next_u32();
    assert(word >> 9 == word / 0x200 && word >> 9 <= 0x7f_ffff) by (bit_vector);
    assert((word >> 8) & 1 == (word / 0x100) % 2) by (bit_vector);
    assert((word >> 7) & 1 == (word / 0x80) % 2) by (bit_vector);
    let magnitude: u32 = F32_ONE + (word >> 9) + ((word >> 8) & 1);
    if unsigned {
        magnitude
    } else {
        let sign: u32 = (word >> 7) & 1;
        assert(sign << 31 == sign * 0x8000_0000) by (bit_vector)
            requires
                sign <= 1,
        ;
        assert(magnitude | (sign << 31) == magnitude + (sign << 31)) by (bit_vector)
            requires
                magnitude <= 0x4000_0000,
                sign <= 1,
        ;
        magnitude | (sign << 31)
    }
}

/// Makes the pattern of an `f64` from two raw words, the first of which is
/// the low half of the value that is taken apart. Without its sign bit the
/// pattern lies between that of 1 and that of 2, so the number less 1 is in
/// the unit range; with `unsigned` the sign bit is never set.
pub fn ieee754_random_f64_bits<G: Gen32>(gen: &mut G, unsigned: bool) -> (bits: u64)
    ensures
        bits == f64_pattern(
            (old(gen).advance().peek() * 0x1_0000_0000 + old(gen).peek()) as u64,
            unsigned,
        ),
        *final(gen) == old(gen).advance().advance(),
        F64_ONE <= bits % 0x8000_0000_0000_0000 <= F64_TWO,
        unsigned ==> bits < 0x8000_0000_0000_0000,
{
    let value: u64 = gen.next_u64();
    assert(value >> 12 == value / 0x1000 && value >> 12 <= 0xf_ffff_ffff_ffff) by (bit_vector);
    assert((value >> 11) & 1 == (value / 0x800) % 2) by (bit_vector);
    assert((value >> 10) & 1 == (value / 0x400) % 2) by (bit_vector);
    let magnitude: u64 = F64_ONE + (value >> 12) + ((value >> 11) & 1);
    if unsigned {
        magnitude
    } else {
        let sign: u64 = (value >> 10) & 1;
        assert(sign << 63 == sign * 0x8000_0000_0000_0000) by (bit_vector)
            requires
                sign <= 1,
        ;
        assert(magnitude | (sign << 63) == magnitude + (sign << 63)) by (bit_vector)
            requires
                magnitude <= 0x4000_0000_0000_0000,
                sign <= 1,
        ;
        magnitude | (sign << 63)
    }
}

} // verus!
