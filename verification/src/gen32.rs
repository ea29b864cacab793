//! What any generator of 32-bit words offers, derived from the one operation
//! that produces the next raw word.
use crate::bounded::{
    accepts, lemma_high_half, lemma_low_half, lemma_product_fits, lemma_scaled_below_bound,
    lemma_threshold,
};
use crate::shuffling::{
    lemma_shuffle_kept_within_settles, lemma_swapped_multiset, shuffle_bound,
    shuffle_kept_within, shuffle_settles, shuffled_from, swapped,
};
use crate::stream::{
    advance_by, bounded_state, bounded_value, first_kept_at, kept_within, lemma_rejections,
    lemma_rejections_unique, rejections, settles, word_at,
};
use vstd::prelude::*;

verus! {

/// The length of a sequence as a bound on its indices: itself while it fits in
/// 32 bits, and the largest 32-bit value from there on.
pub open spec fn clamped_len(len: nat) -> u32 {
    if len <= u32::MAX {
        len as u32
    } else {
        u32::MAX
    }
}

/// Converts the `usize` into a `u32`, or gives `u32::MAX` if that wouldn't fit.
pub fn saturating_usize_as_u32(val: usize) -> (r: u32)
    ensures
        r == clamped_len(val as nat),
{
    if val <= u32::MAX as usize {
        val as u32
    } else {
        u32::MAX
    }
}

/// `<[T]>::swap` of std: exchanges the elements at the two indices and leaves
/// the others. It panics on an index out of bounds, which `requires` leaves
/// out.
pub assume_specification<E>[ <[E]>::swap ](slice: &mut [E], a: usize, b: usize)
    requires
        a < old(slice)@.len(),
        b < old(slice)@.len(),
    ensures
        final(slice)@ == swapped(old(slice)@, a as int, b as int),
;

/// The one operation that a generator has to supply: the next raw word.
///
/// A generator is a value that determines the word it gives next and the
/// generator it then becomes. An implementation names the two, as `peek` and
/// `advance`, and `next_u32` is held to them; every other operation is stated
/// over them, so that what it returns and where it leaves the generator is
/// known from the generator it began with.
pub trait RawGen32: Sized {
    /// The word that the next call of `next_u32` returns.
    spec fn peek(&self) -> u32;

    /// The generator as it is after that call.
    spec fn advance(&self) -> Self;

    /// Generates the next 32 bits of output.
    fn next_u32(&mut self) -> (r: u32)
        ensures
            r == old(self).peek(),
            *final(self) == old(self).advance(),
    ;
}

/// A generator with 32 bits of output per step, and all that follows from
/// such a step alone.
pub trait Gen32: RawGen32 {
    /// Produce a `bool`: whether the top bit of the next word is set.
    fn next_bool(&mut self) -> (r: bool)
        ensures
            r == (old(self).peek() >= 0x8000_0000u32),
            *final(self) == old(self).advance(),
    {
        self.next_u32() >= 0x8000_0000u32
    }

    /// Produce a `u8`: the highest 8 bits of the next word.
    fn next_u8(&mut self) -> (r: u8)
        ensures
            r == old(self).peek() / 0x100_0000,
            *final(self) == old(self).advance(),
    {
        let x: u32 = self.next_u32();
        assert(x >> 24 == x / 0x100_0000 && x >> 24 <= 0xff) by (bit_vector);
        (x >> 24) as u8
    }

    /// Produce a `u16`: the highest 16 bits of the next word.
    fn next_u16(&mut self) -> (r: u16)
        ensures
            r == old(self).peek() / 0x1_0000,
            *final(self) == old(self).advance(),
    {
        let x: u32 = self.next_u32();
        assert(x >> 16 == x / 0x1_0000 && x >> 16 <= 0xffff) by (bit_vector);
        (x >> 16) as u16
    }

    /// Produce a `u64` from two words: the first is its low half, the second
    /// its high half.
    fn next_u64(&mut self) -> (r: u64)
        ensures
            r == old(self).advance().peek() * 0x1_0000_0000 + old(self).peek(),
            *final(self) == old(self).advance().advance(),
    {
        let l: u64 = self.next_u32() as u64;
        let h: u64 = self.next_u32() as u64;
        assert(h << 32 | l == h * 0x1_0000_0000 + l) by (bit_vector)
            requires
                h <= 0xffff_ffff,
                l <= 0xffff_ffff,
        ;
        h << 32 | l
    }

    /// Gives a value within `0 .. b`, each as likely as the others where the
    /// raw words are (see `lemma_no_bias`).
    ///
    /// The raw word `x` is scaled to the high half of the 64-bit product
    /// `b * x`. A word whose low half falls under `2^32 mod b` is turned away
    /// and another is drawn, so the call comes to an end only on a stream in
    /// which some word is kept: that is `settles`. For a bound that divides
    /// 2^32 every word is kept (see `lemma_dividing_bound_settles`); for
    /// another, `next_bounded_within` on the generator or on a copy of it
    /// shows it.
    fn next_bounded(&mut self, b: u32) -> (r: u32)
        requires
            b != 0,
            settles(*old(self), b),
        ensures
            r == bounded_value(*old(self), b),
            *final(self) == bounded_state(*old(self), b),
            r < b,
    {
        let ghost start = *self;
        let ghost mut turned_away: nat = 0;
        let mut x: u64 = self.next_u32() as u64;
        proof {
            lemma_rejections(start, b);
            lemma_product_fits(b, x as u32);
            assert(advance_by(start, 0) == start);
            assert(advance_by(start, 1) == advance_by(start, 0).advance());
        }
        let mut mul: u64 = (b as u64) * x;
        let mut low: u32 = #[verifier::truncate] (mul as u32);
        proof {
            lemma_low_half(mul);
        }
        if low < b {
            let threshold: u32 = 0u32.wrapping_sub(b) % b;
            proof {
                lemma_threshold(b);
            }
            while low < threshold
                invariant
                    b != 0,
                    threshold == 0x1_0000_0000int % (b as int),
                    first_kept_at(start, b, rejections(start, b)),
                    turned_away <= rejections(start, b),
                    forall|j: nat| j < turned_away ==> !accepts(b, #[trigger] word_at(start, j)),
                    x == word_at(start, turned_away),
                    *self == advance_by(start, turned_away + 1),
                    mul == b * x,
                    low == mul % 0x1_0000_0000,
                decreases rejections(start, b) - turned_away,
            {
                proof {
                    assert(!accepts(b, word_at(start, turned_away)));
                    turned_away = turned_away + 1;
                }
                x = self.next_u32() as u64;
                proof {
                    lemma_product_fits(b, x as u32);
                }
                mul = (b as u64) * x;
                low = #[verifier::truncate] (mul as u32);
                proof {
                    lemma_low_half(mul);
                }
            }
        }
        proof {
            assert(accepts(b, word_at(start, turned_away)));
            lemma_rejections_unique(start, b, turned_away);
            lemma_scaled_below_bound(b, x as u32);
            lemma_high_half(mul);
        }
        let high: u32 = (mul >> 32) as u32;
        high
    }

    /// Gives a value within `0 .. b` as `next_bounded` does, but draws no
    /// more than `patience` words: where none of them is kept, and where `b`
    /// is 0, there is no value. This is the draw for a caller who does not
    /// know that `next_bounded` would come to an end, and on a copy of the
    /// generator it is the way to find out.
    fn next_bounded_within(&mut self, b: u32, patience: u32) -> (r: Option<u32>)
        ensures
            r is Some <==> b != 0 && kept_within(*old(self), b, patience as nat),
            r matches Some(v) ==> {
                &&& settles(*old(self), b)
                &&& rejections(*old(self), b) < patience
                &&& v == bounded_value(*old(self), b)
                &&& v < b
                &&& *final(self) == bounded_state(*old(self), b)
            },
            r is None ==> *final(self) == advance_by(
                *old(self),
                if b == 0 {
                    0
                } else {
                    patience as nat
                },
            ),
    {
        let ghost start = *self;
        if b == 0 {
            return None;
        }
        let threshold: u32 = 0u32.wrapping_sub(b) % b;
        let mut tried: u32 = 0;
        proof {
            lemma_threshold(b);
        }
        while tried < patience
            invariant
                b != 0,
                threshold == 0x1_0000_0000int % (b as int),
                tried <= patience,
                start == *old(self),
                forall|j: nat| j < tried ==> !accepts(b, #[trigger] word_at(start, j)),
                *self == advance_by(start, tried as nat),
            decreases patience - tried,
        {
            let x: u64 = self.next_u32() as u64;
            proof {
                lemma_product_fits(b, x as u32);
            }
            let mul: u64 = (b as u64) * x;
            let low: u32 = #[verifier::truncate] (mul as u32);
            proof {
                lemma_low_half(mul);
                lemma_high_half(mul);
                assert(x == word_at(start, tried as nat));
                assert(advance_by(start, (tried + 1) as nat) == advance_by(
                    start,
                    tried as nat,
                ).advance());
            }
            if low >= threshold {
                proof {
                    assert(accepts(b, word_at(start, tried as nat)));
                    assert(kept_within(start, b, patience as nat));
                    lemma_rejections_unique(start, b, tried as nat);
                    lemma_scaled_below_bound(b, x as u32);
                }
                return Some((mul >> 32) as u32);
            }
            tried += 1;
        }
        None
    }

    /// Gets a value out of the slice given (by copy).
    ///
    /// The index is drawn below the length, or below `u32::MAX` for a longer
    /// slice, whose tail is then never picked.
    fn pick<T>(&mut self, buf: &[T]) -> (r: T) where T: Copy
        requires
            buf@.len() > 0,
            settles(*old(self), clamped_len(buf@.len())),
        ensures
            r == buf@[bounded_value(*old(self), clamped_len(buf@.len())) as int],
            *final(self) == bounded_state(*old(self), clamped_len(buf@.len())),
    {
        let end: u32 = saturating_usize_as_u32(buf.len());
        let i: usize = self.next_bounded(end) as usize;
        buf[i]
    }

    /// Gets a value out of the slice given (by shared ref).
    ///
    /// The index is drawn as in `pick`.
    fn pick_ref<'b, T>(&mut self, buf: &'b [T]) -> (r: &'b T)
        requires
            buf@.len() > 0,
            settles(*old(self), clamped_len(buf@.len())),
        ensures
            *r == buf@[bounded_value(*old(self), clamped_len(buf@.len())) as int],
            *final(self) == bounded_state(*old(self), clamped_len(buf@.len())),
    {
        let end: u32 = saturating_usize_as_u32(buf.len());
        let i: usize = self.next_bounded(end) as usize;
        &buf[i]
    }

    /// Gets a value out of the slice given (by unique ref).
    ///
    /// The index is drawn as in `pick`. What the caller writes through the
    /// reference is the only change to the slice.
    fn pick_mut<'b, T>(&mut self, buf: &'b mut [T]) -> (r: &'b mut T)
        requires
            old(buf)@.len() > 0,
            settles(*old(self), clamped_len(old(buf)@.len())),
        ensures
            *r == old(buf)@[bounded_value(*old(self), clamped_len(old(buf)@.len())) as int],
            final(buf)@ == old(buf)@.update(
                bounded_value(*old(self), clamped_len(old(buf)@.len())) as int,
                *final(r),
            ),
            *final(self) == bounded_state(*old(self), clamped_len(old(buf)@.len())),
    {
        let end: u32 = saturating_usize_as_u32(buf.len());
        let i: usize = self.next_bounded(end) as usize;
        &mut buf[i]
    }

    /// Shuffles a slice in `O(len)` time.
    ///
    /// Going forward through the slice, each element but the last changes
    /// place with one drawn from its own position on, so that every order
    /// comes from one choice of draws (see `lemma_exchanges_differ`). A slice
    /// of fewer than two elements is left as it is and nothing is drawn. The
    /// draws are those of `next_bounded`, and `shuffle_settles_within` tells
    /// whether they come to an end.
    fn shuffle<T>(&mut self, buf: &mut [T])
        requires
            old(buf)@.len() <= 0x1_0000_0000,
            shuffle_settles(*old(self), old(buf)@.len(), 0),
        ensures
            (*final(self), final(buf)@) == shuffled_from(*old(self), old(buf)@, 0),
            final(buf)@.len() == old(buf)@.len(),
            final(buf)@.to_multiset() == old(buf)@.to_multiset(),
    {
        let ghost start = *self;
        let ghost before = buf@;
        let len: usize = buf.len();
        if len < 2 {
            return ;
        }
        let mut possibility_count: u32 = saturating_usize_as_u32(len);
        let mut this_index: usize = 0;
        let end: usize = len - 1;
        while this_index < end
            invariant
                2 <= len <= 0x1_0000_0000,
                buf@.len() == len,
                end == len - 1,
                this_index <= end,
                possibility_count == clamped_len(len as nat) - this_index,
                shuffle_settles(*self, len as nat, this_index as nat),
                shuffled_from(*self, buf@, this_index as nat) == shuffled_from(start, before, 0),
                buf@.to_multiset() == before.to_multiset(),
            decreases end - this_index,
        {
            let ghost g = *self;
            let ghost s = buf@;
            assert(possibility_count == shuffle_bound(len as nat, this_index as nat));
            let offset: usize = self.next_bounded(possibility_count) as usize;
            proof {
                lemma_swapped_multiset(s, this_index as int, this_index + offset);
            }
            buf.swap(this_index, this_index + offset);
            possibility_count -= 1;
            this_index += 1;
        }
    }
}

impl<G: RawGen32> Gen32 for G {
}

/// Tells whether `shuffle` can be called on a slice of `len` elements with
/// the generator of which `probe` is a copy: whether the slice is short
/// enough and each draw keeps one of the first `patience` words that it sees.
/// The draws are made on `probe`, and nothing is shuffled.
pub fn shuffle_settles_within<G: Gen32>(probe: G, len: usize, patience: u32) -> (r: bool)
    ensures
        r == (len <= 0x1_0000_0000 && shuffle_kept_within(
            probe,
            len as nat,
            0,
            patience as nat,
        )),
        r ==> shuffle_settles(probe, len as nat, 0),
{
    if len as u64 > 0x1_0000_0000u64 {
        return false;
    }
    if len < 2 {
        return true;
    }
    let mut ahead = probe;
    let mut possibility_count: u32 = saturating_usize_as_u32(len);
    let mut this_index: usize = 0;
    let end: usize = len - 1;
    while this_index < end
        invariant
            2 <= len <= 0x1_0000_0000,
            end == len - 1,
            this_index <= end,
            possibility_count == clamped_len(len as nat) - this_index,
            shuffle_kept_within(ahead, len as nat, this_index as nat, patience as nat)
                == shuffle_kept_within(probe, len as nat, 0, patience as nat),
        decreases end - this_index,
    {
        let ghost g = ahead;
        assert(possibility_count == shuffle_bound(len as nat, this_index as nat));
        assert(shuffle_kept_within(g, len as nat, this_index as nat, patience as nat) == (
        kept_within(g, possibility_count, patience as nat) && shuffle_kept_within(
            bounded_state(g, possibility_count),
            len as nat,
            (this_index + 1) as nat,
            patience as nat,
        )));
        if ahead.next_bounded_within(possibility_count, patience).is_none() {
            return false;
        }
        possibility_count -= 1;
        this_index += 1;
    }
    proof {
        lemma_shuffle_kept_within_settles(probe, len as nat, 0, patience as nat);
    }
    true
}

} // verus!
