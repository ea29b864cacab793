//! A permuted congruential generator with 32 bits of state and 32 bits of
//! output per step.
use crate::gen32::RawGen32;
use crate::lcg::{jump_lcg32_32, lcg_step, lcg_steps, lemma_steps_add, lemma_wrapping_mul_add};
use crate::period::{lemma_full_cycle, lemma_states_distinct, lemma_steps_wrap};
use crate::stream::{advance_by, word_at};
use vstd::prelude::*;
use vstd::std_specs::convert::FromSpecImpl;

verus! {

/// The default seed of the generator family, of which each width takes its
/// low bits.
pub const DEFAULT_PCG_SEED: u128 = 201526561274146932589719779721328219291;

/// The default stream selector of the generator family, of which each width
/// takes its low bits.
pub const DEFAULT_PCG_INC: u128 = 34172814569070222299;

/// The multiplier of the recurrence that carries the state.
pub const PCG_MULTIPLIER_32: u32 = 0xf13283ad;

/// The stream selector made into an increment: doubled, with the low bit
/// set, so that it is odd.
pub open spec fn stream_increment(stream: u32) -> u32 {
    ((stream * 2) % 0x1_0000_0000 + 1) as u32
}

/// The two words, state and increment, of a freshly seeded generator: from
/// state 0 one advance of the recurrence, then the seed is added, then one
/// advance more.
pub open spec fn seeded(seed: u32, stream: u32) -> (u32, u32) {
    let inc = stream_increment(stream);
    let first = lcg_step(0, PCG_MULTIPLIER_32, inc);
    let mixed = ((first + seed) % 0x1_0000_0000) as u32;
    (lcg_step(mixed, PCG_MULTIPLIER_32, inc), inc)
}

/// The first half of the output permutation: the state, xor-ed with a
/// multiple of itself shifted right by 4 plus its own top four bits.
pub open spec fn permuted(state: u32) -> u32 {
    state ^ ((((state >> ((4 + (state >> 28)) as u32)) * 277803737) % 0x1_0000_0000) as u32)
}

/// The word put out on a state: the permuted state, xor-ed with itself
/// shifted right by 22.
pub open spec fn output(state: u32) -> u32 {
    permuted(state) ^ (permuted(state) >> 22)
}

/// The two words of a generator after it has put out a word: the recurrence
/// advances the permuted state, and the increment stays.
pub open spec fn stepped(words: (u32, u32)) -> (u32, u32) {
    (lcg_step(permuted(words.0), PCG_MULTIPLIER_32, words.1), words.1)
}

/// The two words that converting a generator into `[u32; 2]` gives.
pub open spec fn exported(g: Pcg32x32) -> [u32; 2] {
    [g@.0, g@.1]
}

/// The generator that converting two words from `[u32; 2]` gives.
pub open spec fn restored(words: [u32; 2]) -> Pcg32x32 {
    Pcg32x32::of((words[0], words[1]))
}

/// Advances the recurrence of the generator by one step.
pub fn pcg_core_state32(state: u32, inc: u32) -> (r: u32)
    ensures
        r == lcg_step(state, PCG_MULTIPLIER_32, inc),
{
    proof {
        lemma_wrapping_step(state, PCG_MULTIPLIER_32, inc);
    }
    state.wrapping_mul(PCG_MULTIPLIER_32).wrapping_add(inc)
}

/// Permutes the state in place and gives the word to put out on it.
pub fn rxs_m_xs_u32_to_u32(state: &mut u32) -> (out: u32)
    ensures
        *final(state) == permuted(*old(state)),
        out == output(*old(state)),
{
    let s: u32 = *state;
    assert(s >> 28 <= 15) by (bit_vector);
    let shift: u32 = 4 + (s >> 28);
    let factor: u32 = (s >> shift).wrapping_mul(277803737u32);
    let p: u32 = s ^ factor;
    *state = p;
    p ^ (p >> 22)
}

/// A wrapping multiplication followed by a wrapping addition is one advance
/// of the recurrence.
proof fn lemma_wrapping_step(state: u32, mult: u32, inc: u32)
    ensures
        state.wrapping_mul(mult).wrapping_add(inc) == lcg_step(state, mult, inc),
{
    lemma_wrapping_mul_add(state, mult, inc);
}

/// A permuted congruential generator with 32 bits of output per step.
///
/// * Create new generators with [`seed`](Self::seed), which mixes its inputs
///   so that plain ones such as `seed(0, 0)` do well too.
/// * To save and restore a generator exactly, convert it into and from a
///   `[u32; 2]`: the state, then the increment.
/// * The methods on this type are few. Most operations come with
///   [`Gen32`](crate::gen32::Gen32).
#[derive(Debug, PartialEq, Eq, Hash, Structural)]
pub struct Pcg32x32 {
    state: u32,
    inc: u32,
}

impl View for Pcg32x32 {
    type V = (u32, u32);

    /// The state and the increment.
    closed spec fn view(&self) -> (u32, u32) {
        (self.state, self.inc)
    }
}

impl Pcg32x32 {
    /// The generator that holds these two words.
    pub closed spec fn of(words: (u32, u32)) -> Pcg32x32 {
        Pcg32x32 { state: words.0, inc: words.1 }
    }

    /// What holds of every generator that was seeded: its increment is odd.
    /// No operation changes the increment, so none undoes this.
    pub open spec fn wf(&self) -> bool {
        self@.1 % 2 == 1
    }

    /// The generator `delta` advances of the recurrence further on.
    pub open spec fn jumped(&self, delta: nat) -> Pcg32x32 {
        Pcg32x32::of((lcg_steps(self@.0, PCG_MULTIPLIER_32, self@.1, delta), self@.1))
    }

    /// The generator that holds two words has them as its view. Callers who
    /// follow a generator through its operations take this in with
    /// `broadcast use`.
    pub broadcast proof fn lemma_of_view(words: (u32, u32))
        ensures
            (#[trigger] Pcg32x32::of(words))@ == words,
    {
    }

    /// Two generators with the same words are the same.
    pub proof fn lemma_view_injective(a: Pcg32x32, b: Pcg32x32)
        requires
            a@ == b@,
        ensures
            a == b,
            Pcg32x32::of(a@) == a,
    {
    }

    /// Seed a new generator.
    pub fn seed(seed: u32, inc: u32) -> (r: Self)
        ensures
            r@ == seeded(seed, inc),
            r.wf(),
    {
        assert((inc << 1) | 1 == (inc * 2) % 0x1_0000_0000 + 1) by (bit_vector);
        let inc: u32 = (inc << 1) | 1;
        let mut state: u32 = pcg_core_state32(0u32, inc);
        state = state.wrapping_add(seed);
        state = pcg_core_state32(state, inc);
        Self { state, inc }
    }

    /// Gets the next 32-bits of output.
    pub fn next_u32(&mut self) -> (r: u32)
        ensures
            r == output(old(self)@.0),
            final(self)@ == stepped(old(self)@),
            final(self).wf() == old(self).wf(),
    {
        let out: u32 = rxs_m_xs_u32_to_u32(&mut self.state);
        self.state = pcg_core_state32(self.state, self.inc);
        out
    }

    /// Jumps the generator by `delta` steps of its recurrence forward.
    ///
    /// The recurrence loops after 2^32 steps, so a jump by `2^32 - k` goes
    /// `k` steps back.
    pub fn jump(&mut self, delta: u32)
        ensures
            final(self)@ == (
                lcg_steps(old(self)@.0, PCG_MULTIPLIER_32, old(self)@.1, delta as nat),
                old(self)@.1,
            ),
            *final(self) == old(self).jumped(delta as nat),
            final(self).wf() == old(self).wf(),
    {
        self.state = jump_lcg32_32(delta, self.state, PCG_MULTIPLIER_32, self.inc);
    }
}

/// Jumping by `a` and then by `b` leaves the generator where one jump by
/// `a + b` leaves it, where one jump by `a + b` reduced modulo 2^32, the
/// length of the cycle, leaves it, and where `a + b` single advances of the
/// recurrence leave it.
pub proof fn lemma_jump_consistency(g: Pcg32x32, a: nat, b: nat)
    ensures
        g.jumped(a).jumped(b) == g.jumped(a + b),
        g.jumped(a).jumped(b) == g.jumped((a + b) % 0x1_0000_0000),
        g.jumped(a + b)@ == (lcg_steps(g@.0, PCG_MULTIPLIER_32, g@.1, a + b), g@.1),
{
    lemma_steps_add(g@.0, PCG_MULTIPLIER_32, g@.1, a, b);
    lemma_steps_wrap(g@.0, PCG_MULTIPLIER_32, g@.1, a + b);
}

/// A jump by the whole cycle, 2^32 advances, leaves the generator as it is,
/// so a jump by `2^32 - k` undoes a jump by `k`.
pub proof fn lemma_jump_back(g: Pcg32x32, k: u32)
    ensures
        g.jumped(0x1_0000_0000) == g,
        g.jumped(k as nat).jumped((0x1_0000_0000 - k) as nat) == g,
{
    lemma_full_cycle(g@.0, PCG_MULTIPLIER_32, g@.1);
    lemma_jump_consistency(g, k as nat, (0x1_0000_0000 - k) as nat);
}

/// The recurrence of a generator with an odd increment, such as every seeded
/// one, goes through all 2^32 states before it comes back to one: jumps that
/// differ by less than 2^32 lead to different generators.
pub proof fn lemma_jumps_distinct(g: Pcg32x32, i: nat, j: nat)
    requires
        g.wf(),
        i < j < i + 0x1_0000_0000,
    ensures
        g.jumped(i) != g.jumped(j),
{
    lemma_states_distinct(g@.0, PCG_MULTIPLIER_32, g@.1, i, j);
}

/// A generator that is turned into its two words and made from them again is
/// the generator it was, and so gives the words that it would have given.
pub proof fn lemma_round_trip(g: Pcg32x32, i: nat)
    ensures
        restored(exported(g)) == g,
        word_at(restored(exported(g)), i) == word_at(g, i),
{
}

/// Two generators seeded with the same seed and stream are the same
/// generator: each gives the words that the other gives, and after any
/// number of them the two are still the same.
pub proof fn lemma_seed_deterministic(a: Pcg32x32, b: Pcg32x32, seed: u32, stream: u32, i: nat)
    requires
        a@ == seeded(seed, stream),
        b@ == seeded(seed, stream),
    ensures
        a == b,
        word_at(a, i) == word_at(b, i),
        advance_by(a, i) == advance_by(b, i),
{
}

impl Clone for Pcg32x32 {
    /// A second generator with the same two words, which from here on gives
    /// what this one gives.
    fn clone(&self) -> (r: Self)
        ensures
            r == *self,
    {
        Pcg32x32 { state: self.state, inc: self.inc }
    }
}

impl Default for Pcg32x32 {
    /// The generator seeded with the low 32 bits of the two default
    /// constants of the generator family.
    fn default() -> (r: Self)
        ensures
            r@ == seeded(0xcfe0_549b, 0x94b9_5bdb),
            r.wf(),
    {
        assert(DEFAULT_PCG_SEED as u32 == 0xcfe0_549bu32) by (bit_vector)
            requires
                DEFAULT_PCG_SEED == 201526561274146932589719779721328219291u128,
        ;
        assert(DEFAULT_PCG_INC as u32 == 0x94b9_5bdbu32) by (bit_vector)
            requires
                DEFAULT_PCG_INC == 34172814569070222299u128,
        ;
        Pcg32x32::seed(
            #[verifier::truncate]
            (DEFAULT_PCG_SEED as u32),
            #[verifier::truncate]
            (DEFAULT_PCG_INC as u32),
        )
    }
}

impl From<[u32; 2]> for Pcg32x32 {
    /// Restores the generator from its two words: the state, then the
    /// increment.
    fn from(words: [u32; 2]) -> (r: Self)
        ensures
            r@ == (words[0], words[1]),
    {
        Self { state: words[0], inc: words[1] }
    }
}

impl FromSpecImpl<[u32; 2]> for Pcg32x32 {
    open spec fn obeys_from_spec() -> bool {
        true
    }

    open spec fn from_spec(words: [u32; 2]) -> Self {
        restored(words)
    }
}

impl From<Pcg32x32> for [u32; 2] {
    /// Gives the two words of the generator: the state, then the increment.
    fn from(pcg: Pcg32x32) -> (r: Self)
        ensures
            r == exported(pcg),
            r[0] == pcg@.0,
            r[1] == pcg@.1,
    {
        [pcg.state, pcg.inc]
    }
}

impl FromSpecImpl<Pcg32x32> for [u32; 2] {
    open spec fn obeys_from_spec() -> bool {
        true
    }

    open spec fn from_spec(pcg: Pcg32x32) -> Self {
        exported(pcg)
    }
}

impl RawGen32 for Pcg32x32 {
    open spec fn peek(&self) -> u32 {
        output(self@.0)
    }

    open spec fn advance(&self) -> Self {
        Pcg32x32::of(stepped(self@))
    }

    fn next_u32(&mut self) -> (r: u32) {
        Pcg32x32::next_u32(self)
    }
}

} // verus!
