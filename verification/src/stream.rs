//! A generator seen as the stream of raw words that it will give, and the
//! bounded draws that take their words from that stream.
use crate::bounded::{accepts, scaled};
use crate::gen32::RawGen32;
use vstd::prelude::*;

verus! {

/// The generator that `g` is after `n` draws of a raw word.
pub open spec fn advance_by<G: RawGen32>(g: G, n: nat) -> G
    decreases n,
{
    if n == 0 {
        g
    } else {
        advance_by(g, (n - 1) as nat).advance()
    }
}

/// The `i`-th raw word that `g` will give, counted from 0.
pub open spec fn word_at<G: RawGen32>(g: G, i: nat) -> u32 {
    advance_by(g, i).peek()
}

/// Whether the `k`-th word of `g` is the first that a draw below `bound`
/// keeps.
pub open spec fn first_kept_at<G: RawGen32>(g: G, bound: u32, k: nat) -> bool {
    &&& accepts(bound, word_at(g, k))
    &&& forall|j: nat| j < k ==> !accepts(bound, #[trigger] word_at(g, j))
}

/// Whether a draw below `bound` comes to an end on `g`: some word of its
/// stream is kept.
pub open spec fn settles<G: RawGen32>(g: G, bound: u32) -> bool {
    exists|k: nat| accepts(bound, #[trigger] word_at(g, k))
}

/// Whether a draw below `bound` keeps one of the first `patience` words of
/// `g`.
pub open spec fn kept_within<G: RawGen32>(g: G, bound: u32, patience: nat) -> bool {
    exists|k: nat| k < patience && accepts(bound, #[trigger] word_at(g, k))
}

/// The number of words that a draw below `bound` turns away before it keeps
/// one. It means something only where the draw `settles`.
pub open spec fn rejections<G: RawGen32>(g: G, bound: u32) -> nat {
    choose|k: nat| first_kept_at(g, bound, k)
}

/// The value that a draw below `bound` returns on `g`.
pub open spec fn bounded_value<G: RawGen32>(g: G, bound: u32) -> u32 {
    scaled(bound, word_at(g, rejections(g, bound)))
}

/// The generator that `g` is after a draw below `bound`.
pub open spec fn bounded_state<G: RawGen32>(g: G, bound: u32) -> G {
    advance_by(g, rejections(g, bound) + 1)
}

/// Below the word at `k`, which is kept, there is a first word that is kept.
proof fn lemma_first_kept_exists<G: RawGen32>(g: G, bound: u32, k: nat)
    requires
        accepts(bound, word_at(g, k)),
    ensures
        exists|f: nat| f <= k && first_kept_at(g, bound, f),
    decreases k,
{
    if exists|j: nat| j < k && accepts(bound, word_at(g, j)) {
        let j = choose|j: nat| j < k && accepts(bound, word_at(g, j));
        lemma_first_kept_exists(g, bound, j);
    } else {
        assert(first_kept_at(g, bound, k));
    }
}

/// A draw that settles turns away `rejections` words and keeps the next.
pub proof fn lemma_rejections<G: RawGen32>(g: G, bound: u32)
    requires
        settles(g, bound),
    ensures
        first_kept_at(g, bound, rejections(g, bound)),
{
    let k = choose|k: nat| accepts(bound, #[trigger] word_at(g, k));
    lemma_first_kept_exists(g, bound, k);
}

/// There is one first kept word: whoever finds it has found `rejections`.
pub proof fn lemma_rejections_unique<G: RawGen32>(g: G, bound: u32, k: nat)
    requires
        first_kept_at(g, bound, k),
    ensures
        settles(g, bound),
        rejections(g, bound) == k,
{
    lemma_rejections(g, bound);
    let r = rejections(g, bound);
    if r < k {
        assert(!accepts(bound, word_at(g, r)));
    }
    if k < r {
        assert(!accepts(bound, word_at(g, k)));
    }
}

/// A bound that divides 2^32, such as a power of two, keeps every word: the
/// draw settles on any generator, at its first word.
pub proof fn lemma_dividing_bound_settles<G: RawGen32>(g: G, bound: u32)
    requires
        bound != 0,
        0x1_0000_0000int % (bound as int) == 0,
    ensures
        settles(g, bound),
        rejections(g, bound) == 0,
        bounded_value(g, bound) == scaled(bound, g.peek()),
        bounded_state(g, bound) == g.advance(),
{
    assert(accepts(bound, word_at(g, 0)));
    lemma_rejections_unique(g, bound, 0);
    assert(advance_by(g, 0) == g);
    assert(advance_by(g, 1) == advance_by(g, 0).advance());
}

} // verus!
