//! What a shuffle does to a sequence: the exchanges it makes, in the order in
//! which it makes them.
use crate::gen32::{clamped_len, RawGen32};
use crate::bounded::lemma_scaled_below_bound;
use crate::stream::{bounded_state, bounded_value, kept_within, rejections, settles, word_at};
use vstd::prelude::*;
use vstd::seq_lib::{to_multiset_contains, to_multiset_update};

verus! {

/// The sequence with the elements at `i` and `j` exchanged; the sequence
/// itself where one of the two is no index of it.
pub open spec fn swapped<T>(s: Seq<T>, i: int, j: int) -> Seq<T> {
    if 0 <= i < s.len() && 0 <= j < s.len() {
        s.update(i, s[j]).update(j, s[i])
    } else {
        s
    }
}

/// The bound of the draw that `shuffle` makes at index `i` of a sequence of
/// `len` elements: the number of elements from `i` on, counted down from the
/// clamped length.
pub open spec fn shuffle_bound(len: nat, i: nat) -> u32 {
    (clamped_len(len) - i) as u32
}

/// Whether every draw that `shuffle` makes on a sequence of `len` elements,
/// from index `i` on, comes to an end on `g`.
pub open spec fn shuffle_settles<G: RawGen32>(g: G, len: nat, i: nat) -> bool
    decreases len - i,
{
    i + 1 >= len || (settles(g, shuffle_bound(len, i)) && shuffle_settles(
        bounded_state(g, shuffle_bound(len, i)),
        len,
        i + 1,
    ))
}

/// The generator and the sequence as `shuffle` leaves them, when it stands at
/// index `i` with generator `g` and sequence `s`: the element at `i` changes
/// place with one drawn from `i` on, then the same from `i + 1`, up to the
/// last index but one.
pub open spec fn shuffled_from<G: RawGen32, T>(g: G, s: Seq<T>, i: nat) -> (G, Seq<T>)
    decreases s.len() - i,
{
    if i + 1 >= s.len() {
        (g, s)
    } else {
        let bound = shuffle_bound(s.len(), i);
        shuffled_from(
            bounded_state(g, bound),
            swapped(s, i as int, i + bounded_value(g, bound)),
            i + 1,
        )
    }
}

/// Whether every draw that `shuffle` makes on a sequence of `len` elements,
/// from index `i` on, keeps one of the first `patience` words that it sees.
pub open spec fn shuffle_kept_within<G: RawGen32>(g: G, len: nat, i: nat, patience: nat) -> bool
    decreases len - i,
{
    i + 1 >= len || (kept_within(g, shuffle_bound(len, i), patience) && shuffle_kept_within(
        bounded_state(g, shuffle_bound(len, i)),
        len,
        i + 1,
        patience,
    ))
}

/// Draws that keep a word within some number of words come to an end.
pub proof fn lemma_shuffle_kept_within_settles<G: RawGen32>(g: G, len: nat, i: nat, patience: nat)
    requires
        shuffle_kept_within(g, len, i, patience),
    ensures
        shuffle_settles(g, len, i),
    decreases len - i,
{
    if i + 1 < len {
        lemma_shuffle_kept_within_settles(
            bounded_state(g, shuffle_bound(len, i)),
            len,
            i + 1,
            patience,
        );
    }
}

/// Exchanging two elements keeps the length and the elements, each as often
/// as before.
pub proof fn lemma_swapped_multiset<T>(s: Seq<T>, i: int, j: int)
    requires
        0 <= i < s.len(),
        0 <= j < s.len(),
    ensures
        swapped(s, i, j).len() == s.len(),
        swapped(s, i, j).to_multiset() == s.to_multiset(),
{
    let mid = s.update(i, s[j]);
    to_multiset_update(s, i, s[j]);
    to_multiset_update(mid, j, s[i]);
    to_multiset_contains(s, s[i]);
    to_multiset_contains(s, s[j]);
    assert(s.contains(s[i]));
    assert(s.contains(s[j]));
    assert(swapped(s, i, j).to_multiset() =~= s.to_multiset());
}

/// The offsets that `shuffle` draws on a sequence of `len` elements from
/// index `i` on, one for each index up to the last but one.
pub open spec fn drawn_offsets<G: RawGen32>(g: G, len: nat, i: nat) -> Seq<nat>
    decreases len - i,
{
    if i + 1 >= len {
        Seq::empty()
    } else {
        let bound = shuffle_bound(len, i);
        seq![bounded_value(g, bound) as nat] + drawn_offsets(bounded_state(g, bound), len, i + 1)
    }
}

/// The sequence after one exchange for each offset: the element at `i`
/// changes place with the one that lies the first offset further on, the
/// element at `i + 1` by the second offset, and so on.
pub open spec fn exchanged<T>(s: Seq<T>, offsets: Seq<nat>, i: nat) -> Seq<T>
    decreases offsets.len(),
{
    if offsets.len() == 0 {
        s
    } else {
        exchanged(swapped(s, i as int, (i + offsets[0]) as int), offsets.drop_first(), i + 1)
    }
}

/// Whether the offsets, used from index `i` of a sequence of `len` elements
/// on, each stay within the sequence and leave its last index out.
pub open spec fn offsets_fit(offsets: Seq<nat>, len: nat, i: nat) -> bool {
    &&& i + offsets.len() < len
    &&& forall|k: int| 0 <= k < offsets.len() ==> i + k + #[trigger] offsets[k] < len
}

/// What `shuffle` does to a sequence is the exchanges by the offsets that it
/// draws.
pub proof fn lemma_shuffle_is_exchanges<G: RawGen32, T>(g: G, s: Seq<T>, i: nat)
    ensures
        shuffled_from(g, s, i).1 == exchanged(s, drawn_offsets(g, s.len(), i), i),
    decreases s.len() - i,
{
    if i + 1 < s.len() {
        let bound = shuffle_bound(s.len(), i);
        let offset = bounded_value(g, bound) as nat;
        let next = swapped(s, i as int, (i + offset) as int);
        let rest = drawn_offsets(bounded_state(g, bound), s.len(), i + 1);
        lemma_shuffle_is_exchanges(bounded_state(g, bound), next, i + 1);
        assert(next.len() == s.len());
        assert(drawn_offsets(g, s.len(), i).drop_first() =~= rest);
    }
}

/// The offsets that `shuffle` draws on a sequence of at most 2^32 elements
/// each stay within the sequence.
pub proof fn lemma_drawn_offsets_fit<G: RawGen32>(g: G, len: nat, i: nat)
    requires
        i < len <= 0x1_0000_0000,
    ensures
        drawn_offsets(g, len, i).len() == len - 1 - i,
        offsets_fit(drawn_offsets(g, len, i), len, i),
    decreases len - i,
{
    if i + 1 < len {
        let bound = shuffle_bound(len, i);
        let rest = drawn_offsets(bounded_state(g, bound), len, i + 1);
        lemma_drawn_offsets_fit(bounded_state(g, bound), len, i + 1);
        lemma_scaled_below_bound(bound, word_at(g, rejections(g, bound)));
        let all = drawn_offsets(g, len, i);
        assert forall|k: int| 0 <= k < all.len() implies i + k + #[trigger] all[k] < len by {
            if k > 0 {
                assert(all[k] == rest[k - 1]);
            }
        }
    }
}

/// Exchanges from index `i` on leave the length and what lies before `i`.
pub proof fn lemma_exchanged_keeps_front<T>(s: Seq<T>, offsets: Seq<nat>, i: nat, k: int)
    requires
        0 <= k < i,
    ensures
        exchanged(s, offsets, i).len() == s.len(),
        k < s.len() ==> exchanged(s, offsets, i)[k] == s[k],
    decreases offsets.len(),
{
    if offsets.len() > 0 {
        lemma_exchanged_keeps_front(
            swapped(s, i as int, (i + offsets[0]) as int),
            offsets.drop_first(),
            i + 1,
            k,
        );
    }
}

/// Exchanging two elements of a sequence in which nothing occurs twice leaves
/// one in which nothing occurs twice.
pub proof fn lemma_swapped_no_duplicates<T>(s: Seq<T>, i: int, j: int)
    requires
        s.no_duplicates(),
    ensures
        swapped(s, i, j).no_duplicates(),
{
    let t = swapped(s, i, j);
    if 0 <= i < s.len() && 0 <= j < s.len() {
        assert forall|p: int, q: int| 0 <= p < t.len() && 0 <= q < t.len() && p != q implies t[p]
            != t[q] by {
            let from_p = if p == i { j } else if p == j { i } else { p };
            let from_q = if q == i { j } else if q == j { i } else { q };
            assert(t[p] == s[from_p]);
            assert(t[q] == s[from_q]);
            assert(from_p != from_q);
        }
    }
}

/// Every order comes from one choice of offsets only. On a sequence in which
/// nothing occurs twice, two lists of fitting offsets that lead to the same
/// order are the same list: so offsets that are each as likely as the others
/// make the orders as likely as one another.
pub proof fn lemma_exchanges_differ<T>(s: Seq<T>, a: Seq<nat>, b: Seq<nat>, i: nat)
    requires
        s.no_duplicates(),
        a.len() == b.len(),
        offsets_fit(a, s.len(), i),
        offsets_fit(b, s.len(), i),
        exchanged(s, a, i) == exchanged(s, b, i),
    ensures
        a == b,
    decreases a.len(),
{
    if a.len() == 0 {
        assert(a =~= b);
    } else {
        let via_a = swapped(s, i as int, (i + a[0]) as int);
        let via_b = swapped(s, i as int, (i + b[0]) as int);
        lemma_exchanged_keeps_front(via_a, a.drop_first(), i + 1, i as int);
        lemma_exchanged_keeps_front(via_b, b.drop_first(), i + 1, i as int);
        assert(via_a[i as int] == s[(i + a[0]) as int]);
        assert(via_b[i as int] == s[(i + b[0]) as int]);
        assert(a[0] == b[0]);
        lemma_swapped_no_duplicates(s, i as int, (i + a[0]) as int);
        assert(offsets_fit(a.drop_first(), via_a.len(), i + 1)) by {
            assert forall|k: int| 0 <= k < a.drop_first().len() implies i + 1 + k
                + #[trigger] a.drop_first()[k] < via_a.len() by {
                assert(a.drop_first()[k] == a[k + 1]);
            }
        }
        assert(offsets_fit(b.drop_first(), via_a.len(), i + 1)) by {
            assert forall|k: int| 0 <= k < b.drop_first().len() implies i + 1 + k
                + #[trigger] b.drop_first()[k] < via_a.len() by {
                assert(b.drop_first()[k] == b[k + 1]);
            }
        }
        lemma_exchanges_differ(via_a, a.drop_first(), b.drop_first(), i + 1);
        assert(a =~= seq![a[0]] + a.drop_first());
        assert(b =~= seq![b[0]] + b.drop_first());
    }
}

} // verus!
