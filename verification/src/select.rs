//! The mathematical meaning of a subset bitmask: which elements of a source
//! sequence it names, in which order, and how many of them there are.

use vstd::prelude::*;
use vstd::arithmetic::power2::{pow2, lemma_pow2_pos, lemma_pow2_strictly_increases};
use crate::bits::{bit_set, popcount, lemma_div_pow2_succ, lemma_popcount_unfold,
    lemma_small_mask_div};

verus! {

/// The elements of `src` at positions `k >= p` whose bit of `s` is set, in
/// ascending order of position.
pub open spec fn selected_from<T>(src: Seq<T>, s: nat, p: nat) -> Seq<T>
    decreases src.len() - p,
{
    if p >= src.len() {
        Seq::empty()
    } else if bit_set(s, p) {
        seq![src[p as int]] + selected_from(src, s, p + 1)
    } else {
        selected_from(src, s, p + 1)
    }
}

/// The subset of `src` named by bitmask `s`: the elements at set-bit
/// positions, in ascending order of position.
pub open spec fn selected<T>(src: Seq<T>, s: nat) -> Seq<T> {
    selected_from(src, s, 0)
}

/// The positions in `[p, n)` whose bit of `s` is set, in ascending order.
pub open spec fn set_positions(s: nat, n: nat, p: nat) -> Seq<nat>
    decreases n - p,
{
    if p >= n {
        Seq::empty()
    } else if bit_set(s, p) {
        seq![p] + set_positions(s, n, p + 1)
    } else {
        set_positions(s, n, p + 1)
    }
}

/// The whole enumeration as one mathematical object: entry `i` of the
/// powerset of `src` is the subset named by bitmask `i`.
pub open spec fn powerset_seq<T>(src: Seq<T>) -> Seq<Seq<T>> {
    Seq::new(pow2(src.len()), |i: int| selected(src, i as nat))
}

/// The enumeration of a source of `n` elements has exactly `pow2(n)`
/// entries, one per bitmask in `[0, pow2(n))`, in ascending bitmask order.
pub proof fn lemma_powerset_count<T>(src: Seq<T>)
    ensures
        powerset_seq(src).len() == pow2(src.len()),
        forall|i: int|
            0 <= i < pow2(src.len()) ==> #[trigger] powerset_seq(src)[i] == selected(
                src,
                i as nat,
            ),
{
}

/// A bitmask below `pow2(p)` has no set bit at or above position `p`, so it
/// selects nothing from position `p` on.
pub proof fn lemma_selected_from_empty<T>(src: Seq<T>, s: nat, p: nat)
    requires
        s < pow2(p),
    ensures
        selected_from(src, s, p).len() == 0,
    decreases src.len() - p,
{
    if p < src.len() {
        lemma_small_mask_div(s, p);
        lemma_pow2_strictly_increases(p, p + 1);
        lemma_selected_from_empty::<T>(src, s, p + 1);
    }
}

/// Counting what a bitmask still selects from position `p` on: it is the
/// population count of the mask shifted right by `p`, provided every set bit
/// of the mask lies below the source's length.
pub proof fn lemma_selected_count<T>(src: Seq<T>, s: nat, p: nat)
    requires
        s < pow2(src.len()),
    ensures
        selected_from(src, s, p).len() == popcount(s / pow2(p)),
    decreases src.len() - p,
{
    if p >= src.len() {
        if p > src.len() {
            lemma_pow2_strictly_increases(src.len(), p);
        }
        lemma_small_mask_div(s, p);
    } else {
        let q: nat = s / pow2(p);
        lemma_pow2_pos(p);
        lemma_div_pow2_succ(s, p);
        lemma_selected_count::<T>(src, s, p + 1);
        if q > 0 {
            lemma_popcount_unfold(q);
        }
    }
}

/// What a bitmask selects is the list of its set-bit positions mapped
/// through the source: entry for entry, element `j` of the selection is the
/// source element at position `j` of the position list.
pub proof fn lemma_selected_positions<T>(src: Seq<T>, s: nat, p: nat)
    ensures
        selected_from(src, s, p).len() == set_positions(s, src.len(), p).len(),
        forall|j: int|
            0 <= j < selected_from(src, s, p).len() ==> #[trigger] selected_from(src, s, p)[j]
                == src[set_positions(s, src.len(), p)[j] as int],
    decreases src.len() - p,
{
    if p < src.len() {
        lemma_selected_positions::<T>(src, s, p + 1);
    }
}

/// The list of set-bit positions of `s` in `[p, n)` is sound (every listed
/// position lies in `[p, n)` and carries a set bit), strictly ascending, and
/// complete (no set-bit position of that range is missed).
pub proof fn lemma_set_positions_spec(s: nat, n: nat, p: nat)
    ensures
        forall|j: int|
            0 <= j < set_positions(s, n, p).len() ==> p <= #[trigger] set_positions(s, n, p)[j]
                < n && bit_set(s, set_positions(s, n, p)[j]),
        forall|j1: int, j2: int|
            0 <= j1 < j2 < set_positions(s, n, p).len() ==> #[trigger] set_positions(s, n, p)[j1]
                < #[trigger] set_positions(s, n, p)[j2],
        forall|k: nat|
            p <= k < n && bit_set(s, k) ==> #[trigger] set_positions(s, n, p).contains(k),
    decreases n - p,
{
    if p < n {
        lemma_set_positions_spec(s, n, p + 1);
        let tail = set_positions(s, n, p + 1);
        if bit_set(s, p) {
            let all = seq![p] + tail;
            assert(all[0] == p);
            assert forall|k: nat| p <= k < n && bit_set(s, k) implies #[trigger] all.contains(
                k,
            ) by {
                if k == p {
                    assert(all[0] == k);
                } else {
                    assert(tail.contains(k));
                    let i = choose|i: int| 0 <= i < tail.len() && tail[i] == k;
                    assert(all[i + 1] == k);
                }
            }
        } else {
            assert forall|k: nat| p <= k < n && bit_set(s, k) implies #[trigger] set_positions(
                s,
                n,
                p,
            ).contains(k) by {
                assert(tail.contains(k));
            }
        }
    }
}

/// The subset named by bitmask `s` consists of exactly the source elements
/// whose position bit of `s` is set, taken in strictly ascending order of
/// position.
pub proof fn lemma_subset_contents<T>(src: Seq<T>, s: nat)
    ensures
        selected(src, s).len() == set_positions(s, src.len(), 0).len(),
        forall|j: int|
            0 <= j < selected(src, s).len() ==> #[trigger] selected(src, s)[j] == src[set_positions(
                s,
                src.len(),
                0,
            )[j] as int],
        forall|j: int|
            0 <= j < set_positions(s, src.len(), 0).len() ==> #[trigger] set_positions(
                s,
                src.len(),
                0,
            )[j] < src.len() && bit_set(s, set_positions(s, src.len(), 0)[j]),
        forall|j1: int, j2: int|
            0 <= j1 < j2 < set_positions(s, src.len(), 0).len() ==> #[trigger] set_positions(
                s,
                src.len(),
                0,
            )[j1] < #[trigger] set_positions(s, src.len(), 0)[j2],
        forall|k: nat|
            k < src.len() && bit_set(s, k) ==> #[trigger] set_positions(s, src.len(), 0).contains(
                k,
            ),
{
    lemma_selected_positions::<T>(src, s, 0);
    lemma_set_positions_spec(s, src.len(), 0);
}

} // verus!
