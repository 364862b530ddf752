//! Bit-level groundwork: the population count of a bitmask, the test for a
//! single bit, and the proofs connecting the machine's shift and mask
//! operations to their arithmetic meaning.

use vstd::prelude::*;
use vstd::arithmetic::power2::{pow2, lemma_pow2_adds, lemma_pow2_pos, lemma2_to64};
use vstd::arithmetic::div_mod::{lemma_basic_div, lemma_div_denominator};
use vstd::bits::{lemma_usize_pow2_no_overflow, lemma_usize_shl_is_mul, lemma_usize_shr_is_div};

verus! {

/// True when bit `k` of `s` is set.
pub open spec fn bit_set(s: nat, k: nat) -> bool {
    (s / pow2(k)) % 2 == 1
}

/// The number of set bits of `s`.
pub open spec fn popcount(s: nat) -> nat
    decreases s,
{
    if s == 0 {
        0
    } else {
        s % 2 + popcount(s / 2)
    }
}

/// One step of `popcount`: split off the lowest bit.
pub proof fn lemma_popcount_unfold(s: nat)
    requires
        s > 0,
    ensures
        popcount(s) == s % 2 + popcount(s / 2),
{
}

/// A bitmask has at least as many bits as set bits.
pub proof fn lemma_popcount_le(s: nat)
    ensures
        popcount(s) <= s,
    decreases s,
{
    if s > 0 {
        lemma_popcount_le(s / 2);
    }
}

/// `1 << p` is the power of two `pow2(p)`, which fits in a `usize` for any
/// shift below the word width.
pub proof fn lemma_shl_one(p: usize)
    requires
        p < usize::BITS,
    ensures
        0 < pow2(p as nat) <= usize::MAX,
        (1usize << p) == pow2(p as nat),
{
    lemma_usize_pow2_no_overflow(p as nat);
    lemma_usize_shl_is_mul(1usize, p);
}

/// Shifting right by `p` divides by `pow2(p)`.
pub proof fn lemma_shr_div(s: usize, p: usize)
    requires
        p < usize::BITS,
    ensures
        (s >> p) == s as nat / pow2(p as nat),
    {
    lemma_usize_shr_is_div(s, p);
}

/// The machine test `(1 << p) & s != 0` decides `bit_set(s, p)`.
pub proof fn lemma_bit_test(s: usize, p: usize)
    requires
        p < usize::BITS,
    ensures
        ((1usize << p) & s != 0) == bit_set(s as nat, p as nat),
{
    lemma_usize_shr_is_div(s, p);
    assert(((1usize << p) & s != 0) == ((s >> p) % 2 == 1)) by (bit_vector);
}

/// Dropping one more bit position: dividing by `pow2(p)` and halving is
/// dividing by `pow2(p + 1)`.
pub proof fn lemma_div_pow2_succ(s: nat, p: nat)
    ensures
        (s / pow2(p)) / 2 == s / pow2(p + 1),
{
    lemma_pow2_pos(p);
    lemma_div_denominator(s as int, pow2(p) as int, 2);
    lemma_pow2_adds(p, 1);
    lemma2_to64();
}

/// Every bit of `s` below `pow2(p)` sits under position `p`: the quotient by
/// `pow2(p)` vanishes exactly on such masks.
pub proof fn lemma_small_mask_div(s: nat, p: nat)
    requires
        s < pow2(p),
    ensures
        s / pow2(p) == 0,
{
    lemma_pow2_pos(p);
    lemma_basic_div(s as int, pow2(p) as int);
}

/// The number of set bits of `s`, computed by scanning the mask from its
/// lowest bit upward.
pub fn popcount_usize(s: usize) -> (c: usize)
    ensures
        c == popcount(s as nat),
{
    proof {
        lemma_popcount_le(s as nat);
    }
    let mut x: usize = s;
    let mut c: usize = 0;
    while x != 0
        invariant
            c + popcount(x as nat) == popcount(s as nat),
            popcount(s as nat) <= s,
        decreases x,
    {
        assert((x & 1usize) == x % 2 && (x >> 1usize) == x / 2) by (bit_vector);
        c = c + (x & 1);
        x = x >> 1usize;
    }
    c
}

} // verus!
