//! Parallel bit extraction: the bits of a word that a mask selects, packed
//! into the low end of the result in the order of their positions.

use vstd::prelude::*;
use vstd::arithmetic::power2::{lemma2_to64, lemma_pow2_strictly_increases, lemma_pow2_unfold, pow2};
use vstd::bits::lemma_u64_shl_is_mul;
use vstd::std_specs::bits::axiom_u64_trailing_zeros;
use crate::bits::{bit_at, lemma_bit_ops, lemma_clear_lowest, lemma_submask_bit, lemma_word_ext, submask};

verus! {

/// Number of set bits of `mask` at positions below `n`.
pub open spec fn count_below(mask: u64, n: nat) -> nat
    decreases n,
{
    if n == 0 {
        0
    } else {
        count_below(mask, (n - 1) as nat) + if bit_at(mask, (n - 1) as u64) {
            1nat
        } else {
            0nat
        }
    }
}

/// Number of set bits of `mask`.
pub open spec fn popcount(mask: u64) -> nat {
    count_below(mask, 64)
}

/// The extraction restricted to positions below `n`: every set bit of `mask`
/// at a position `i < n` contributes the bit of `src` at `i`, weighted by two
/// to the number of mask bits below `i`.
pub open spec fn extract_below(src: u64, mask: u64, n: nat) -> nat
    decreases n,
{
    if n == 0 {
        0
    } else {
        let i = (n - 1) as nat;
        extract_below(src, mask, i) + if bit_at(mask, i as u64) && bit_at(src, i as u64) {
            pow2(count_below(mask, i))
        } else {
            0nat
        }
    }
}

/// The bits of `src` at the set positions of `mask`, packed from bit 0 upward.
pub open spec fn extract_bits(src: u64, mask: u64) -> nat {
    extract_below(src, mask, 64)
}

/// An extraction fits into as many bits as the mask has.
pub proof fn lemma_extract_bound(src: u64, mask: u64, n: nat)
    requires
        n <= 64,
    ensures
        count_below(mask, n) <= n,
        extract_below(src, mask, n) < pow2(count_below(mask, n)),
    decreases n,
{
    if n == 0 {
        lemma2_to64();
    } else {
        let i = (n - 1) as nat;
        lemma_extract_bound(src, mask, i);
        if bit_at(mask, i as u64) {
            lemma_pow2_unfold(count_below(mask, n));
        }
    }
}

/// Bits of `src` outside the mask do not matter.
pub proof fn lemma_extract_masked(src: u64, mask: u64, n: nat)
    requires
        n <= 64,
    ensures
        extract_below(src & mask, mask, n) == extract_below(src, mask, n),
    decreases n,
{
    if n > 0 {
        let i = (n - 1) as nat;
        lemma_extract_masked(src, mask, i);
        lemma_bit_ops(src, mask, i as u64);
    }
}

/// Positions without a mask bit add nothing.
pub proof fn lemma_extract_skip(src: u64, mask: u64, lo: nat, hi: nat)
    requires
        lo <= hi <= 64,
        forall|i: u64| lo <= i < hi ==> !bit_at(mask, i),
    ensures
        count_below(mask, hi) == count_below(mask, lo),
        extract_below(src, mask, hi) == extract_below(src, mask, lo),
    decreases hi - lo,
{
    if lo < hi {
        let i = (hi - 1) as nat;
        assert(!bit_at(mask, i as u64));
        lemma_extract_skip(src, mask, lo, i);
    }
}

/// Two sources with the same extraction agree on every mask bit.
pub proof fn lemma_extract_agree(a: u64, b: u64, mask: u64, n: nat)
    requires
        n <= 64,
        extract_below(a, mask, n) == extract_below(b, mask, n),
    ensures
        forall|i: u64| i < n && bit_at(mask, i) ==> bit_at(a, i) == bit_at(b, i),
    decreases n,
{
    if n > 0 {
        let i = (n - 1) as nat;
        lemma_extract_bound(a, mask, i);
        lemma_extract_bound(b, mask, i);
        lemma_extract_agree(a, b, mask, i);
    }
}

/// Distinct submasks of a mask have distinct extractions.
pub proof fn lemma_extract_injective(a: u64, b: u64, mask: u64)
    requires
        submask(a, mask),
        submask(b, mask),
        extract_bits(a, mask) == extract_bits(b, mask),
    ensures
        a == b,
{
    lemma_extract_agree(a, b, mask, 64);
    assert forall|i: u64| i < 64 implies bit_at(a, i) == bit_at(b, i) by {
        if bit_at(a, i) {
            lemma_submask_bit(a, mask, i);
        }
        if bit_at(b, i) {
            lemma_submask_bit(b, mask, i);
        }
    }
    lemma_word_ext(a, b);
}

/// Computes `extract_bits`, one step for each set bit of `mask`, from the
/// lowest upward.
pub fn extract(src: u64, mask: u64) -> (out: u64)
    ensures
        out == extract_bits(src, mask),
        out < pow2(popcount(mask)),
{
    let mut rest: u64 = mask;
    let mut out: u64 = 0;
    let mut taken: u64 = 0;
    let ghost mut done: nat = 0;
    while rest != 0
        invariant
            done <= 64,
            taken == count_below(mask, done),
            out == extract_below(src, mask, done),
            forall|i: u64| i < 64 ==> bit_at(rest, i) == (i >= done && bit_at(mask, i)),
        decreases 64 - done,
    {
        let place: u64 = rest.trailing_zeros() as u64;
        proof {
            // `place` is the lowest mask bit at or above `done`.
            axiom_u64_trailing_zeros(rest);
            assert(bit_at(rest, place));
            assert forall|i: u64| done <= i < place implies !bit_at(mask, i) by {
                lemma_clear_lowest(rest, place, i);
            }
            lemma_extract_skip(src, mask, done, place as nat);
            lemma_extract_bound(src, mask, place as nat);
            // The weight of the bit, `1 << taken`, fits above what is gathered.
            lemma2_to64();
            lemma_pow2_unfold((taken + 1) as nat);
            if taken + 1 < 64 {
                lemma_pow2_strictly_increases((taken + 1) as nat, 64);
            }
            lemma_u64_shl_is_mul(1, taken);
        }
        if (src >> place) & 1 == 1 {
            out = out + (1u64 << taken);
        }
        let ghost before = rest;
        rest = rest & (rest - 1);
        taken = taken + 1;
        proof {
            done = (place + 1) as nat;
            assert forall|i: u64| i < 64 implies bit_at(rest, i) == (i >= done && bit_at(mask, i)) by {
                lemma_clear_lowest(before, place, i);
            }
        }
    }
    proof {
        assert forall|i: u64| done <= i < 64 implies !bit_at(mask, i) by {
            lemma_bit_ops(0, 0, i);
        }
        lemma_extract_skip(src, mask, done, 64);
        lemma_extract_bound(src, mask, 64);
    }
    out
}

} // verus!
