//! Single-bit facts about 64-bit words, each settled by the bit-vector solver
//! and stated so that the rest of the crate can reason about words one bit at
//! a time.

use vstd::prelude::*;
use vstd::std_specs::bits::{axiom_u64_trailing_zeros, u64_trailing_zeros};

verus! {

/// Bit `i` of `x` is set.
pub open spec fn bit_at(x: u64, i: u64) -> bool {
    (x >> i) & 1 == 1
}

/// `sub` has no bit outside `mask`.
pub open spec fn submask(sub: u64, mask: u64) -> bool {
    sub & !mask == 0
}

/// The bitwise operators act on every bit separately.
pub proof fn lemma_bit_ops(a: u64, b: u64, i: u64)
    by (bit_vector)
    requires
        i < 64,
    ensures
        bit_at(a | b, i) == (bit_at(a, i) || bit_at(b, i)),
        bit_at(a & b, i) == (bit_at(a, i) && bit_at(b, i)),
        bit_at(a ^ b, i) == (bit_at(a, i) != bit_at(b, i)),
        bit_at(!a, i) == !bit_at(a, i),
        !bit_at(0, i),
{
}

/// `1 << j` has bit `j` and no other.
pub proof fn lemma_bit_single(j: u64, i: u64)
    by (bit_vector)
    requires
        i < 64,
        j < 64,
    ensures
        bit_at(1u64 << j, i) == (i == j),
        (1u64 << j) != 0,
{
}

/// A submask is a word whose every bit is also a bit of the mask.
pub proof fn lemma_submask_bit(sub: u64, mask: u64, i: u64)
    by (bit_vector)
    requires
        i < 64,
        submask(sub, mask),
        bit_at(sub, i),
    ensures
        bit_at(mask, i),
{
}

/// Masking yields a submask, and a submask is at most its mask.
pub proof fn lemma_submask_basics(x: u64, mask: u64)
    by (bit_vector)
    ensures
        submask(x & mask, mask),
        submask(0, mask),
        submask(mask, mask),
        submask(x, mask) ==> x <= mask,
        submask(x, mask) ==> x & mask == x,
{
}

/// Two words with the same bits are the same word.
pub proof fn lemma_word_ext(a: u64, b: u64)
    requires
        forall|i: u64| i < 64 ==> bit_at(a, i) == bit_at(b, i),
    ensures
        a == b,
{
    let x = a ^ b;
    if x != 0 {
        axiom_u64_trailing_zeros(x);
        let p = u64_trailing_zeros(x) as u64;
        assert(bit_at(x, p));
        lemma_bit_ops(a, b, p);
        assert(bit_at(a, p) == bit_at(b, p));
    }
    assert(a == b) by (bit_vector)
        requires
            a ^ b == 0,
    ;
}

/// One step of the submask walk: from a proper submask `sub` of `mask`, the
/// word `((sub | !mask) + 1) & mask` is the least submask above `sub`.
pub proof fn lemma_submask_successor(sub: u64, mask: u64, other: u64)
    by (bit_vector)
    requires
        submask(sub, mask),
        sub != mask,
    ensures
        (sub | !mask) < 0xffff_ffff_ffff_ffffu64,
        submask(((sub | !mask) + 1) as u64 & mask, mask),
        ((sub | !mask) + 1) as u64 & mask > sub,
        submask(other, mask) && sub < other ==> ((sub | !mask) + 1) as u64 & mask <= other,
{
}

/// The bits of a rank mask and of a file mask.
pub proof fn lemma_line_masks(n: u64, i: u64)
    by (bit_vector)
    requires
        n < 8,
        i < 64,
    ensures
        bit_at(0xffu64 << (8 * n), i) == (i / 8 == n),
        bit_at(0x0101_0101_0101_0101u64 << n, i) == (i % 8 == n),
{
}

/// Clearing the lowest set bit of `x`, which stands at position `p`.
pub proof fn lemma_clear_lowest(x: u64, p: u64, i: u64)
    by (bit_vector)
    requires
        p < 64,
        i < 64,
        bit_at(x, p),
        x << ((64 - p) as u64) == 0,
    ensures
        x != 0,
        bit_at(x & ((x - 1) as u64), i) == (bit_at(x, i) && i != p),
        i < p ==> !bit_at(x, i),
{
}

} // verus!
