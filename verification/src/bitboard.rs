//! Sets of squares packed into one 64-bit word, one bit per square.

use vstd::prelude::*;
use vstd::arithmetic::power2::pow2;
use crate::bits::{
    bit_at, lemma_bit_ops, lemma_bit_single, lemma_line_masks, lemma_submask_basics,
    lemma_submask_successor, lemma_word_ext, submask,
};
use crate::pext::{extract, extract_bits, popcount};
use crate::square::{file_of, on_board, rank_of, Square};

verus! {

/// A set of squares: bit `s` of the word is set when square `s` belongs to it.
#[derive(Clone, Copy, Debug, PartialEq, Eq, Structural)]
pub struct Bitboard(pub u64);

impl View for Bitboard {
    type V = Set<int>;

    /// The squares of the set, as indices in `0..64`.
    open spec fn view(&self) -> Set<int> {
        Set::new(|s: int| on_board(s) && bit_at(self.0, s as u64))
    }
}

/// Two bitboards that hold the same squares are the same word.
pub proof fn lemma_view_injective(a: Bitboard, b: Bitboard)
    requires
        a@ == b@,
    ensures
        a == b,
{
    assert forall|i: u64| i < 64 implies bit_at(a.0, i) == bit_at(b.0, i) by {
        let s = i as int;
        assert(s as u64 == i);
        assert(a@.contains(s) == (on_board(s) && bit_at(a.0, s as u64)));
        assert(b@.contains(s) == (on_board(s) && bit_at(b.0, s as u64)));
    }
    lemma_word_ext(a.0, b.0);
}

impl Bitboard {
    /// The set without squares.
    pub fn empty() -> (b: Bitboard)
        ensures
            b@ == Set::<int>::empty(),
            b.0 == 0,
    {
        proof {
            assert forall|s: int| on_board(s) implies !bit_at(0u64, s as u64) by {
                lemma_bit_ops(0, 0, s as u64);
            }
            assert(Bitboard(0)@ =~= Set::<int>::empty());
        }
        Bitboard(0)
    }

    /// Whether `sq` belongs to the set.
    pub fn contains(self, sq: Square) -> (present: bool)
        requires
            sq.valid(),
        ensures
            present == self@.contains(sq.0 as int),
    {
        (self.0 >> (sq.0 as u64)) & 1 == 1
    }

    /// Puts `sq` into the set.
    pub fn insert(&mut self, sq: Square)
        requires
            sq.valid(),
        ensures
            final(self)@ == old(self)@.insert(sq.0 as int),
    {
        let ghost before = self.0;
        let bit: u64 = 1u64 << (sq.0 as u64);
        self.0 = self.0 | bit;
        proof {
            assert forall|s: int| on_board(s) implies bit_at(self.0, s as u64) == (bit_at(
                before,
                s as u64,
            ) || s == sq.0) by {
                lemma_bit_ops(before, bit, s as u64);
                lemma_bit_single(sq.0 as u64, s as u64);
            }
            assert(self@ =~= Bitboard(before)@.insert(sq.0 as int));
        }
    }

    /// The squares of either set.
    pub fn union(self, other: Bitboard) -> (b: Bitboard)
        ensures
            b@ == self@.union(other@),
            b.0 == self.0 | other.0,
    {
        proof {
            assert forall|s: int| on_board(s) implies bit_at(self.0 | other.0, s as u64) == (bit_at(
                self.0,
                s as u64,
            ) || bit_at(other.0, s as u64)) by {
                lemma_bit_ops(self.0, other.0, s as u64);
            }
            assert(Bitboard(self.0 | other.0)@ =~= self@.union(other@));
        }
        Bitboard(self.0 | other.0)
    }

    /// The squares of both sets.
    pub fn intersection(self, other: Bitboard) -> (b: Bitboard)
        ensures
            b@ == self@.intersect(other@),
            b.0 == self.0 & other.0,
    {
        proof {
            lemma_intersection(self, other);
        }
        Bitboard(self.0 & other.0)
    }

    /// The squares of the board that are not in the set.
    pub fn complement(self) -> (b: Bitboard)
        ensures
            b@ == Set::new(|s: int| on_board(s) && !self@.contains(s)),
            b.0 == !self.0,
    {
        proof {
            assert forall|s: int| on_board(s) implies bit_at(!self.0, s as u64) == !bit_at(
                self.0,
                s as u64,
            ) by {
                lemma_bit_ops(self.0, 0, s as u64);
            }
            assert(Bitboard(!self.0)@ =~= Set::new(|s: int| on_board(s) && !self@.contains(s)));
        }
        Bitboard(!self.0)
    }

    /// The subset of `self` that follows `subset` when the subsets are counted
    /// up as numbers: the least subset above `subset`, or the empty set after
    /// the last one, which is `self`. Starting from the empty set, repeated
    /// calls run through every subset once and return to the empty set.
    pub fn next_subset(self, subset: Bitboard) -> (next: Bitboard)
        requires
            submask(subset.0, self.0),
        ensures
            submask(next.0, self.0),
            subset == self ==> next.0 == 0,
            subset != self ==> next.0 > subset.0,
            subset != self ==> forall|other: u64|
                submask(other, self.0) && subset.0 < other ==> next.0 <= other,
    {
        if subset.0 == self.0 {
            proof {
                lemma_submask_basics(0, self.0);
            }
            Bitboard(0)
        } else {
            proof {
                lemma_submask_successor(subset.0, self.0, 0);
                assert forall|other: u64| submask(other, self.0) && subset.0 < other implies ((
                subset.0 | !self.0) + 1) as u64 & self.0 <= other by {
                    lemma_submask_successor(subset.0, self.0, other);
                }
            }
            Bitboard(((subset.0 | !self.0) + 1) & self.0)
        }
    }

    /// The bits of `self` on the squares of `mask`, packed into the low bits of
    /// the result in the order of the squares.
    pub fn pext(self, mask: Bitboard) -> (bits: u64)
        ensures
            bits == extract_bits(self.0, mask.0),
            bits < pow2(popcount(mask.0)),
    {
        extract(self.0, mask.0)
    }

    /// The eight squares of rank `rank`.
    pub fn rank(rank: i8) -> (b: Bitboard)
        requires
            0 <= rank < 8,
        ensures
            b@ == Set::new(|s: int| on_board(s) && rank_of(s) == rank),
    {
        let b = Bitboard(0xffu64 << (8 * (rank as u64)));
        proof {
            assert forall|s: int| on_board(s) implies bit_at(b.0, s as u64) == (rank_of(s)
                == rank) by {
                lemma_line_masks(rank as u64, s as u64);
            }
            assert(b@ =~= Set::new(|s: int| on_board(s) && rank_of(s) == rank));
        }
        b
    }

    /// The eight squares of file `file`.
    pub fn file(file: i8) -> (b: Bitboard)
        requires
            0 <= file < 8,
        ensures
            b@ == Set::new(|s: int| on_board(s) && file_of(s) == file),
    {
        let b = Bitboard(0x0101_0101_0101_0101u64 << (file as u64));
        proof {
            assert forall|s: int| on_board(s) implies bit_at(b.0, s as u64) == (file_of(s)
                == file) by {
                lemma_line_masks(file as u64, s as u64);
            }
            assert(b@ =~= Set::new(|s: int| on_board(s) && file_of(s) == file));
        }
        b
    }
}

/// The view of a bitwise `&` is the intersection of the views.
pub proof fn lemma_intersection(a: Bitboard, b: Bitboard)
    ensures
        Bitboard(a.0 & b.0)@ == a@.intersect(b@),
{
    assert forall|s: int| on_board(s) implies bit_at(a.0 & b.0, s as u64) == (bit_at(
        a.0,
        s as u64,
    ) && bit_at(b.0, s as u64)) by {
        lemma_bit_ops(a.0, b.0, s as u64);
    }
    assert(Bitboard(a.0 & b.0)@ =~= a@.intersect(b@));
}

} // verus!
