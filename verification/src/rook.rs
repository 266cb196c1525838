//! The geometry of rook attacks: what the four walks of a rook amount to on
//! ranks and files, and which pieces can make a difference to them.

use vstd::prelude::*;
use vstd::arithmetic::power2::{lemma2_to64, pow2};
use crate::bitboard::Bitboard;
use crate::bits::bit_at;
use crate::magics::{ROOK_DELTAS, ROOK_INDEXES, ROOK_TABLE_SIZE};
use crate::pext::{count_below, popcount};
use crate::rays::{
    attacked, lemma_walk_east, lemma_walk_north, lemma_walk_south, lemma_walk_west,
    ray_visits,
};
use crate::square::{file_of, on_board, rank_of};

verus! {

/// `x` lies strictly between `a` and `b`, whichever of the two is smaller.
pub open spec fn inside(a: int, x: int, b: int) -> bool {
    (a < x && x < b) || (b < x && x < a)
}

/// No piece stands strictly between `a` and `b` on the rank of `a`.
pub open spec fn rank_clear(occupied: Set<int>, a: int, b: int) -> bool {
    forall|u: int|
        on_board(u) && rank_of(u) == rank_of(a) && inside(file_of(a), file_of(u), file_of(b))
            ==> !occupied.contains(u)
}

/// No piece stands strictly between `a` and `b` on the file of `a`.
pub open spec fn file_clear(occupied: Set<int>, a: int, b: int) -> bool {
    forall|u: int|
        on_board(u) && file_of(u) == file_of(a) && inside(rank_of(a), rank_of(u), rank_of(b))
            ==> !occupied.contains(u)
}

/// A rook on `origin` sees `target`: another square of its rank or of its
/// file, with no piece strictly between the two.
pub open spec fn rook_sees(origin: int, occupied: Set<int>, target: int) -> bool {
    &&& on_board(target)
    &&& target != origin
    &&& (rank_of(target) == rank_of(origin) && rank_clear(occupied, origin, target))
        || (file_of(target) == file_of(origin) && file_clear(occupied, origin, target))
}

/// The rook walks are exactly the lines of sight: a rook attacks a square if
/// and only if it sees it. In particular no attacked square lies behind the
/// first piece of a ray, and none lies off the rank and the file of the rook.
pub proof fn lemma_rook_attack_is_sight(origin: int, occupied: Set<int>, target: int)
    requires
        on_board(origin),
    ensures
        attacked(origin, occupied, ROOK_DELTAS@, target) <==> rook_sees(origin, occupied, target),
{
    let deltas = ROOK_DELTAS@;
    assert(deltas.len() == 4);
    assert(deltas[0] == 8 && deltas[1] == 1 && deltas[2] == -8 && deltas[3] == -1);
    lemma_walk_north(origin, occupied, target);
    lemma_walk_east(origin, occupied, target);
    lemma_walk_south(origin, occupied, target);
    lemma_walk_west(origin, occupied, target);
    if attacked(origin, occupied, deltas, target) {
        let i = choose|i: int|
            0 <= i < deltas.len() && ray_visits(origin, #[trigger] deltas[i] as int, occupied, target);
        assert(rook_sees(origin, occupied, target));
    }
    if rook_sees(origin, occupied, target) {
        if rank_of(target) == rank_of(origin) && rank_clear(occupied, origin, target) {
            assert forall|u: int| inside(origin, u, target) implies !occupied.contains(u) by {
                assert(rank_of(u) == rank_of(origin));
                assert(inside(file_of(origin), file_of(u), file_of(target)));
            }
            if target > origin {
                assert(ray_visits(origin, deltas[1] as int, occupied, target));
            } else {
                assert(ray_visits(origin, deltas[3] as int, occupied, target));
            }
        } else {
            if target > origin {
                assert(ray_visits(origin, deltas[0] as int, occupied, target));
            } else {
                assert(ray_visits(origin, deltas[2] as int, occupied, target));
            }
        }
    }
}

/// `target` lies on an edge of the board that the rank or file of `origin`
/// only crosses: a piece there is the last square of a ray and blocks nothing.
pub open spec fn far_edge(origin: int, target: int) -> bool {
    ||| (rank_of(target) == 0 || rank_of(target) == 7) && rank_of(target) != rank_of(origin)
    ||| (file_of(target) == 0 || file_of(target) == 7) && file_of(target) != file_of(origin)
}

/// The squares whose occupancy can change what a rook on `origin` attacks:
/// its attacks on the empty board, without the far edges.
pub open spec fn rook_mask(origin: int) -> Set<int> {
    Set::new(
        |target: int|
            attacked(origin, Set::<int>::empty(), ROOK_DELTAS@, target) && !far_edge(origin, target),
    )
}

/// A rank or file index that is not on the rim of the board.
pub open spec fn inner(n: int) -> bool {
    1 <= n <= 6
}

/// The mask of a rook holds the inner squares of its rank and of its file,
/// without its own square.
pub proof fn lemma_rook_mask_shape(origin: int, target: int)
    requires
        on_board(origin),
    ensures
        rook_mask(origin).contains(target) <==> (on_board(target) && target != origin && ((rank_of(
            target,
        ) == rank_of(origin) && inner(file_of(target))) || (file_of(target) == file_of(origin)
            && inner(rank_of(target))))),
{
    lemma_rook_attack_is_sight(origin, Set::<int>::empty(), target);
}

/// Only the pieces on the mask matter: a rook sees the same squares when all
/// other pieces are taken off the board.
pub proof fn lemma_relevant_occupancy(origin: int, occupied: Set<int>, target: int)
    requires
        on_board(origin),
    ensures
        attacked(origin, occupied, ROOK_DELTAS@, target) <==> attacked(
            origin,
            occupied.intersect(rook_mask(origin)),
            ROOK_DELTAS@,
            target,
        ),
{
    let kept = occupied.intersect(rook_mask(origin));
    lemma_rook_attack_is_sight(origin, occupied, target);
    lemma_rook_attack_is_sight(origin, kept, target);
    if on_board(target) && target != origin {
        assert forall|u: int|
            on_board(u) && ((rank_of(u) == rank_of(origin) && inside(
                file_of(origin),
                file_of(u),
                file_of(target),
            )) || (file_of(u) == file_of(origin) && inside(
                rank_of(origin),
                rank_of(u),
                rank_of(target),
            ))) implies occupied.contains(u) == kept.contains(u) by {
            lemma_rook_mask_shape(origin, u);
        }
    }
}

/// Number of mask squares of a rook on `sq`: six on its rank and six on its
/// file, one fewer for each where the rook itself stands on an inner square.
pub open spec fn slot_bits(sq: int) -> nat {
    let on_rank: nat = if inner(file_of(sq)) {
        5
    } else {
        6
    };
    let on_file: nat = if inner(rank_of(sq)) {
        5
    } else {
        6
    };
    on_rank + on_file
}

/// Number of mask squares of a rook on `origin` that lie on rank `row`.
spec fn mask_squares_on_rank(origin: int, row: int) -> nat {
    if row == rank_of(origin) {
        if inner(file_of(origin)) {
            5
        } else {
            6
        }
    } else if inner(row) {
        1
    } else {
        0
    }
}

/// One for a set bit, zero for a clear one.
spec fn bit_weight(m: u64, i: int) -> nat {
    if bit_at(m, i as u64) {
        1
    } else {
        0
    }
}

/// The set bits below the end of a rank are those below its start and the
/// eight of the rank.
proof fn lemma_count_rank(m: u64, base: int)
    requires
        0 <= base <= 56,
    ensures
        count_below(m, (base + 8) as nat) == count_below(m, base as nat) + bit_weight(m, base)
            + bit_weight(m, base + 1) + bit_weight(m, base + 2) + bit_weight(m, base + 3)
            + bit_weight(m, base + 4) + bit_weight(m, base + 5) + bit_weight(m, base + 6)
            + bit_weight(m, base + 7),
{
    reveal_with_fuel(count_below, 9);
}

/// A mask word has a bit exactly on the inner squares of the rank and of the
/// file of the rook, the rook's own square left out.
proof fn lemma_mask_bit(m: u64, origin: int, row: int, column: int)
    requires
        on_board(origin),
        0 <= row < 8,
        0 <= column < 8,
        Bitboard(m)@ == rook_mask(origin),
    ensures
        bit_weight(m, 8 * row + column) == if (row == rank_of(origin)) != (column == file_of(
            origin,
        )) && (if row == rank_of(origin) {
            inner(column)
        } else {
            inner(row)
        }) {
            1nat
        } else {
            0nat
        },
{
    let target = 8 * row + column;
    assert(rank_of(target) == row && file_of(target) == column);
    assert(Bitboard(m)@.contains(target) == (on_board(target) && bit_at(m, target as u64)));
    lemma_rook_mask_shape(origin, target);
}

/// The set bits of a mask word on one rank.
proof fn lemma_mask_row(m: u64, origin: int, row: int)
    requires
        on_board(origin),
        0 <= row < 8,
        Bitboard(m)@ == rook_mask(origin),
    ensures
        count_below(m, (8 * row + 8) as nat) == count_below(m, (8 * row) as nat)
            + mask_squares_on_rank(origin, row),
{
    lemma_count_rank(m, 8 * row);
    lemma_mask_bit(m, origin, row, 0);
    lemma_mask_bit(m, origin, row, 1);
    lemma_mask_bit(m, origin, row, 2);
    lemma_mask_bit(m, origin, row, 3);
    lemma_mask_bit(m, origin, row, 4);
    lemma_mask_bit(m, origin, row, 5);
    lemma_mask_bit(m, origin, row, 6);
    lemma_mask_bit(m, origin, row, 7);
}

/// The mask of a rook on `origin` has `slot_bits(origin)` squares.
pub proof fn lemma_rook_mask_popcount(m: u64, origin: int)
    requires
        on_board(origin),
        Bitboard(m)@ == rook_mask(origin),
    ensures
        popcount(m) == slot_bits(origin),
{
    lemma_mask_row(m, origin, 0);
    lemma_mask_row(m, origin, 1);
    lemma_mask_row(m, origin, 2);
    lemma_mask_row(m, origin, 3);
    lemma_mask_row(m, origin, 4);
    lemma_mask_row(m, origin, 5);
    lemma_mask_row(m, origin, 6);
    lemma_mask_row(m, origin, 7);
}

/// Number of table slots that belong to `sq`: one for each subset of its mask.
pub open spec fn slot_count(sq: int) -> nat {
    pow2(slot_bits(sq))
}

/// The slots of a square end where those of the next square begin, and the
/// slots of the last square end with the table.
pub proof fn lemma_slots_adjoin(sq: int)
    requires
        on_board(sq),
    ensures
        sq < 63 ==> ROOK_INDEXES@[sq] + slot_count(sq) == ROOK_INDEXES@[sq + 1],
        sq == 63 ==> ROOK_INDEXES@[sq] + slot_count(sq) == ROOK_TABLE_SIZE,
{
    lemma2_to64();
}

/// The slots of different squares do not overlap: those of a lower square end
/// before those of a higher square begin.
pub proof fn lemma_slots_ordered(low: int, high: int)
    requires
        0 <= low < high < 64,
    ensures
        ROOK_INDEXES@[low] + slot_count(low) <= ROOK_INDEXES@[high],
    decreases high - low,
{
    lemma_slots_adjoin(low);
    if low + 1 < high {
        lemma_slots_ordered(low + 1, high);
    }
}

/// Every slot of every square lies inside the table.
pub proof fn lemma_slots_in_table(sq: int)
    requires
        on_board(sq),
    ensures
        ROOK_INDEXES@[sq] + slot_count(sq) <= ROOK_TABLE_SIZE,
{
    lemma_slots_adjoin(sq);
    if sq < 63 {
        lemma_slots_ordered(sq, 63);
        lemma_slots_adjoin(63);
    }
}

} // verus!
