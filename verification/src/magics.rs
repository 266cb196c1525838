//! Rook attacks: the reference walk and the lookup table built from it.

use vstd::prelude::*;
use crate::bitboard::{lemma_intersection, Bitboard};
use crate::bits::{lemma_submask_basics, lemma_submask_successor, submask};
use crate::pext::{extract_bits, lemma_extract_bound, lemma_extract_injective, lemma_extract_masked};
use crate::rays::{attack_set, attacked, ray_visits, room};
use crate::rook::{
    far_edge, lemma_relevant_occupancy, lemma_rook_mask_popcount, lemma_slots_in_table,
    lemma_slots_ordered, rook_mask, slot_count,
};
use crate::square::{distance, on_board, Square};

verus! {

/// The four directions of a rook: up a rank, up a file, down a rank, down a
/// file.
pub const ROOK_DELTAS: [i8; 4] = [8, 1, -8, -1];

/// Where the slots of each square begin in the lookup table, by square index.
pub const ROOK_INDEXES: [usize; 64] = [
    0, 4096, 6144, 8192, 10240, 12288, 14336, 16384,
    20480, 22528, 23552, 24576, 25600, 26624, 27648, 28672,
    30720, 32768, 33792, 34816, 35840, 36864, 37888, 38912,
    40960, 43008, 44032, 45056, 46080, 47104, 48128, 49152,
    51200, 53248, 54272, 55296, 56320, 57344, 58368, 59392,
    61440, 63488, 64512, 65536, 66560, 67584, 68608, 69632,
    71680, 73728, 74752, 75776, 76800, 77824, 78848, 79872,
    81920, 86016, 88064, 90112, 92160, 94208, 96256, 98304,
];

/// Number of slots of the lookup table.
pub const ROOK_TABLE_SIZE: usize = 0x19000;

/// The squares attacked from `sq` along `deltas` on a board whose pieces stand
/// on `occupied`. Every delta is walked until the board ends or a piece is met;
/// the square of that piece is attacked, the squares behind it are not.
pub fn sliding_attack(sq: Square, occupied: Bitboard, deltas: &[i8]) -> (attack: Bitboard)
    requires
        sq.valid(),
        forall|i: int| 0 <= i < deltas@.len() ==> deltas@[i] != 0,
    ensures
        attack@ == attack_set(sq.0 as int, occupied@, deltas@),
{
    let mut attack = Bitboard::empty();
    let mut i: usize = 0;
    while i < deltas.len()
        invariant
            sq.valid(),
            i <= deltas@.len(),
            forall|j: int| 0 <= j < deltas@.len() ==> deltas@[j] != 0,
            forall|t: int|
                attack@.contains(t) <==> exists|j: int|
                    0 <= j < i && ray_visits(sq.0 as int, #[trigger] deltas@[j] as int, occupied@, t),
        decreases deltas@.len() - i,
    {
        let delta = deltas[i];
        let ghost before = attack;
        let mut s: i8 = sq.0;
        loop
            invariant
                on_board(s as int),
                delta != 0,
                forall|t: int|
                    (before@.contains(t) || ray_visits(sq.0 as int, delta as int, occupied@, t)) <==> (
                    attack@.contains(t) || ray_visits(s as int, delta as int, occupied@, t)),
            ensures
                forall|t: int|
                    attack@.contains(t) <==> (before@.contains(t) || ray_visits(
                        sq.0 as int,
                        delta as int,
                        occupied@,
                        t,
                    )),
            decreases room(s as int, delta as int),
        {
            let next: i16 = s as i16 + delta as i16;
            if next < 0 || next >= 64 {
                break ;
            }
            let landing = Square(next as i8);
            if distance(landing, Square(s)) > 2 {
                break ;
            }
            attack.insert(landing);
            if occupied.contains(landing) {
                break ;
            }
            s = landing.0;
        }
        proof {
            assert forall|t: int|
                attack@.contains(t) <==> exists|j: int|
                    0 <= j < i + 1 && ray_visits(sq.0 as int, #[trigger] deltas@[j] as int, occupied@, t) by {
                if before@.contains(t) {
                    let j = choose|j: int|
                        0 <= j < i && ray_visits(sq.0 as int, #[trigger] deltas@[j] as int, occupied@, t);
                    assert(0 <= j < i + 1);
                }
                if ray_visits(sq.0 as int, delta as int, occupied@, t) {
                    assert(deltas@[i as int] == delta);
                }
            }
        }
        i += 1;
    }
    proof {
        assert(attack@ =~= attack_set(sq.0 as int, occupied@, deltas@));
    }
    attack
}

/// The table slot that a lookup reads: the first slot of the square plus the
/// occupancy bits that its mask selects.
pub open spec fn magic_index_spec(
    indexes: Seq<usize>,
    masks: Seq<Bitboard>,
    sq: int,
    occupied: Bitboard,
) -> int {
    indexes[sq] + extract_bits(occupied.0, masks[sq].0)
}

/// The slot of `occupied` among the slots of `sq`.
pub fn magic_index(indexes: &[usize], masks: &[Bitboard], sq: Square, occupied: Bitboard) -> (slot:
    usize)
    requires
        sq.valid(),
        sq.0 < indexes@.len(),
        sq.0 < masks@.len(),
        magic_index_spec(indexes@, masks@, sq.0 as int, occupied) <= usize::MAX,
    ensures
        slot == magic_index_spec(indexes@, masks@, sq.0 as int, occupied),
{
    let Square(s) = sq;
    indexes[s as usize] + occupied.pext(masks[s as usize]) as usize
}

/// The relevant-occupancy mask of a rook on `sq`.
fn relevant_mask(sq: Square) -> (mask: Bitboard)
    requires
        sq.valid(),
    ensures
        mask@ == rook_mask(sq.0 as int),
{
    let rank_edges = Bitboard::rank(0).union(Bitboard::rank(7)).intersection(
        Bitboard::rank(sq.rank()).complement(),
    );
    let file_edges = Bitboard::file(0).union(Bitboard::file(7)).intersection(
        Bitboard::file(sq.file()).complement(),
    );
    let edges = rank_edges.union(file_edges);
    let open_board = sliding_attack(sq, Bitboard::empty(), &ROOK_DELTAS);
    let mask = open_board.intersection(edges.complement());
    proof {
        assert forall|t: int| mask@.contains(t) == rook_mask(sq.0 as int).contains(t) by {
            assert(edges@.contains(t) == (on_board(t) && far_edge(sq.0 as int, t)));
            assert(open_board@.contains(t) == attacked(
                sq.0 as int,
                Set::<int>::empty(),
                ROOK_DELTAS@,
                t,
            ));
        }
        assert(mask@ =~= rook_mask(sq.0 as int));
    }
    mask
}

/// Precomputed rook attacks for every square and every occupancy of its mask.
pub struct Table {
    rook_masks: Vec<Bitboard>,
    rook_table: Vec<Bitboard>,
}

/// The slot of square `sq` and subset `sub` of its mask `mask` holds the
/// attacks of a rook on `sq` when exactly the squares of `sub` are occupied.
pub open spec fn filled(slots: Seq<Bitboard>, sq: int, mask: Bitboard, sub: u64) -> bool {
    slots[ROOK_INDEXES@[sq] + extract_bits(sub, mask.0)]@ == attack_set(
        sq,
        Bitboard(sub)@,
        ROOK_DELTAS@,
    )
}

/// The slot of a subset of the mask of `sq` lies among the slots of `sq`.
pub proof fn lemma_slot_range(sq: int, mask: Bitboard, sub: u64)
    requires
        on_board(sq),
        mask@ == rook_mask(sq),
    ensures
        ROOK_INDEXES@[sq] <= ROOK_INDEXES@[sq] + extract_bits(sub, mask.0) < ROOK_INDEXES@[sq]
            + slot_count(sq) <= ROOK_TABLE_SIZE,
{
    lemma_extract_bound(sub, mask.0, 64);
    lemma_rook_mask_popcount(mask.0, sq);
    lemma_slots_in_table(sq);
}

impl Table {
    /// Every mask is the relevant-occupancy mask of its square, and every slot
    /// of every square holds the attacks for its subset of the mask.
    #[verifier::type_invariant]
    pub closed spec fn wf(&self) -> bool {
        &&& self.rook_masks@.len() == 64
        &&& self.rook_table@.len() == ROOK_TABLE_SIZE
        &&& forall|sq: int| 0 <= sq < 64 ==> (#[trigger] self.rook_masks@[sq])@ == rook_mask(sq)
        &&& forall|sq: int, sub: u64|
            0 <= sq < 64 && submask(sub, self.rook_masks@[sq].0) ==> #[trigger] filled(
                self.rook_table@,
                sq,
                self.rook_masks@[sq],
                sub,
            )
    }

    /// The relevant-occupancy mask that the table holds for square `sq`.
    pub closed spec fn mask(&self, sq: int) -> Bitboard {
        self.rook_masks@[sq]
    }

    /// The table slot that a lookup for `sq` and `occupied` reads.
    pub closed spec fn slot(&self, sq: int, occupied: Bitboard) -> int {
        magic_index_spec(ROOK_INDEXES@, self.rook_masks@, sq, occupied)
    }

    /// What a lookup for `sq` and `occupied` finds in the table.
    pub closed spec fn probe(&self, sq: int, occupied: Bitboard) -> Bitboard {
        self.rook_table@[self.slot(sq, occupied)]
    }

    /// Builds the table: for every square its mask, and for every subset of the
    /// mask the attacks that the reference walk finds.
    pub fn new() -> (table: Table)
        ensures
            table.wf(),
    {
        let mut rook_masks: Vec<Bitboard> = vec![Bitboard(0); 64];
        let mut rook_table: Vec<Bitboard> = vec![Bitboard(0); ROOK_TABLE_SIZE];
        let mut index: i8 = 0;
        while index < 64
            invariant
                0 <= index <= 64,
                rook_masks@.len() == 64,
                rook_table@.len() == ROOK_TABLE_SIZE,
                forall|sq: int| 0 <= sq < index ==> (#[trigger] rook_masks@[sq])@ == rook_mask(sq),
                forall|sq: int, sub: u64|
                    0 <= sq < index && submask(sub, rook_masks@[sq].0) ==> #[trigger] filled(
                        rook_table@,
                        sq,
                        rook_masks@[sq],
                        sub,
                    ),
            decreases 64 - index,
        {
            let sq = Square(index);
            let mask = relevant_mask(sq);
            rook_masks[index as usize] = mask;
            let mut subset = Bitboard::empty();
            proof {
                lemma_submask_basics(0, mask.0);
            }
            loop
                invariant_except_break
                    forall|sub: u64|
                        submask(sub, mask.0) && sub < subset.0 ==> #[trigger] filled(
                            rook_table@,
                            index as int,
                            mask,
                            sub,
                        ),
                invariant
                    0 <= index < 64,
                    sq == Square(index),
                    rook_masks@.len() == 64,
                    rook_table@.len() == ROOK_TABLE_SIZE,
                    rook_masks@[index as int] == mask,
                    mask@ == rook_mask(index as int),
                    submask(subset.0, mask.0),
                    subset.0 <= mask.0,
                    forall|sq: int|
                        0 <= sq < index ==> (#[trigger] rook_masks@[sq])@ == rook_mask(sq),
                    forall|sq: int, sub: u64|
                        0 <= sq < index && submask(sub, rook_masks@[sq].0) ==> #[trigger] filled(
                            rook_table@,
                            sq,
                            rook_masks@[sq],
                            sub,
                        ),
                ensures
                    forall|sub: u64|
                        submask(sub, mask.0) ==> #[trigger] filled(rook_table@, index as int, mask, sub),
                decreases mask.0 - subset.0,
            {
                let attacks = sliding_attack(sq, subset, &ROOK_DELTAS);
                proof {
                    lemma_slot_range(index as int, mask, subset.0);
                }
                let slot = magic_index(&ROOK_INDEXES, rook_masks.as_slice(), sq, subset);
                let ghost before = rook_table@;
                rook_table[slot] = attacks;
                proof {
                    assert(filled(rook_table@, index as int, mask, subset.0));
                    assert forall|other: u64|
                        submask(other, mask.0) && other < subset.0 implies #[trigger] filled(
                        rook_table@,
                        index as int,
                        mask,
                        other,
                    ) by {
                        assert(filled(before, index as int, mask, other));
                        lemma_slot_range(index as int, mask, other);
                        if extract_bits(other, mask.0) == extract_bits(subset.0, mask.0) {
                            lemma_extract_injective(other, subset.0, mask.0);
                        }
                    }
                    assert forall|low: int, other: u64|
                        0 <= low < index && submask(other, rook_masks@[low].0) implies #[trigger] filled(
                        rook_table@,
                        low,
                        rook_masks@[low],
                        other,
                    ) by {
                        assert(filled(before, low, rook_masks@[low], other));
                        lemma_slot_range(low, rook_masks@[low], other);
                        lemma_slots_ordered(low, index as int);
                    }
                }
                if subset.0 == mask.0 {
                    proof {
                        assert forall|other: u64| submask(other, mask.0) implies #[trigger] filled(
                            rook_table@,
                            index as int,
                            mask,
                            other,
                        ) by {
                            lemma_submask_basics(other, mask.0);
                        }
                    }
                    break ;
                }
                let ghost current = subset.0;
                subset = mask.next_subset(subset);
                proof {
                    assert forall|other: u64|
                        submask(other, mask.0) && other < subset.0 implies #[trigger] filled(
                        rook_table@,
                        index as int,
                        mask,
                        other,
                    ) by {
                        lemma_submask_successor(current, mask.0, other);
                    }
                    lemma_submask_basics(subset.0, mask.0);
                }
            }
            index += 1;
        }
        Table { rook_masks, rook_table }
    }

    /// The squares that a rook on `sq` attacks when the squares of `occupied`
    /// hold pieces, read from the table.
    pub fn rook_attacks(&self, sq: Square, occupied: Bitboard) -> (attack: Bitboard)
        requires
            sq.valid(),
        ensures
            attack == self.probe(sq.0 as int, occupied),
            attack@ == attack_set(sq.0 as int, occupied@, ROOK_DELTAS@),
    {
        proof {
            use_type_invariant(self);
            lemma_probe_is_walk(*self, sq.0 as int, occupied);
            lemma_slot_range(sq.0 as int, self.rook_masks@[sq.0 as int], occupied.0);
        }
        self.rook_table[magic_index(&ROOK_INDEXES, self.rook_masks.as_slice(), sq, occupied)]
    }
}

/// The table agrees with the reference walk: for every square and every
/// occupancy, whether or not it is confined to the mask of the square, a
/// lookup finds exactly the squares that the four rook walks visit.
pub proof fn lemma_probe_is_walk(table: Table, sq: int, occupied: Bitboard)
    requires
        table.wf(),
        on_board(sq),
    ensures
        table.probe(sq, occupied)@ == attack_set(sq, occupied@, ROOK_DELTAS@),
{
    let mask = table.rook_masks@[sq];
    let kept = Bitboard(occupied.0 & mask.0);
    lemma_submask_basics(occupied.0, mask.0);
    lemma_extract_masked(occupied.0, mask.0, 64);
    assert(filled(table.rook_table@, sq, mask, kept.0));
    lemma_intersection(occupied, mask);
    assert forall|t: int|
        attacked(sq, kept@, ROOK_DELTAS@, t) == attacked(sq, occupied@, ROOK_DELTAS@, t) by {
        lemma_relevant_occupancy(sq, occupied@, t);
    }
    assert(attack_set(sq, kept@, ROOK_DELTAS@) =~= attack_set(sq, occupied@, ROOK_DELTAS@));
}

/// Where a lookup reads: the mask that the table holds for a square is the
/// relevant-occupancy mask of a rook there, and the slot is the first slot of
/// the square plus the occupancy bits on the mask, which stays among the slots
/// of the square.
pub proof fn lemma_slot_of_lookup(table: Table, sq: int, occupied: Bitboard)
    requires
        table.wf(),
        on_board(sq),
    ensures
        table.mask(sq)@ == rook_mask(sq),
        table.slot(sq, occupied) == ROOK_INDEXES@[sq] + extract_bits(occupied.0, table.mask(sq).0),
        ROOK_INDEXES@[sq] <= table.slot(sq, occupied) < ROOK_INDEXES@[sq] + slot_count(sq),
{
    lemma_slot_range(sq, table.rook_masks@[sq], occupied.0);
}

/// No two lookups share a slot unless they ask the same question: for one
/// square, distinct subsets of its mask read distinct slots; for two squares,
/// every slot of the lower one lies below every slot of the higher one; and
/// every slot lies in the table.
pub proof fn lemma_slots_distinct(
    table: Table,
    first: int,
    first_occupied: Bitboard,
    second: int,
    second_occupied: Bitboard,
)
    requires
        table.wf(),
        on_board(first),
        on_board(second),
        submask(first_occupied.0, table.mask(first).0),
        submask(second_occupied.0, table.mask(second).0),
    ensures
        0 <= table.slot(first, first_occupied) < ROOK_TABLE_SIZE,
        first < second ==> table.slot(first, first_occupied) < ROOK_INDEXES@[second] <= table.slot(
            second,
            second_occupied,
        ),
        first == second && first_occupied != second_occupied ==> table.slot(first, first_occupied)
            != table.slot(second, second_occupied),
{
    lemma_slot_range(first, table.rook_masks@[first], first_occupied.0);
    lemma_slot_range(second, table.rook_masks@[second], second_occupied.0);
    if first < second {
        lemma_slots_ordered(first, second);
    }
    if first == second && table.slot(first, first_occupied) == table.slot(second, second_occupied) {
        lemma_extract_injective(first_occupied.0, second_occupied.0, table.rook_masks@[first].0);
    }
}

} // verus!
