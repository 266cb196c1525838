use magic_attacks::bitboard::Bitboard;
use magic_attacks::magics::{
    magic_index, sliding_attack, Table, ROOK_DELTAS, ROOK_INDEXES, ROOK_TABLE_SIZE,
};
use magic_attacks::square::Square;

const A1: Square = Square(0);
const H1: Square = Square(7);
const D4: Square = Square(27);
const D6: Square = Square(43);
const A8: Square = Square(56);
const H8: Square = Square(63);

fn bit(index: i8) -> u64 {
    1u64 << index
}

/// A small deterministic generator of occupancies.
fn scramble(state: &mut u64) -> u64 {
    *state ^= *state << 13;
    *state ^= *state >> 7;
    *state ^= *state << 17;
    *state
}

#[test]
fn test_sliding_rook_attacks() {
    let attack = sliding_attack(D6, Bitboard(0x3f7f28802826f5b9), &ROOK_DELTAS);
    assert_eq!(attack, Bitboard(0x8370808000000));
}

#[test]
fn test_rook_attacks() {
    let table = Table::new();
    assert_eq!(table.rook_attacks(D6, Bitboard(0x3f7f28802826f5b9)), Bitboard(0x8370808000000));
}

#[test]
fn rook_on_empty_board_attacks_rank_and_file() {
    assert_eq!(sliding_attack(A1, Bitboard(0), &ROOK_DELTAS), Bitboard(0x01010101010101fe));
    assert_eq!(sliding_attack(D4, Bitboard(0), &ROOK_DELTAS), Bitboard(0x08080808f7080808));
    assert_eq!(sliding_attack(H8, Bitboard(0), &ROOK_DELTAS), Bitboard(0x7f80808080808080));
}

#[test]
fn walk_without_deltas_attacks_nothing() {
    assert_eq!(sliding_attack(D4, Bitboard(u64::MAX), &[]), Bitboard(0));
}

#[test]
fn walk_stops_on_first_blocker_and_includes_it() {
    // Pieces on f4 and h4: a rook on d4 walking up the files reaches e4 and
    // f4 and nothing behind f4.
    let occupied = Bitboard(bit(29) | bit(31));
    assert_eq!(sliding_attack(D4, occupied, &[1]), Bitboard(bit(28) | bit(29)));
    // The piece on the rook's own square blocks nothing.
    assert_eq!(sliding_attack(D4, Bitboard(bit(27)), &[1]), Bitboard(0xf0000000));
    // A blocker next to the rook is the only square attacked that way.
    assert_eq!(sliding_attack(D4, Bitboard(bit(35)), &[8]), Bitboard(bit(35)));
}

#[test]
fn walk_does_not_wrap_around_the_board() {
    // From h1 a step up the files would land on a2.
    assert_eq!(sliding_attack(H1, Bitboard(0), &[1]), Bitboard(0));
    // From a8 a step down the files would land on h7.
    assert_eq!(sliding_attack(A8, Bitboard(0), &[-1]), Bitboard(0));
    // From h8 a step up the ranks leaves the board.
    assert_eq!(sliding_attack(H8, Bitboard(0), &[8]), Bitboard(0));
    assert_eq!(sliding_attack(A1, Bitboard(0), &[-8]), Bitboard(0));
    // A rook on h1 never attacks file a of the next rank.
    let attack = sliding_attack(H1, Bitboard(0), &ROOK_DELTAS);
    assert!(!attack.contains(Square(8)));
    assert_eq!(attack, Bitboard(0x808080808080807f));
}

#[test]
fn walk_handles_other_deltas() {
    // A bishop on d4 on the empty board.
    assert_eq!(sliding_attack(D4, Bitboard(0), &[9, 7, -9, -7]), Bitboard(0x8041221400142241));
    // A step of two files is allowed, a step of three is a wrap.
    assert_eq!(sliding_attack(A1, Bitboard(0), &[2]), Bitboard(bit(2) | bit(4) | bit(6)));
    assert_eq!(sliding_attack(A1, Bitboard(0), &[3]), Bitboard(0));
    // Large deltas leave the board at once.
    assert_eq!(sliding_attack(H8, Bitboard(0), &[127, -128]), Bitboard(0));
}

#[test]
fn table_agrees_with_walk_on_every_square() {
    let table = Table::new();
    let mut state = 0x9e3779b97f4a7c15u64;
    for index in 0..64i8 {
        let sq = Square(index);
        for occupied in [0, u64::MAX, bit(index), !bit(index)] {
            assert_eq!(
                table.rook_attacks(sq, Bitboard(occupied)),
                sliding_attack(sq, Bitboard(occupied), &ROOK_DELTAS)
            );
        }
        for _ in 0..200 {
            let occupied = Bitboard(scramble(&mut state) & scramble(&mut state));
            assert_eq!(
                table.rook_attacks(sq, occupied),
                sliding_attack(sq, occupied, &ROOK_DELTAS)
            );
        }
    }
}

#[test]
fn table_can_be_asked_again_and_again() {
    let table = Table::new();
    let first = table.rook_attacks(A1, Bitboard(0));
    let second = table.rook_attacks(A1, Bitboard(0));
    assert_eq!(first, second);
    assert_eq!(first, Bitboard(0x01010101010101fe));
}

#[test]
fn slot_ranges_do_not_overlap() {
    assert_eq!(ROOK_TABLE_SIZE, 102400);
    for index in 0..64usize {
        let rank_inner = (1..7).contains(&(index / 8));
        let file_inner = (1..7).contains(&(index % 8));
        let bits = 12 - rank_inner as u32 - file_inner as u32;
        let end = ROOK_INDEXES[index] + (1usize << bits);
        if index < 63 {
            assert_eq!(end, ROOK_INDEXES[index + 1]);
        } else {
            assert_eq!(end, ROOK_TABLE_SIZE);
        }
    }
}

#[test]
fn magic_index_adds_extracted_bits_to_base() {
    let masks = [Bitboard(0b1010), Bitboard(0xff00)];
    let indexes = [100usize, 500];
    assert_eq!(magic_index(&indexes, &masks, Square(0), Bitboard(0)), 100);
    assert_eq!(magic_index(&indexes, &masks, Square(0), Bitboard(0b1000)), 102);
    assert_eq!(magic_index(&indexes, &masks, Square(0), Bitboard(0b1111)), 103);
    assert_eq!(magic_index(&indexes, &masks, Square(1), Bitboard(0x1234)), 500 + 0x12);
}

#[test]
fn distinct_subsets_of_a_mask_have_distinct_slots() {
    // The mask of a rook on a1: a2 to a7 and b1 to g1.
    let mask = Bitboard(0x000101010101017e);
    let masks = [mask];
    let mut seen = vec![false; 4096];
    let mut subset = Bitboard(0);
    let mut count = 0;
    loop {
        let slot = magic_index(&ROOK_INDEXES, &masks, A1, subset);
        assert!(slot < 4096);
        assert!(!seen[slot]);
        seen[slot] = true;
        count += 1;
        subset = mask.next_subset(subset);
        if subset == Bitboard(0) {
            break;
        }
    }
    assert_eq!(count, 4096);
}
