use magic_attacks::bitboard::Bitboard;
use magic_attacks::pext::extract;
use magic_attacks::square::{distance, Square};

#[test]
fn square_rank_and_file() {
    assert_eq!(Square(0).rank(), 0);
    assert_eq!(Square(0).file(), 0);
    assert_eq!(Square(43).rank(), 5);
    assert_eq!(Square(43).file(), 3);
    assert_eq!(Square(63).rank(), 7);
    assert_eq!(Square(63).file(), 7);
}

#[test]
fn distance_is_the_larger_difference() {
    assert_eq!(distance(Square(0), Square(0)), 0);
    assert_eq!(distance(Square(0), Square(63)), 7);
    assert_eq!(distance(Square(7), Square(8)), 7);
    assert_eq!(distance(Square(8), Square(7)), 7);
    assert_eq!(distance(Square(27), Square(35)), 1);
    assert_eq!(distance(Square(27), Square(44)), 2);
    assert_eq!(distance(Square(27), Square(10)), 2);
    assert_eq!(distance(Square(27), Square(30)), 3);
}

#[test]
fn bitboard_membership_and_insert() {
    let mut board = Bitboard::empty();
    assert_eq!(board, Bitboard(0));
    assert!(!board.contains(Square(43)));
    board.insert(Square(43));
    assert!(board.contains(Square(43)));
    assert!(!board.contains(Square(42)));
    assert_eq!(board, Bitboard(1 << 43));
    board.insert(Square(43));
    assert_eq!(board, Bitboard(1 << 43));
    board.insert(Square(63));
    assert_eq!(board, Bitboard((1 << 43) | (1 << 63)));
    board.insert(Square(0));
    assert!(board.contains(Square(0)));
}

#[test]
fn bitboard_set_operations() {
    let a = Bitboard(0b1100);
    let b = Bitboard(0b1010);
    assert_eq!(a.union(b), Bitboard(0b1110));
    assert_eq!(a.intersection(b), Bitboard(0b1000));
    assert_eq!(a.complement(), Bitboard(!0b1100));
    assert_eq!(Bitboard(0).complement(), Bitboard(u64::MAX));
}

#[test]
fn rank_and_file_masks() {
    assert_eq!(Bitboard::rank(0), Bitboard(0xff));
    assert_eq!(Bitboard::rank(5), Bitboard(0xff00_0000_0000));
    assert_eq!(Bitboard::rank(7), Bitboard(0xff00_0000_0000_0000));
    assert_eq!(Bitboard::file(0), Bitboard(0x0101_0101_0101_0101));
    assert_eq!(Bitboard::file(3), Bitboard(0x0808_0808_0808_0808));
    assert_eq!(Bitboard::file(7), Bitboard(0x8080_8080_8080_8080));
}

#[test]
fn subsets_are_enumerated_in_rising_order() {
    let mask = Bitboard(0b1011_0000);
    let mut seen = Vec::new();
    let mut subset = Bitboard(0);
    loop {
        seen.push(subset.0);
        subset = mask.next_subset(subset);
        if subset == Bitboard(0) {
            break;
        }
    }
    assert_eq!(
        seen,
        vec![0b0000_0000, 0b0001_0000, 0b0010_0000, 0b0011_0000, 0b1000_0000, 0b1001_0000,
            0b1010_0000, 0b1011_0000]
    );
}

#[test]
fn subsets_of_the_empty_and_the_full_mask() {
    assert_eq!(Bitboard(0).next_subset(Bitboard(0)), Bitboard(0));
    let full = Bitboard(u64::MAX);
    assert_eq!(full.next_subset(Bitboard(0)), Bitboard(1));
    assert_eq!(full.next_subset(Bitboard(u64::MAX - 1)), Bitboard(u64::MAX));
    assert_eq!(full.next_subset(Bitboard(u64::MAX)), Bitboard(0));
}

#[test]
fn extraction_packs_the_selected_bits() {
    assert_eq!(extract(0, 0), 0);
    assert_eq!(extract(u64::MAX, 0), 0);
    assert_eq!(extract(0, u64::MAX), 0);
    assert_eq!(extract(u64::MAX, u64::MAX), u64::MAX);
    assert_eq!(extract(0x1234_5678_9abc_def0, u64::MAX), 0x1234_5678_9abc_def0);
    assert_eq!(extract(0b1010_1100, 0b1111_0000), 0b1010);
    assert_eq!(extract(0b1010_1100, 0b0101_0101), 0b0010);
    assert_eq!(extract(0x8000_0000_0000_0001, 0x8000_0000_0000_0001), 0b11);
    assert_eq!(extract(0x8000_0000_0000_0000, 0x8000_0000_0000_0001), 0b10);
    assert_eq!(Bitboard(0x1234).pext(Bitboard(0xff00)), 0x12);
}

#[test]
fn extraction_ignores_bits_outside_the_mask() {
    let mask = 0x000101010101017eu64;
    let occupied = 0x3f7f28802826f5b9u64;
    assert_eq!(extract(occupied, mask), extract(occupied & mask, mask));
}
