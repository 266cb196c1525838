use magic_attacks::bitboard::Bitboard;
use magic_attacks::magics::{sliding_attack, Table};
use magic_attacks::perft::{plies_below, sum_counts};
use magic_attacks::square::{distance, Square};
use magic_attacks::walk::{Action, Event, Walk};

const BISHOP_DELTAS: [i8; 4] = [9, 7, -9, -7];
const KNIGHT_STEPS: [i8; 8] = [17, 15, 10, 6, -6, -10, -15, -17];
const KING_STEPS: [i8; 8] = [9, 8, 7, 1, -1, -7, -8, -9];

/// A chess position without castling, en passant and promotion: enough for
/// the first four plies from the initial position, where none of them occurs.
#[derive(Clone)]
struct Board {
    white: u64,
    black: u64,
    pawns: u64,
    knights: u64,
    bishops: u64,
    rooks: u64,
    queens: u64,
    kings: u64,
    white_to_move: bool,
}

#[derive(Clone, Copy)]
struct Move {
    from: i8,
    to: i8,
}

fn squares(mut set: u64) -> Vec<i8> {
    let mut out = Vec::new();
    while set != 0 {
        out.push(set.trailing_zeros() as i8);
        set &= set - 1;
    }
    out
}

fn steps(from: i8, deltas: &[i8]) -> u64 {
    let mut out = 0;
    for delta in deltas {
        let to = from as i16 + *delta as i16;
        if (0..64).contains(&to) && distance(Square(from), Square(to as i8)) <= 2 {
            out |= 1u64 << to;
        }
    }
    out
}

impl Board {
    fn initial() -> Board {
        Board {
            white: 0x0000_0000_0000_ffff,
            black: 0xffff_0000_0000_0000,
            pawns: 0x00ff_0000_0000_ff00,
            knights: 0x4200_0000_0000_0042,
            bishops: 0x2400_0000_0000_0024,
            rooks: 0x8100_0000_0000_0081,
            queens: 0x0800_0000_0000_0008,
            kings: 0x1000_0000_0000_0010,
            white_to_move: true,
        }
    }

    fn occupied(&self) -> u64 {
        self.white | self.black
    }

    fn attacked(&self, sq: i8, by_white: bool, table: &Table) -> bool {
        let them = if by_white { self.white } else { self.black };
        let occupied = Bitboard(self.occupied());
        let straight = table.rook_attacks(Square(sq), occupied).0;
        let diagonal = sliding_attack(Square(sq), occupied, &BISHOP_DELTAS).0;
        let pawn_from: [i8; 2] = if by_white { [-7, -9] } else { [7, 9] };
        straight & them & (self.rooks | self.queens) != 0
            || diagonal & them & (self.bishops | self.queens) != 0
            || steps(sq, &KNIGHT_STEPS) & them & self.knights != 0
            || steps(sq, &KING_STEPS) & them & self.kings != 0
            || steps(sq, &pawn_from) & them & self.pawns != 0
    }

    fn do_move(&mut self, m: &Move) {
        let from = 1u64 << m.from;
        let to = 1u64 << m.to;
        for set in [
            &mut self.white,
            &mut self.black,
            &mut self.pawns,
            &mut self.knights,
            &mut self.bishops,
            &mut self.rooks,
            &mut self.queens,
            &mut self.kings,
        ] {
            let moved = *set & from != 0;
            *set &= !(from | to);
            if moved {
                *set |= to;
            }
        }
        self.white_to_move = !self.white_to_move;
    }

    fn legal_moves(&self, moves: &mut Vec<Move>, table: &Table) {
        let (us, them) = if self.white_to_move {
            (self.white, self.black)
        } else {
            (self.black, self.white)
        };
        let occupied = self.occupied();
        let mut found = Vec::new();
        for from in squares(us) {
            let bit = 1u64 << from;
            let targets = if self.pawns & bit != 0 {
                let (push, home, takes): (i8, i8, [i8; 2]) = if self.white_to_move {
                    (8, 1, [7, 9])
                } else {
                    (-8, 6, [-7, -9])
                };
                let mut targets = steps(from, &takes) & them;
                let one = steps(from, &[push]) & !occupied;
                targets |= one;
                if one != 0 && from / 8 == home {
                    targets |= steps(from + push, &[push]) & !occupied;
                }
                targets
            } else if self.knights & bit != 0 {
                steps(from, &KNIGHT_STEPS) & !us
            } else if self.kings & bit != 0 {
                steps(from, &KING_STEPS) & !us
            } else {
                let mut targets = 0;
                if (self.rooks | self.queens) & bit != 0 {
                    targets |= table.rook_attacks(Square(from), Bitboard(occupied)).0;
                }
                if (self.bishops | self.queens) & bit != 0 {
                    targets |= sliding_attack(Square(from), Bitboard(occupied), &BISHOP_DELTAS).0;
                }
                targets & !us
            };
            for to in squares(targets) {
                found.push(Move { from, to });
            }
        }
        for m in found {
            let mut child = self.clone();
            child.do_move(&m);
            let king = (child.kings & if self.white_to_move { child.white } else { child.black })
                .trailing_zeros() as i8;
            if !child.attacked(king, child.white_to_move, table) {
                moves.push(m);
            }
        }
    }
}

/// Counts the leaves below `board` with a walk: the walk says what to do, the
/// positions and their moves are kept here.
fn perft_inner(board: &Board, depth: i8, table: &Table) -> usize {
    let mut walk = Walk::new(depth);
    let mut path: Vec<(Board, Vec<Move>)> = vec![(board.clone(), Vec::new())];
    loop {
        let top = path.len() - 1;
        let event = match walk.pending() {
            Action::Generate => {
                let mut moves = Vec::new();
                path[top].0.legal_moves(&mut moves, table);
                path[top].1 = moves;
                Event::Moves(path[top].1.len())
            }
            Action::Enter(index) => {
                let mut child = path[top].0.clone();
                child.do_move(&path[top].1[index]);
                path.push((child, Vec::new()));
                Event::Moved
            }
            Action::Leave => {
                path.pop();
                Event::Moved
            }
            Action::Done(count) => return count,
            Action::Overflow => panic!("the count does not fit"),
        };
        walk = walk.resume(event);
    }
}

/// Counts with the first ply split over the moves of the root, the counts
/// summed in the order given by `order`.
fn perft_split(board: &Board, depth: i8, table: &Table, reverse: bool) -> usize {
    match plies_below(depth) {
        None => 1,
        Some(below) => {
            let mut moves = Vec::new();
            board.legal_moves(&mut moves, table);
            let mut counts: Vec<usize> = moves
                .iter()
                .map(|m| {
                    let mut child = board.clone();
                    child.do_move(m);
                    perft_inner(&child, below, table)
                })
                .collect();
            if reverse {
                counts.reverse();
            }
            sum_counts(&counts).unwrap()
        }
    }
}

#[test]
fn perft_of_the_initial_position() {
    let table = Table::new();
    let board = Board::initial();
    assert_eq!(perft_inner(&board, 0, &table), 1);
    assert_eq!(perft_inner(&board, 1, &table), 20);
    assert_eq!(perft_inner(&board, 2, &table), 400);
    assert_eq!(perft_inner(&board, 3, &table), 8902);
}

#[test]
fn perft_of_the_initial_position_to_four_plies() {
    let table = Table::new();
    assert_eq!(perft_inner(&Board::initial(), 4, &table), 197281);
}

#[test]
fn perft_split_over_the_first_ply() {
    let table = Table::new();
    let board = Board::initial();
    assert_eq!(perft_split(&board, 0, &table, false), 1);
    assert_eq!(perft_split(&board, 1, &table, false), 20);
    assert_eq!(perft_split(&board, 2, &table, true), 400);
    assert_eq!(perft_split(&board, 3, &table, false), 8902);
    assert_eq!(perft_split(&board, 3, &table, true), perft_inner(&board, 3, &table));
    assert_eq!(perft_split(&board, 4, &table, true), 197281);
}
