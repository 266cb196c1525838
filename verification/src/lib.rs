//! Rook attack sets on an 8x8 board: a reference ray walk, a precomputed
//! lookup table that agrees with it, and the counting rules of a perft driver.

pub mod bitboard;
pub mod bits;
pub mod magics;
pub mod perft;
pub mod pext;
pub mod rays;
pub mod rook;
pub mod square;
pub mod walk;
