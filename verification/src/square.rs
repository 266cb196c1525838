//! Squares of the board, numbered 0 to 63: a1 is 0, h1 is 7, a8 is 56 and
//! h8 is 63.

use vstd::prelude::*;

verus! {

/// A board cell. A valid square holds an index in `0..64`.
#[derive(Clone, Copy, Debug, PartialEq, Eq, Structural)]
pub struct Square(pub i8);

/// The index `s` names a cell of the board.
pub open spec fn on_board(s: int) -> bool {
    0 <= s < 64
}

/// Rank of the square with index `s`, counted from 0.
pub open spec fn rank_of(s: int) -> int {
    s / 8
}

/// File of the square with index `s`, counted from 0.
pub open spec fn file_of(s: int) -> int {
    s % 8
}

/// Absolute difference of two integers.
pub open spec fn gap(a: int, b: int) -> int {
    if a <= b {
        b - a
    } else {
        a - b
    }
}

/// Number of king steps between two squares: the larger of their rank and
/// file differences.
pub open spec fn distance_of(a: int, b: int) -> int {
    let dr = gap(rank_of(a), rank_of(b));
    let df = gap(file_of(a), file_of(b));
    if dr >= df {
        dr
    } else {
        df
    }
}

impl Square {
    /// The index lies on the board.
    pub open spec fn valid(self) -> bool {
        on_board(self.0 as int)
    }

    /// Rank of the square, counted from 0.
    pub fn rank(self) -> (r: i8)
        requires
            self.valid(),
        ensures
            r == rank_of(self.0 as int),
            0 <= r < 8,
    {
        self.0 / 8
    }

    /// File of the square, counted from 0.
    pub fn file(self) -> (f: i8)
        requires
            self.valid(),
        ensures
            f == file_of(self.0 as int),
            0 <= f < 8,
    {
        self.0 % 8
    }
}

/// Number of king steps between `a` and `b`.
pub fn distance(a: Square, b: Square) -> (d: i8)
    requires
        a.valid(),
        b.valid(),
    ensures
        d == distance_of(a.0 as int, b.0 as int),
        0 <= d < 8,
{
    let (ra, rb) = (a.rank(), b.rank());
    let (fa, fb) = (a.file(), b.file());
    let dr: i8 = if ra <= rb {
        rb - ra
    } else {
        ra - rb
    };
    let df: i8 = if fa <= fb {
        fb - fa
    } else {
        fa - fb
    };
    if dr >= df {
        dr
    } else {
        df
    }
}

} // verus!
