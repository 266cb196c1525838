//! What a sliding piece attacks: the walk along a ray, stated on square
//! indices and sets of squares.

use vstd::prelude::*;
use crate::square::{distance_of, file_of, on_board, rank_of};

verus! {

/// Number of steps that a walk from `from` by `delta` can take at most before
/// it leaves the board.
pub open spec fn room(from: int, delta: int) -> nat {
    if !on_board(from) {
        0
    } else if delta > 0 {
        (64 - from) as nat
    } else {
        (from + 1) as nat
    }
}

/// A single step from `from` may land on `to`: `to` is on the board and at
/// most two king steps away, so the step did not wrap around an edge.
pub open spec fn step_allowed(from: int, to: int) -> bool {
    on_board(to) && distance_of(from, to) <= 2
}

/// The walk that leaves `from` in steps of `delta` reaches `target`. The walk
/// visits `from + delta`, `from + 2 * delta`, and so on; it ends before a step
/// that is not allowed, and on the first occupied square, which it still
/// visits.
pub open spec fn ray_visits(from: int, delta: int, occupied: Set<int>, target: int) -> bool
    decreases room(from, delta),
{
    let next = from + delta;
    if delta != 0 && on_board(from) && step_allowed(from, next) {
        next == target || (!occupied.contains(next) && ray_visits(next, delta, occupied, target))
    } else {
        false
    }
}

/// Some ray of `deltas` from `origin` visits `target`.
pub open spec fn attacked(origin: int, occupied: Set<int>, deltas: Seq<i8>, target: int) -> bool {
    exists|i: int| 0 <= i < deltas.len() && ray_visits(origin, #[trigger] deltas[i] as int, occupied, target)
}

/// The squares that a slider on `origin` attacks along `deltas` when the
/// squares of `occupied` hold pieces.
pub open spec fn attack_set(origin: int, occupied: Set<int>, deltas: Seq<i8>) -> Set<int> {
    Set::new(|target: int| attacked(origin, occupied, deltas, target))
}

/// A walk only visits squares of the board.
pub proof fn lemma_ray_on_board(from: int, delta: int, occupied: Set<int>, target: int)
    requires
        ray_visits(from, delta, occupied, target),
    ensures
        on_board(target),
        target != from,
        delta > 0 ==> target > from,
        delta < 0 ==> target < from,
    decreases room(from, delta),
{
    let next = from + delta;
    if next != target {
        lemma_ray_on_board(next, delta, occupied, target);
    }
}

/// A walk ends on the first piece it meets: when `blocker` lies on the ray and
/// is occupied, no square that the ray would reach after `blocker` is visited.
pub proof fn lemma_blocker_ends_walk(
    from: int,
    delta: int,
    occupied: Set<int>,
    blocker: int,
    target: int,
)
    requires
        ray_visits(from, delta, Set::<int>::empty(), blocker),
        occupied.contains(blocker),
        ray_visits(blocker, delta, Set::<int>::empty(), target),
    ensures
        !ray_visits(from, delta, occupied, target),
    decreases room(from, delta),
{
    let next = from + delta;
    lemma_ray_on_board(blocker, delta, Set::<int>::empty(), target);
    if next != blocker {
        lemma_ray_on_board(next, delta, Set::<int>::empty(), blocker);
        lemma_blocker_ends_walk(next, delta, occupied, blocker, target);
    }
}

/// A walk never wraps around an edge of the board: every visited square is
/// reached from a square of the board at most two king steps away, a walk
/// along a rank stays on that rank, and a walk along a file stays on that
/// file.
pub proof fn lemma_no_wraparound(from: int, delta: int, occupied: Set<int>, target: int)
    requires
        ray_visits(from, delta, occupied, target),
    ensures
        on_board(target - delta),
        distance_of(target - delta, target) <= 2,
        delta == 1 || delta == -1 ==> rank_of(target) == rank_of(from),
        delta == 8 || delta == -8 ==> file_of(target) == file_of(from),
    decreases room(from, delta),
{
    let next = from + delta;
    if next != target {
        lemma_no_wraparound(next, delta, occupied, target);
    }
}

/// The walk up the files: it stays on the rank and stops at the first piece.
pub proof fn lemma_walk_east(from: int, occupied: Set<int>, target: int)
    requires
        on_board(from),
    ensures
        ray_visits(from, 1, occupied, target) <==> (from < target && rank_of(target) == rank_of(
            from,
        ) && forall|u: int| from < u < target ==> !occupied.contains(u)),
    decreases 64 - from,
{
    let next = from + 1;
    if step_allowed(from, next) && next != target && !occupied.contains(next) {
        lemma_walk_east(next, occupied, target);
    }
}

/// The walk down the files.
pub proof fn lemma_walk_west(from: int, occupied: Set<int>, target: int)
    requires
        on_board(from),
    ensures
        ray_visits(from, -1, occupied, target) <==> (0 <= target < from && rank_of(target)
            == rank_of(from) && forall|u: int| target < u < from ==> !occupied.contains(u)),
    decreases from,
{
    let next = from - 1;
    if step_allowed(from, next) && next != target && !occupied.contains(next) {
        lemma_walk_west(next, occupied, target);
    }
}

/// The walk up the ranks: it stays on the file and stops at the first piece.
pub proof fn lemma_walk_north(from: int, occupied: Set<int>, target: int)
    requires
        on_board(from),
    ensures
        ray_visits(from, 8, occupied, target) <==> (from < target < 64 && file_of(target)
            == file_of(from) && forall|u: int|
            from < u < target && file_of(u) == file_of(from) ==> !occupied.contains(u)),
    decreases 64 - from,
{
    let next = from + 8;
    if step_allowed(from, next) && next != target && !occupied.contains(next) {
        lemma_walk_north(next, occupied, target);
    }
}

/// The walk down the ranks.
pub proof fn lemma_walk_south(from: int, occupied: Set<int>, target: int)
    requires
        on_board(from),
    ensures
        ray_visits(from, -8, occupied, target) <==> (0 <= target < from && file_of(target)
            == file_of(from) && forall|u: int|
            target < u < from && file_of(u) == file_of(from) ==> !occupied.contains(u)),
    decreases from,
{
    let next = from - 8;
    if step_allowed(from, next) && next != target && !occupied.contains(next) {
        lemma_walk_south(next, occupied, target);
    }
}

} // verus!
