//! Counting the leaves of a game tree to a fixed depth. The positions and
//! their moves stay with the caller; this module holds what is counted and
//! how the counts are combined.

use vstd::prelude::*;
use vstd::seq_lib::{to_multiset_build, to_multiset_contains, to_multiset_len, to_multiset_remove};

verus! {

/// A game tree as far as counting is concerned: a position is the sequence of
/// the positions that its legal moves lead to.
pub struct GameTree {
    pub children: Seq<GameTree>,
}

/// Number of leaves of `tree` at `depth` plies: the position itself when no
/// ply is left, else the leaves below each of its children with one ply fewer.
pub open spec fn leaves(tree: GameTree, depth: int) -> nat
    decreases depth, 0nat,
{
    if depth < 1 {
        1
    } else {
        sum_leaves(tree.children, depth - 1)
    }
}

/// Sum of the leaves at `depth` plies below each position of `positions`.
pub open spec fn sum_leaves(positions: Seq<GameTree>, depth: int) -> nat
    decreases depth, positions.len() + 1,
{
    if positions.len() == 0 {
        0
    } else {
        sum_leaves(positions.drop_last(), depth) + leaves(positions.last(), depth)
    }
}

/// Number of rounds that it takes to count the leaves of `tree` at `depth`
/// plies move by move: one for every position whose moves are generated, and
/// the visits of its children.
pub open spec fn expansion(tree: GameTree, depth: int) -> nat
    decreases depth, 0nat,
{
    if depth < 1 {
        0
    } else {
        1 + sum_visits(tree.children, depth - 1)
    }
}

/// Number of rounds that it takes to visit each position of `positions` in
/// turn: one to enter it, those to count below it at `depth` plies, and one to
/// leave it.
pub open spec fn sum_visits(positions: Seq<GameTree>, depth: int) -> nat
    decreases depth, positions.len() + 1,
{
    if positions.len() == 0 {
        0
    } else {
        sum_visits(positions.drop_last(), depth) + 2 + expansion(positions.last(), depth)
    }
}

/// Sum of a sequence of counts.
pub open spec fn total(counts: Seq<usize>) -> nat
    decreases counts.len(),
{
    if counts.len() == 0 {
        0
    } else {
        total(counts.drop_last()) + counts.last() as nat
    }
}

/// Adding one more position to a prefix adds the leaves below that position.
pub proof fn lemma_sum_leaves_step(positions: Seq<GameTree>, depth: int, n: int)
    requires
        0 <= n < positions.len(),
    ensures
        sum_leaves(positions.take(n + 1), depth) == sum_leaves(positions.take(n), depth) + leaves(
            positions[n],
            depth,
        ),
{
    assert(positions.take(n + 1).drop_last() =~= positions.take(n));
}

/// The leaves below a prefix of the positions are at most those below all.
pub proof fn lemma_sum_leaves_prefix(positions: Seq<GameTree>, depth: int, n: int)
    requires
        0 <= n <= positions.len(),
    ensures
        sum_leaves(positions.take(n), depth) <= sum_leaves(positions, depth),
    decreases positions.len() - n,
{
    if n == positions.len() {
        assert(positions.take(n) =~= positions);
    } else {
        lemma_sum_leaves_step(positions, depth, n);
        lemma_sum_leaves_prefix(positions, depth, n + 1);
    }
}

/// Visiting one more position adds the work of that visit.
pub proof fn lemma_sum_visits_step(positions: Seq<GameTree>, depth: int, n: int)
    requires
        0 <= n < positions.len(),
    ensures
        sum_visits(positions.take(n + 1), depth) == sum_visits(positions.take(n), depth) + 2
            + expansion(positions[n], depth),
{
    assert(positions.take(n + 1).drop_last() =~= positions.take(n));
}

/// Visiting a prefix of the positions is at most the work of visiting all.
pub proof fn lemma_sum_visits_prefix(positions: Seq<GameTree>, depth: int, n: int)
    requires
        0 <= n <= positions.len(),
    ensures
        sum_visits(positions.take(n), depth) <= sum_visits(positions, depth),
    decreases positions.len() - n,
{
    if n == positions.len() {
        assert(positions.take(n) =~= positions);
    } else {
        lemma_sum_visits_step(positions, depth, n);
        lemma_sum_visits_prefix(positions, depth, n + 1);
    }
}

/// A position has at least the leaves of each of its children.
pub proof fn lemma_leaves_child(tree: GameTree, depth: int, i: int)
    requires
        depth >= 1,
        0 <= i < tree.children.len(),
    ensures
        leaves(tree.children[i], depth - 1) <= leaves(tree, depth),
{
    lemma_sum_leaves_step(tree.children, depth - 1, i);
    lemma_sum_leaves_prefix(tree.children, depth - 1, i + 1);
}

/// Taking one count out of a sequence lowers the sum by that count.
pub proof fn lemma_total_remove(counts: Seq<usize>, i: int)
    requires
        0 <= i < counts.len(),
    ensures
        total(counts) == total(counts.remove(i)) + counts[i],
    decreases counts.len(),
{
    if i == counts.len() - 1 {
        assert(counts.remove(i) =~= counts.drop_last());
    } else {
        lemma_total_remove(counts.drop_last(), i);
        assert(counts.drop_last().remove(i) =~= counts.remove(i).drop_last());
    }
}

/// A partial sum never exceeds the whole.
pub proof fn lemma_total_prefix(counts: Seq<usize>, n: int)
    requires
        0 <= n <= counts.len(),
    ensures
        total(counts.take(n)) <= total(counts),
    decreases counts.len() - n,
{
    if n == counts.len() {
        assert(counts.take(n) =~= counts);
    } else {
        lemma_total_prefix(counts, n + 1);
        assert(counts.take(n + 1).drop_last() =~= counts.take(n));
    }
}

/// The sum does not depend on the order of the counts: two sequences that
/// hold the same counts, each as often as the other, have the same sum.
pub proof fn lemma_total_any_order(a: Seq<usize>, b: Seq<usize>)
    requires
        a.to_multiset() == b.to_multiset(),
    ensures
        total(a) == total(b),
    decreases a.len(),
{
    to_multiset_len(a);
    to_multiset_len(b);
    if a.len() > 0 {
        let x = a.last();
        let rest = a.drop_last();
        assert(a =~= rest.push(x));
        to_multiset_build(rest, x);
        to_multiset_contains(b, x);
        let j = choose|j: int| 0 <= j < b.len() && b[j] == x;
        to_multiset_remove(b, j);
        assert(b.remove(j).to_multiset() =~= rest.to_multiset());
        lemma_total_any_order(rest, b.remove(j));
        lemma_total_remove(b, j);
    }
}

/// Counts that are, move by move, the leaves below the children of a position
/// add up to the leaves below the position.
pub proof fn lemma_total_is_sum_leaves(positions: Seq<GameTree>, depth: int, counts: Seq<usize>)
    requires
        counts.len() == positions.len(),
        forall|i: int| 0 <= i < counts.len() ==> counts[i] == leaves(#[trigger] positions[i], depth),
    ensures
        total(counts) == sum_leaves(positions, depth),
    decreases counts.len(),
{
    if counts.len() > 0 {
        let shorter = positions.drop_last();
        assert forall|i: int| 0 <= i < shorter.len() implies counts.drop_last()[i] == leaves(
            #[trigger] shorter[i],
            depth,
        ) by {
            assert(shorter[i] == positions[i]);
        }
        lemma_total_is_sum_leaves(shorter, depth, counts.drop_last());
        assert(positions.last() == positions[positions.len() - 1]);
    }
}

/// Splitting the first ply does not change the count: when every move of the
/// root has the leaves below its child counted separately, the counts add up
/// to the leaves of the root in whatever order they come in.
pub proof fn lemma_split_root_any_order(
    tree: GameTree,
    depth: int,
    by_move: Seq<usize>,
    reported: Seq<usize>,
)
    requires
        depth >= 1,
        by_move.len() == tree.children.len(),
        forall|i: int|
            0 <= i < by_move.len() ==> by_move[i] == leaves(#[trigger] tree.children[i], depth - 1),
        reported.to_multiset() == by_move.to_multiset(),
    ensures
        total(reported) == leaves(tree, depth),
{
    lemma_total_is_sum_leaves(tree.children, depth - 1, by_move);
    lemma_total_any_order(reported, by_move);
}

/// How a count to `depth` plies is split over the moves of the root: with no
/// ply left the root is the one leaf and nothing is split; otherwise the
/// leaves below every move are counted with one ply fewer.
pub fn plies_below(depth: i8) -> (below: Option<i8>)
    ensures
        depth < 1 ==> below.is_none(),
        depth >= 1 ==> below == Some((depth - 1) as i8),
{
    if depth < 1 {
        None
    } else {
        Some(depth - 1)
    }
}

/// Adds up the counts of the subtrees below one position. The sum is returned
/// when it fits the machine word, and nothing when it does not.
pub fn sum_counts(counts: &[usize]) -> (sum: Option<usize>)
    ensures
        total(counts@) <= usize::MAX ==> sum == Some(total(counts@) as usize),
        total(counts@) > usize::MAX ==> sum.is_none(),
{
    let mut sum: usize = 0;
    let mut i: usize = 0;
    while i < counts.len()
        invariant
            i <= counts@.len(),
            sum == total(counts@.take(i as int)),
        decreases counts@.len() - i,
    {
        proof {
            assert(counts@.take(i + 1).drop_last() =~= counts@.take(i as int));
            lemma_total_prefix(counts@, i + 1);
        }
        match sum.checked_add(counts[i]) {
            Some(next) => {
                sum = next;
            },
            None => {
                return None;
            },
        }
        i += 1;
    }
    proof {
        assert(counts@.take(i as int) =~= counts@);
    }
    Some(sum)
}

} // verus!
