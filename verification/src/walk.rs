//! A depth-first walk that counts the leaves of a game tree whose positions
//! the caller holds: the walk decides what is done next and keeps the counts,
//! the caller generates and plays the moves.

use vstd::prelude::*;
use crate::perft::{
    expansion, leaves, lemma_leaves_child, lemma_sum_leaves_prefix, lemma_sum_leaves_step,
    lemma_sum_visits_prefix, lemma_sum_visits_step, sum_leaves, sum_visits, GameTree,
};

verus! {

/// What a walk asks of its caller, who holds the positions.
#[derive(Clone, Copy, Debug, PartialEq, Eq, Structural)]
pub enum Action {
    /// Generate the legal moves of the current position and report how many
    /// there are.
    Generate,
    /// Copy the current position, play its move of this index on the copy and
    /// make the copy the current position.
    Enter(usize),
    /// Drop the current position; the position it was copied from is current
    /// again.
    Leave,
    /// The walk is over and this is the number of leaves.
    Done(usize),
    /// The walk is over because the number of leaves does not fit the machine
    /// word.
    Overflow,
}

/// What the caller reports back.
#[derive(Clone, Copy, Debug, PartialEq, Eq, Structural)]
pub enum Event {
    /// The current position has this many legal moves.
    Moves(usize),
    /// The current position has changed as asked.
    Moved,
}

/// An expanded position on the path from the root to the current position.
#[derive(Clone, Copy, Debug, PartialEq, Eq, Structural)]
pub struct Frame {
    /// Number of legal moves of the position.
    pub moves: usize,
    /// Index of the move that is explored next; the moves before it are done.
    pub next: usize,
    /// Leaves counted below the moves that are done.
    pub count: usize,
}

/// What a walk waits for.
#[derive(Clone, Copy, Debug, PartialEq, Eq, Structural)]
pub enum Phase {
    /// The number of moves of the current position.
    AwaitMoves,
    /// The child of the current position to become current.
    AwaitEntered,
    /// The current position to be dropped; its leaves are counted.
    AwaitLeft(usize),
    /// Nothing: the walk is over, with a count or without one.
    Finished(Option<usize>),
}

/// The state of a walk as a value of its own.
#[verifier::ext_equal]
pub struct WalkModel {
    pub depth: int,
    pub frames: Seq<Frame>,
    pub phase: Phase,
}

impl WalkModel {
    /// The walk over a tree to `depth` plies before its first action.
    pub open spec fn start(depth: int) -> WalkModel {
        WalkModel {
            depth,
            frames: Seq::empty(),
            phase: if depth < 1 {
                Phase::Finished(Some(1usize))
            } else {
                Phase::AwaitMoves
            },
        }
    }

    /// The action that the walk is waiting on.
    pub open spec fn pending(self) -> Action {
        match self.phase {
            Phase::AwaitMoves => Action::Generate,
            Phase::AwaitEntered => Action::Enter(self.frames.last().next),
            Phase::AwaitLeft(_) => Action::Leave,
            Phase::Finished(Some(count)) => Action::Done(count),
            Phase::Finished(None) => Action::Overflow,
        }
    }

    /// The walk after its top frame has changed: it enters the next move of the
    /// frame, or, when none is left, hands the count of the frame to the frame
    /// below, or ends with it.
    pub open spec fn advance(self) -> WalkModel {
        let top = self.frames.last();
        if top.next < top.moves {
            WalkModel { phase: Phase::AwaitEntered, ..self }
        } else if self.frames.len() == 1 {
            WalkModel { frames: Seq::empty(), phase: Phase::Finished(Some(top.count)), ..self }
        } else {
            WalkModel { frames: self.frames.drop_last(), phase: Phase::AwaitLeft(top.count), ..self }
        }
    }

    /// The walk after `event`. An event that does not answer the pending
    /// action changes nothing.
    pub open spec fn resume(self, event: Event) -> WalkModel {
        match (self.phase, event) {
            (Phase::AwaitMoves, Event::Moves(moves)) => WalkModel {
                frames: self.frames.push(Frame { moves, next: 0, count: 0 }),
                ..self
            }.advance(),
            (Phase::AwaitEntered, Event::Moved) => if self.depth - self.frames.len() < 1 {
                WalkModel { phase: Phase::AwaitLeft(1), ..self }
            } else {
                WalkModel { phase: Phase::AwaitMoves, ..self }
            },
            (Phase::AwaitLeft(below), Event::Moved) => {
                let top = self.frames.last();
                if top.count + below > usize::MAX {
                    WalkModel { frames: Seq::empty(), phase: Phase::Finished(None), ..self }
                } else {
                    WalkModel {
                        frames: self.frames.drop_last().push(
                            Frame {
                                moves: top.moves,
                                next: (top.next + 1) as usize,
                                count: (top.count + below) as usize,
                            },
                        ),
                        ..self
                    }.advance()
                }
            },
            _ => self,
        }
    }

    /// The frames and the phase fit together: every frame has a move left to
    /// explore, and there are no more frames than plies.
    pub open spec fn wf(self) -> bool {
        &&& self.depth <= i8::MAX
        &&& forall|i: int|
            0 <= i < self.frames.len() ==> (#[trigger] self.frames[i]).next < self.frames[i].moves
        &&& match self.phase {
            Phase::AwaitMoves => self.frames.len() < self.depth,
            Phase::AwaitEntered => 1 <= self.frames.len() <= self.depth,
            Phase::AwaitLeft(_) => 1 <= self.frames.len() <= self.depth,
            Phase::Finished(_) => self.frames.len() == 0,
        }
    }
}

/// A depth-first walk over a game tree that counts its leaves at a fixed
/// depth. The walk holds the counts; its caller holds the positions, does what
/// the walk asks and reports back.
pub struct Walk {
    depth: i8,
    frames: Vec<Frame>,
    phase: Phase,
}

impl View for Walk {
    type V = WalkModel;

    closed spec fn view(&self) -> WalkModel {
        WalkModel { depth: self.depth as int, frames: self.frames@, phase: self.phase }
    }
}

impl Walk {
    /// Every walk is well formed.
    #[verifier::type_invariant]
    pub closed spec fn inv(&self) -> bool {
        self@.wf()
    }

    /// A walk to `depth` plies from a root position that the caller holds as
    /// the current position.
    pub fn new(depth: i8) -> (walk: Walk)
        ensures
            walk@ == WalkModel::start(depth as int),
            walk@.wf(),
    {
        Walk {
            depth,
            frames: Vec::new(),
            phase: if depth < 1 {
                Phase::Finished(Some(1))
            } else {
                Phase::AwaitMoves
            },
        }
    }

    /// The action that the walk is waiting on.
    pub fn pending(&self) -> (action: Action)
        ensures
            action == self@.pending(),
            self@.wf(),
    {
        proof {
            use_type_invariant(self);
        }
        match self.phase {
            Phase::AwaitMoves => Action::Generate,
            Phase::AwaitEntered => Action::Enter(self.frames[self.frames.len() - 1].next),
            Phase::AwaitLeft(_) => Action::Leave,
            Phase::Finished(Some(count)) => Action::Done(count),
            Phase::Finished(None) => Action::Overflow,
        }
    }

    /// The walk whose top frame has just changed.
    fn advance(depth: i8, frames: Vec<Frame>) -> (walk: Walk)
        requires
            1 <= frames@.len() <= depth,
            frames@.last().next <= frames@.last().moves,
            forall|i: int|
                0 <= i < frames@.len() - 1 ==> (#[trigger] frames@[i]).next < frames@[i].moves,
        ensures
            walk@ == (WalkModel { depth: depth as int, frames: frames@, phase: Phase::AwaitMoves }).advance(),
            walk@.wf(),
    {
        let ghost given = frames@;
        let mut frames = frames;
        let top = frames[frames.len() - 1];
        if top.next < top.moves {
            Walk { depth, frames, phase: Phase::AwaitEntered }
        } else {
            frames.pop();
            proof {
                assert(frames@ =~= given.drop_last());
                if frames@.len() == 0 {
                    assert(frames@ =~= Seq::<Frame>::empty());
                }
            }
            if frames.len() == 0 {
                Walk { depth, frames, phase: Phase::Finished(Some(top.count)) }
            } else {
                Walk { depth, frames, phase: Phase::AwaitLeft(top.count) }
            }
        }
    }

    /// The walk after `event`. An event that does not answer the pending
    /// action changes nothing.
    pub fn resume(self, event: Event) -> (walk: Walk)
        ensures
            walk@ == self@.resume(event),
            walk@.wf(),
    {
        proof {
            use_type_invariant(&self);
        }
        let Walk { depth, frames, phase } = self;
        let mut frames = frames;
        match (phase, event) {
            (Phase::AwaitMoves, Event::Moves(moves)) => {
                frames.push(Frame { moves, next: 0, count: 0 });
                Walk::advance(depth, frames)
            },
            (Phase::AwaitEntered, Event::Moved) => {
                if frames.len() >= depth as usize {
                    Walk { depth, frames, phase: Phase::AwaitLeft(1) }
                } else {
                    Walk { depth, frames, phase: Phase::AwaitMoves }
                }
            },
            (Phase::AwaitLeft(below), Event::Moved) => {
                let top = frames[frames.len() - 1];
                match top.count.checked_add(below) {
                    None => Walk { depth, frames: Vec::new(), phase: Phase::Finished(None) },
                    Some(count) => {
                        let last = frames.len() - 1;
                        frames[last] = Frame { moves: top.moves, next: top.next + 1, count };
                        proof {
                            assert(frames@ =~= self.frames@.drop_last().push(
                                Frame { moves: top.moves, next: (top.next + 1) as usize, count },
                            ));
                        }
                        Walk::advance(depth, frames)
                    },
                }
            },
            _ => Walk { depth, frames, phase },
        }
    }
}

/// The caller can carry out `action` on the positions of `path`, which runs
/// from the root to the current position.
pub open spec fn feasible(action: Action, path: Seq<GameTree>) -> bool {
    match action {
        Action::Generate => path.len() >= 1,
        Action::Enter(index) => path.len() >= 1 && index < path.last().children.len(),
        Action::Leave => path.len() >= 2,
        Action::Done(_) => false,
        Action::Overflow => false,
    }
}

/// A caller who held `path` and carried out `action` now holds `after` and
/// reports `event`.
pub open spec fn carried_out(
    action: Action,
    path: Seq<GameTree>,
    event: Event,
    after: Seq<GameTree>,
) -> bool {
    match action {
        Action::Generate => after == path && event == Event::Moves(
            path.last().children.len() as usize,
        ) && path.last().children.len() <= usize::MAX,
        Action::Enter(index) => after == path.push(path.last().children[index as int]) && event
            == Event::Moved,
        Action::Leave => after == path.drop_last() && event == Event::Moved,
        Action::Done(_) => false,
        Action::Overflow => false,
    }
}

/// The frame belongs to `position`: it has as many moves, and its count is
/// the number of leaves, `below` plies down, under the moves that are done.
pub open spec fn frame_matches(frame: Frame, position: GameTree, below: int) -> bool {
    &&& frame.moves == position.children.len()
    &&& frame.count == sum_leaves(position.children.take(frame.next as int), below)
}

/// The walk is in step with a caller who explores the tree under `root` and
/// holds the positions of `path`: each frame belongs to the position of its
/// level, each position below the root is the child that the frame above is
/// exploring, and a walk that is over has counted the leaves of `root`.
pub open spec fn tracks(walk: WalkModel, root: GameTree, path: Seq<GameTree>) -> bool {
    &&& walk.wf()
    &&& match walk.phase {
        Phase::Finished(Some(count)) => count == leaves(root, walk.depth),
        Phase::Finished(None) => leaves(root, walk.depth) > usize::MAX,
        _ => {
            &&& path.len() >= 1
            &&& path[0] == root
            &&& path.len() == walk.frames.len() + if walk.phase == Phase::AwaitEntered {
                0int
            } else {
                1int
            }
            &&& forall|j: int|
                0 <= j < walk.frames.len() ==> frame_matches(
                    #[trigger] walk.frames[j],
                    path[j],
                    walk.depth - j - 1,
                )
            &&& forall|j: int|
                1 <= j < path.len() ==> #[trigger] path[j] == path[j - 1].children[walk.frames[j
                    - 1].next as int]
            &&& walk.phase matches Phase::AwaitLeft(below) ==> below == leaves(
                path.last(),
                walk.depth - walk.frames.len(),
            )
        },
    }
}

/// A new walk is in step with a caller who holds the root.
pub proof fn lemma_start_tracks(root: GameTree, depth: int)
    requires
        depth <= i8::MAX,
    ensures
        tracks(WalkModel::start(depth), root, seq![root]),
{
}

/// A walk in step with its caller ends with the number of leaves of the root,
/// as the count from position to position defines it, and reports an overflow
/// only when that number does not fit the machine word.
pub proof fn lemma_result_is_leaves(walk: WalkModel, root: GameTree, path: Seq<GameTree>)
    requires
        tracks(walk, root, path),
    ensures
        walk.pending() matches Action::Done(count) ==> count == leaves(root, walk.depth),
        walk.pending() == Action::Overflow ==> leaves(root, walk.depth) > usize::MAX,
{
}

/// While the walk is not over, the caller can do what it asks.
pub proof fn lemma_pending_feasible(walk: WalkModel, root: GameTree, path: Seq<GameTree>)
    requires
        tracks(walk, root, path),
        !(walk.phase is Finished),
    ensures
        feasible(walk.pending(), path),
{
    if walk.phase == Phase::AwaitEntered {
        let top = walk.frames.len() - 1;
        assert(frame_matches(walk.frames[top], path[top], walk.depth - top - 1));
    }
}

/// Every position of the path has at most the leaves of the root, each with
/// the plies that are left at its level.
proof fn lemma_path_bound(walk: WalkModel, root: GameTree, path: Seq<GameTree>, level: int)
    requires
        tracks(walk, root, path),
        !(walk.phase is Finished),
        0 <= level < path.len(),
        level <= walk.depth,
    ensures
        leaves(path[level], walk.depth - level) <= leaves(root, walk.depth),
    decreases level,
{
    if level > 0 {
        lemma_path_bound(walk, root, path, level - 1);
        let above = walk.frames[level - 1];
        assert(frame_matches(above, path[level - 1], walk.depth - level));
        assert(path[level] == path[level - 1].children[above.next as int]);
        lemma_leaves_child(path[level - 1], walk.depth - level + 1, above.next as int);
    }
}

/// One round keeps the walk in step: when the caller carries out the pending
/// action and the walk resumes with the event, the walk is in step with what
/// the caller holds then.
pub proof fn lemma_resume_tracks(
    walk: WalkModel,
    root: GameTree,
    path: Seq<GameTree>,
    event: Event,
    after: Seq<GameTree>,
)
    requires
        tracks(walk, root, path),
        carried_out(walk.pending(), path, event, after),
    ensures
        tracks(walk.resume(event), root, after),
{
    let next = walk.resume(event);
    let depth = walk.depth;
    let k = walk.frames.len() as int;
    match walk.phase {
        Phase::AwaitMoves => {
            let fresh = Frame { moves: path.last().children.len() as usize, next: 0, count: 0 };
            let grown = walk.frames.push(fresh);
            assert(path.last().children.take(0) =~= Seq::<GameTree>::empty());
            assert(frame_matches(fresh, path[k], depth - k - 1));
            if fresh.moves == 0 {
                assert(path[k].children =~= Seq::<GameTree>::empty());
                assert(grown.drop_last() =~= walk.frames);
            } else {
                assert forall|j: int| 0 <= j < grown.len() implies frame_matches(
                    #[trigger] next.frames[j],
                    after[j],
                    depth - j - 1,
                ) by {
                    if j < k {
                        assert(frame_matches(walk.frames[j], path[j], depth - j - 1));
                    }
                }
            }
        },
        Phase::AwaitEntered => {
            let top = walk.frames[k - 1];
            assert(frame_matches(top, path[k - 1], depth - k));
            assert forall|j: int| 1 <= j < after.len() implies #[trigger] after[j] == after[j
                - 1].children[next.frames[j - 1].next as int] by {
                if j < k {
                    assert(path[j] == path[j - 1].children[walk.frames[j - 1].next as int]);
                }
            }
            assert forall|j: int| 0 <= j < next.frames.len() implies frame_matches(
                #[trigger] next.frames[j],
                after[j],
                depth - j - 1,
            ) by {
                assert(frame_matches(walk.frames[j], path[j], depth - j - 1));
            }
        },
        Phase::AwaitLeft(below) => {
            let top = walk.frames[k - 1];
            let parent = path[k - 1];
            assert(frame_matches(top, parent, depth - k));
            assert(path[k] == path[k - 1].children[walk.frames[k - 1].next as int]);
            lemma_sum_leaves_step(parent.children, depth - k, top.next as int);
            lemma_sum_leaves_prefix(parent.children, depth - k, top.next + 1);
            lemma_path_bound(walk, root, path, k - 1);
            if top.count + below <= usize::MAX {
                let done = Frame {
                    moves: top.moves,
                    next: (top.next + 1) as usize,
                    count: (top.count + below) as usize,
                };
                let changed = walk.frames.drop_last().push(done);
                assert(frame_matches(done, parent, depth - k));
                if done.next == done.moves {
                    assert(parent.children.take(done.next as int) =~= parent.children);
                    assert(changed.drop_last() =~= walk.frames.drop_last());
                }
                assert forall|j: int| 0 <= j < next.frames.len() implies frame_matches(
                    #[trigger] next.frames[j],
                    after[j],
                    depth - j - 1,
                ) by {
                    if j < k - 1 {
                        assert(frame_matches(walk.frames[j], path[j], depth - j - 1));
                    }
                }
                assert forall|j: int| 1 <= j < after.len() implies #[trigger] after[j] == after[j
                    - 1].children[next.frames[j - 1].next as int] by {
                    assert(path[j] == path[j - 1].children[walk.frames[j - 1].next as int]);
                }
            }
        },
        Phase::Finished(_) => {},
    }
}

/// Rounds that the frame at `level` still causes once the child that it is
/// exploring is done: the visits of the children after that one and, unless
/// the frame is the root's, the round that leaves its position.
pub open spec fn frame_rounds(walk: WalkModel, path: Seq<GameTree>, level: int) -> int {
    let children = path[level].children;
    let below = walk.depth - level - 1;
    sum_visits(children, below) - sum_visits(
        children.take(walk.frames[level].next + 1),
        below,
    ) + if level >= 1 {
        1int
    } else {
        0int
    }
}

/// The rounds of the frames below `levels`.
pub open spec fn frames_rounds(walk: WalkModel, path: Seq<GameTree>, levels: int) -> int
    decreases levels,
{
    if levels <= 0 {
        0
    } else {
        frames_rounds(walk, path, levels - 1) + frame_rounds(walk, path, levels - 1)
    }
}

/// Number of rounds after which a walk in step with a caller who holds `path`
/// is over, unless the count overflows before.
pub open spec fn rounds_left(walk: WalkModel, path: Seq<GameTree>) -> int {
    let k = walk.frames.len() as int;
    match walk.phase {
        Phase::Finished(_) => 0,
        Phase::AwaitMoves => frames_rounds(walk, path, k) + expansion(path[k], walk.depth - k)
            + if k >= 1 {
            1int
        } else {
            0int
        },
        Phase::AwaitEntered => frames_rounds(walk, path, k) + 2 + expansion(
            path[k - 1].children[walk.frames[k - 1].next as int],
            walk.depth - k,
        ),
        Phase::AwaitLeft(_) => frames_rounds(walk, path, k) + 1,
    }
}

/// The rounds of the lower frames depend on those frames and their positions
/// alone.
proof fn lemma_frames_rounds_agree(
    first: WalkModel,
    first_path: Seq<GameTree>,
    second: WalkModel,
    second_path: Seq<GameTree>,
    levels: int,
)
    requires
        first.depth == second.depth,
        forall|j: int| 0 <= j < levels ==> #[trigger] first.frames[j] == second.frames[j],
        forall|j: int| 0 <= j < levels ==> #[trigger] first_path[j] == second_path[j],
    ensures
        frames_rounds(first, first_path, levels) == frames_rounds(second, second_path, levels),
    decreases levels,
{
    if levels > 0 {
        lemma_frames_rounds_agree(first, first_path, second, second_path, levels - 1);
    }
}

/// No frame causes a negative number of rounds.
proof fn lemma_frames_rounds_bound(walk: WalkModel, root: GameTree, path: Seq<GameTree>, levels: int)
    requires
        tracks(walk, root, path),
        !(walk.phase is Finished),
        0 <= levels <= walk.frames.len(),
    ensures
        frames_rounds(walk, path, levels) >= 0,
    decreases levels,
{
    if levels > 0 {
        let j = levels - 1;
        lemma_frames_rounds_bound(walk, root, path, j);
        assert(frame_matches(walk.frames[j], path[j], walk.depth - j - 1));
        lemma_sum_visits_prefix(path[j].children, walk.depth - j - 1, walk.frames[j].next + 1);
    }
}

/// The walk comes to an end: every round in step with the caller lowers the
/// number of rounds that are left, which is never negative.
pub proof fn lemma_resume_progress(
    walk: WalkModel,
    root: GameTree,
    path: Seq<GameTree>,
    event: Event,
    after: Seq<GameTree>,
)
    requires
        tracks(walk, root, path),
        carried_out(walk.pending(), path, event, after),
    ensures
        0 <= rounds_left(walk.resume(event), after) < rounds_left(walk, path),
{
    let next = walk.resume(event);
    let depth = walk.depth;
    let k = walk.frames.len() as int;
    lemma_resume_tracks(walk, root, path, event, after);
    lemma_frames_rounds_bound(walk, root, path, k);
    if !(next.phase is Finished) {
        lemma_frames_rounds_bound(next, root, after, next.frames.len() as int);
    }
    match walk.phase {
        Phase::AwaitMoves => {
            lemma_frames_rounds_agree(walk, path, next, after, k);
            if path[k].children.len() > 0 {
                lemma_sum_visits_step(path[k].children, depth - k - 1, 0);
                assert(path[k].children.take(0) =~= Seq::<GameTree>::empty());
            } else {
                assert(path[k].children =~= Seq::<GameTree>::empty());
            }
        },
        Phase::AwaitEntered => {
            let top = walk.frames[k - 1];
            assert(frame_matches(top, path[k - 1], depth - k));
            lemma_frames_rounds_agree(walk, path, next, after, k);
        },
        Phase::AwaitLeft(below) => {
            let top = walk.frames[k - 1];
            let parent = path[k - 1];
            assert(frame_matches(top, parent, depth - k));
            if top.count + below <= usize::MAX {
                lemma_frames_rounds_agree(walk, path, next, after, k - 1);
            }
            if top.count + below <= usize::MAX && top.next + 1 < top.moves {
                lemma_sum_visits_step(parent.children, depth - k, top.next + 1);
            }
            if top.next + 1 == top.moves {
                assert(parent.children.take(top.next + 1) =~= parent.children);
            }
        },
        Phase::Finished(_) => {},
    }
}

} // verus!
