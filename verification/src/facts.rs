//! Bounds on the values of positions, as searches tell them.

use vstd::prelude::*;

use crate::board::Board;

verus! {

/// The position is worth at least `bound` to the side to move, or at most, when
/// it is searched to `depth`, with reduced searches nested `cuts` deep.
pub struct Fact {
    pub cuts: int,
    pub board: Board,
    pub depth: int,
    /// At least; else at most.
    pub low: bool,
    pub bound: int,
}

/// The value is on the side of the bound that is told.
pub open spec fn beyond(low: bool, bound: int, v: int) -> bool {
    if low {
        v >= bound
    } else {
        v <= bound
    }
}

impl Fact {
    /// The value is on the side of the bound that the fact tells.
    pub open spec fn met_by(self, v: int) -> bool {
        beyond(self.low, self.bound, v)
    }

    /// What the fact says of the position after a move.
    pub open spec fn after(self, s: int) -> Fact {
        Fact {
            board: self.board.after(s),
            depth: self.depth - 1,
            low: !self.low,
            bound: -self.bound,
            ..self
        }
    }

    /// What the fact says of the position after a pass.
    pub open spec fn passed(self) -> Fact {
        Fact { board: self.board.passed(), low: !self.low, bound: -self.bound, ..self }
    }
}

/// A set of positions that holds what follows from them.
pub open spec fn family(set: Set<Board>) -> bool {
    &&& forall|b: Board| #[trigger] set.contains(b) ==> set.contains(b.passed())
    &&& forall|b: Board, s: int|
        set.contains(b) && b.wf() && 0 <= s < 64 && b.legal(s) ==> set.contains(
            #[trigger] b.after(s),
        )
}

/// The position follows from the other by moves and passes.
pub open spec fn comes_from(root: Board, b: Board) -> bool {
    forall|set: Set<Board>| #[trigger] family(set) && set.contains(root) ==> set.contains(b)
}

/// Positions that follow from one that follows.
pub proof fn lemma_comes_from(root: Board, b: Board, c: Board)
    requires
        comes_from(root, b),
        comes_from(b, c),
    ensures
        comes_from(root, c),
{
}

/// What follows from a position in one step.
pub proof fn lemma_comes_next(root: Board, b: Board)
    ensures
        comes_from(b, b),
        comes_from(root, b) ==> comes_from(root, b.passed()),
        forall|s: int|
            comes_from(root, b) && b.wf() && 0 <= s < 64 && b.legal(s) ==> comes_from(
                root,
                #[trigger] b.after(s),
            ),
{
    if comes_from(root, b) {
        assert forall|set: Set<Board>| #[trigger] family(set) && set.contains(root) implies set.contains(
            b.passed(),
        ) by {
            assert(set.contains(b));
        }
        assert forall|s: int| b.wf() && 0 <= s < 64 && b.legal(s) implies comes_from(
            root,
            #[trigger] b.after(s),
        ) by {
            assert forall|set: Set<Board>| #[trigger]
                family(set) && set.contains(root) implies set.contains(b.after(s)) by {
                assert(set.contains(b));
            }
        }
    }
}

} // verus!
