//! Brothers of a searched move, handed out one at a time.
//!
//! The first move of a node is searched alone. The others may then be searched
//! in any order and by any number of workers: each reads the best value so far,
//! asks with a window of one unit whether its move is better, searches again
//! with a wider window where it is, and offers what it found. A worker may have
//! read a best value that others have improved since.

use vstd::prelude::*;

use crate::position::Position;
use crate::search::fits_window;

verus! {

/// Plies from the root at which a node may hand out its moves.
pub const SPLIT_MAX_PLY: u8 = 8;

/// Depth that a node must have left to hand out its moves.
pub const SPLIT_MIN_DEPTH: u8 = 3;

/// A node hands out its moves when there are several workers, it is close to
/// the root, deep enough, and has more than two moves.
pub fn splits(threads: usize, ply: u8, depth: u8, children: usize) -> (yes: bool)
    ensures
        yes == (threads > 1 && ply < SPLIT_MAX_PLY && depth >= SPLIT_MIN_DEPTH && children > 2),
{
    threads > 1 && ply < SPLIT_MAX_PLY && depth >= SPLIT_MIN_DEPTH && children > 2
}

/// What a worker does with its move next.
#[derive(Clone, Copy, Debug, PartialEq, Eq, Structural)]
pub enum Probed {
    /// Search again with the window from the bound to beta.
    Again,
    /// Offer what the first search found.
    Done,
}

/// A node whose moves are handed out.
#[derive(Clone, Copy, Debug)]
pub struct Split {
    pub alpha: i32,
    pub beta: i32,
    pub best: i32,
    pub best_move: Position,
    /// A move reached beta: the others need no search.
    pub cut: bool,
}

impl Split {
    /// After the first move, searched with the node's window.
    pub fn new(alpha: i32, beta: i32, value: i32, first: Position) -> (s: Split)
        ensures
            s == (Split { alpha, beta, best: value, best_move: first, cut: value >= beta }),
    {
        Split { alpha, beta, best: value, best_move: first, cut: value >= beta }
    }

    /// The bound a worker probes against.
    pub open spec fn floor(self) -> int {
        if self.best > self.alpha {
            self.best as int
        } else {
            self.alpha as int
        }
    }

    /// The bound a worker probes against: a probe asks whether its move is
    /// worth more.
    pub fn bound(&self) -> (a: i32)
        ensures
            a == self.floor(),
    {
        if self.best > self.alpha {
            self.best
        } else {
            self.alpha
        }
    }

    /// What follows a probe against the bound `a`.
    pub fn probed(&self, a: i32, value: i32) -> (p: Probed)
        ensures
            p == if a < value < self.beta {
                Probed::Again
            } else {
                Probed::Done
            },
    {
        if value > a && value < self.beta {
            Probed::Again
        } else {
            Probed::Done
        }
    }

    /// The node after a move was found to be worth `value`.
    pub open spec fn offered(self, value: i32, pos: Position) -> Split {
        let best = if value > self.best {
            value
        } else {
            self.best
        };
        Split {
            alpha: self.alpha,
            beta: self.beta,
            best,
            best_move: if value > self.best {
                pos
            } else {
                self.best_move
            },
            cut: self.cut || best >= self.beta,
        }
    }

    /// Offer what a move was found to be worth.
    pub fn offer(&mut self, value: i32, pos: Position)
        ensures
            *final(self) == old(self).offered(value, pos),
    {
        if value > self.best {
            self.best = value;
            self.best_move = pos;
        }
        if self.best >= self.beta {
            self.cut = true;
        }
    }

    /// The best value so far is right about the moves that were offered:
    /// inside the window it is the highest of their values, below it a bound
    /// above all, beyond it a bound below one.
    pub open spec fn settled(self, values: Seq<int>, done: Set<int>) -> bool {
        &&& self.cut == (self.best >= self.beta)
        &&& self.best < self.beta ==> forall|k: int|
            done.contains(k) ==> #[trigger] values[k] <= self.best
        &&& self.best > self.alpha ==> exists|k: int|
            done.contains(k) && #[trigger] values[k] >= self.best
    }
}

/// What a worker offers for a move worth `v` is right: what a probe against
/// the bound `a` found, or, where that lay between the bound and beta, what a
/// search with that window found.
pub open spec fn honest(v: int, offer: int, a: int, beta: int) -> bool {
    exists|probe: int| #[trigger]
        fits_window(probe, v, a, a + 1) && (if a < probe < beta {
            fits_window(offer, v, a, beta)
        } else {
            offer == probe
        })
}

/// The first move settles the node.
pub proof fn law_split_first(alpha: i32, beta: i32, value: i32, first: Position, values: Seq<int>)
    requires
        alpha < beta,
        values.len() > 0,
        fits_window(value as int, values[0], alpha as int, beta as int),
    ensures
        (Split { alpha, beta, best: value, best_move: first, cut: value >= beta }).settled(
            values,
            set![0],
        ),
{
    assert(set![0int].contains(0));
}

/// However many workers search and whatever bounds they have read, each offer
/// keeps the node settled: the bound `a` was the node's at some earlier time,
/// so that it is not above the bound now.
pub proof fn law_split_offer(
    s: Split,
    values: Seq<int>,
    done: Set<int>,
    k: int,
    a: int,
    offer: i32,
    pos: Position,
)
    requires
        s.alpha < s.beta,
        s.settled(values, done),
        s.alpha <= a <= s.floor(),
        0 <= k < values.len(),
        honest(values[k], offer as int, a, s.beta as int),
    ensures
        s.offered(offer, pos).settled(values, done.insert(k)),
        s.offered(offer, pos).floor() >= s.floor(),
{
    let t = s.offered(offer, pos);
    let v = values[k];
    let all = done.insert(k);
    let probe = choose|probe: int| #[trigger]
        fits_window(probe, v, a, a + 1) && (if a < probe < s.beta {
            fits_window(offer as int, v, a, s.beta as int)
        } else {
            offer == probe
        });
    assert(all.contains(k));
    if t.best < t.beta {
        assert forall|j: int| all.contains(j) implies #[trigger] values[j] <= t.best by {
            if j != k {
                assert(done.contains(j));
            }
        }
    }
    if t.best > t.alpha {
        if offer > s.best {
            assert(values[k] >= t.best);
        } else {
            let j = choose|j: int| done.contains(j) && #[trigger] values[j] >= s.best;
            assert(all.contains(j) && values[j] >= t.best);
        }
    }
}

/// Once every move was offered or a cut was found, the best value says of the
/// highest of the moves' values what a search with the node's window says.
pub proof fn law_split_result(s: Split, values: Seq<int>, done: Set<int>, top: int)
    requires
        s.alpha < s.beta,
        s.settled(values, done),
        forall|k: int| done.contains(k) ==> 0 <= k < values.len(),
        forall|k: int| 0 <= k < values.len() ==> #[trigger] values[k] <= top,
        exists|k: int| 0 <= k < values.len() && #[trigger] values[k] == top,
        s.cut || forall|k: int| 0 <= k < values.len() ==> #[trigger] done.contains(k),
    ensures
        fits_window(s.best as int, top, s.alpha as int, s.beta as int),
{
    let m = choose|k: int| 0 <= k < values.len() && #[trigger] values[k] == top;
    if !s.cut {
        assert(done.contains(m));
    }
    if s.best > s.alpha {
        let j = choose|j: int| done.contains(j) && #[trigger] values[j] >= s.best;
        assert(values[j] <= top);
    }
}

} // verus!
