//! What the midgame search looks for.
//!
//! Values are hundredths of a disc to the side to move. A finished game counts
//! a thousand discs for each disc of difference.

use vstd::prelude::*;

use crate::board::{Board, lemma_after_wf, lemma_passed_wf, lemma_wf_sides};
use crate::color::Color;
use crate::search::{INF, LEAF_LIMIT, LeafEval, final_score_of, lemma_final_score};
use crate::zobrist::hash_of;

verus! {

/// Units that a disc counts.
pub const DISC: i32 = 100;

/// Units that a disc of difference counts in a finished game.
pub const FINISHED: i32 = 100_000;

/// The value of a position searched to the given depth. A pass uses up no
/// depth; where the depth is used up, the position is evaluated as it stands.
pub open spec fn nn_value<E: LeafEval>(e: E, b: Board, depth: nat) -> int
    decreases
            depth,
            if b.can_move() {
                1int
            } else {
                2int
            },
            0int,
{
    if !b.can_move() {
        if !b.passed().can_move() {
            final_score_of(b) * FINISHED
        } else if depth == 0 {
            e.leaf(b)
        } else {
            -nn_value(e, b.passed(), depth)
        }
    } else if depth == 0 {
        e.leaf(b)
    } else {
        nn_best(e, b, depth, 64)
    }
}

/// The best value that a move to one of the squares below `n` reaches.
pub open spec fn nn_best<E: LeafEval>(e: E, b: Board, depth: nat, n: nat) -> int
    decreases depth, 0int, n,
{
    if n == 0 || depth == 0 {
        -INF as int
    } else {
        let rest = nn_best(e, b, depth, (n - 1) as nat);
        let v = -nn_value(e, b.after(n - 1), (depth - 1) as nat);
        if b.legal(n - 1) && v > rest {
            v
        } else {
            rest
        }
    }
}

/// What a move to `s` is worth.
pub open spec fn nn_move<E: LeafEval>(e: E, b: Board, depth: nat, s: int) -> int {
    -nn_value(e, b.after(s), (depth - 1) as nat)
}

/// No move is worth more than the best, and the best is reached.
pub proof fn lemma_nn_best<E: LeafEval>(e: E, b: Board, depth: nat, n: nat)
    requires
        depth > 0,
    ensures
        forall|s: int|
            0 <= s < n && #[trigger] b.legal(s) ==> nn_move(e, b, depth, s) <= nn_best(
                e,
                b,
                depth,
                n,
            ),
        nn_best(e, b, depth, n) == -INF || exists|s: int|
            0 <= s < n && #[trigger] b.legal(s) && nn_move(e, b, depth, s) == nn_best(
                e,
                b,
                depth,
                n,
            ),
    decreases n,
{
    if n > 0 {
        let m = (n - 1) as nat;
        lemma_nn_best(e, b, depth, m);
        let rest = nn_best(e, b, depth, m);
        let v = nn_move(e, b, depth, n - 1);
        if b.legal(n - 1) && v > rest {
            assert(b.legal(n - 1) && nn_move(e, b, depth, n - 1) == nn_best(e, b, depth, n));
        } else if rest != -INF {
            let s = choose|s: int|
                0 <= s < m && #[trigger] b.legal(s) && nn_move(e, b, depth, s) == rest;
            assert(b.legal(s) && nn_move(e, b, depth, s) == nn_best(e, b, depth, n));
        }
    }
}

/// Values are within the infinities.
pub proof fn lemma_nn_bound<E: LeafEval>(e: E, b: Board, depth: nat)
    requires
        e.valid(),
        b.wf(),
    ensures
        -LEAF_LIMIT < nn_value(e, b, depth) < LEAF_LIMIT,
    decreases
            depth,
            if b.can_move() {
                1int
            } else {
                2int
            },
{
    lemma_final_score(b);
    lemma_passed_wf(b);
    e.leaf_bounded(b);
    if !b.can_move() {
        if b.passed().can_move() && depth > 0 {
            lemma_nn_bound(e, b.passed(), depth);
        }
    } else if depth > 0 {
        lemma_nn_best(e, b, depth, 64);
        let m = choose|s: int| 0 <= s < 64 && #[trigger] b.legal(s);
        lemma_wf_sides(b);
        lemma_after_wf(b, m);
        lemma_nn_bound(e, b.after(m), (depth - 1) as nat);
        assert(nn_move(e, b, depth, m) <= nn_best(e, b, depth, 64));
        let s = choose|s: int|
            0 <= s < 64 && #[trigger] b.legal(s) && nn_move(e, b, depth, s) == nn_best(
                e,
                b,
                depth,
                64,
            );
        lemma_after_wf(b, s);
        lemma_nn_bound(e, b.after(s), (depth - 1) as nat);
    }
}

/// Some legal move reaches the value of a position with a move.
pub proof fn lemma_nn_reached<E: LeafEval>(e: E, b: Board, depth: nat)
    requires
        e.valid(),
        b.wf(),
        depth > 0,
        b.can_move(),
    ensures
        exists|s: int|
            0 <= s < 64 && #[trigger] b.legal(s) && nn_move(e, b, depth, s) == nn_value(
                e,
                b,
                depth,
            ),
        forall|s: int|
            0 <= s < 64 && #[trigger] b.legal(s) ==> nn_move(e, b, depth, s) <= nn_value(
                e,
                b,
                depth,
            ),
{
    lemma_nn_bound(e, b, depth);
    lemma_nn_best(e, b, depth, 64);
}

/// What a midgame search is worth: where depth is left, as much as the best move,
/// after which the other side's value counts the other way round; where it is used
/// up, what the evaluation says, also before a pass; after a pass the other side's
/// value the other way round; and the result of a finished game.
pub proof fn law_midgame_value_is_the_best_move<E: LeafEval>(e: E, b: Board, depth: nat)
    requires
        e.valid(),
        b.wf(),
    ensures
        !b.finished() && depth == 0 ==> nn_value(e, b, depth) == e.leaf(b),
        depth > 0 ==> forall|s: int|
            0 <= s < 64 && #[trigger] b.legal(s) ==> -nn_value(e, b.after(s), (depth - 1) as nat)
                <= nn_value(e, b, depth),
        b.can_move() && depth > 0 ==> exists|s: int|
            0 <= s < 64 && #[trigger] b.legal(s) && -nn_value(e, b.after(s), (depth - 1) as nat)
                == nn_value(e, b, depth),
        !b.can_move() && b.passed().can_move() && depth > 0 ==> nn_value(e, b, depth) == -nn_value(
            e,
            b.passed(),
            depth,
        ),
        b.finished() ==> nn_value(e, b, depth) == final_score_of(b) * FINISHED,
{
    if b.can_move() && depth > 0 {
        lemma_nn_reached(e, b, depth);
        let s = choose|s: int|
            0 <= s < 64 && #[trigger] b.legal(s) && nn_move(e, b, depth, s) == nn_value(
                e,
                b,
                depth,
            );
        assert(b.legal(s));
        assert forall|s: int| 0 <= s < 64 && #[trigger] b.legal(s) implies -nn_value(
            e,
            b.after(s),
            (depth - 1) as nat,
        ) <= nn_value(e, b, depth) by {
            assert(nn_move(e, b, depth, s) <= nn_value(e, b, depth));
        }
    }
}

/// The two positions look alike to the side to move.
pub open spec fn same_view(a: Board, b: Board) -> bool {
    a.own() == b.own() && a.opp() == b.opp() && a.empty_count == b.empty_count
}

/// The key of a position as the side to move sees it.
pub open spec fn view_hash(b: Board) -> u64 {
    hash_of(b.own(), b.opp(), Color::Black)
}

/// Discs on the board.
pub open spec fn discs(b: Board) -> int {
    64 - b.empty_count
}

/// One of the four squares in the middle, which are taken in every game from the
/// standard start.
pub open spec fn central(s: int) -> bool {
    s == 27 || s == 28 || s == 35 || s == 36
}

/// A set of positions on which the search can be exact up to the horizon `h`,
/// counted in discs on the board: it holds what follows from its positions, no
/// two that look different have one key, and the evaluation goes by what the
/// side to move sees.
pub open spec fn ground<E: LeafEval>(set: Set<Board>, e: E, h: int) -> bool {
    &&& forall|b: Board| #[trigger] set.contains(b) ==> b.wf()
    &&& forall|b: Board| #[trigger] set.contains(b) ==> set.contains(b.passed())
    &&& forall|b: Board, s: int|
        set.contains(b) && discs(b) < h && 0 <= s < 64 && b.legal(s) ==> set.contains(
            #[trigger] b.after(s),
        )
    &&& forall|a: Board, b: Board|
        set.contains(a) && set.contains(b) && #[trigger] view_hash(a) == #[trigger] view_hash(b)
            ==> same_view(a, b)
    &&& forall|a: Board, b: Board|
        set.contains(a) && set.contains(b) && #[trigger] same_view(a, b) ==> e.leaf(a) == e.leaf(b)
}

/// What a node one ply from the horizon with a window of one unit leaves out
/// does not matter: it takes the positions after its moves as the evaluation
/// sees them, finished games as well, and has no place for moves to the middle.
/// There are no such moves where the horizon lies beyond the full board.
pub open spec fn knows_end<E: LeafEval>(set: Set<Board>, e: E, h: int) -> bool {
    forall|b: Board, s: int|
        set.contains(b) && discs(b) + 1 == h && 0 <= s < 64 && b.legal(s) ==> !central(s) && ((
        #[trigger] b.after(s)).finished() ==> e.leaf(b.after(s)) == final_score_of(b.after(s))
            * FINISHED)
}

/// Positions that look alike have the same moves, and look alike after them.
pub proof fn lemma_same_view(a: Board, b: Board)
    requires
        same_view(a, b),
    ensures
        forall|s: int| #[trigger] a.legal(s) == b.legal(s),
        a.can_move() == b.can_move(),
        same_view(a.passed(), b.passed()),
        forall|s: int| same_view(#[trigger] a.after(s), b.after(s)),
        final_score_of(a) == final_score_of(b),
        view_hash(a) == view_hash(b),
{
    assert forall|s: int| #[trigger] a.legal(s) == b.legal(s) by {}
    if a.can_move() {
        let s = choose|s: int| 0 <= s < 64 && #[trigger] a.legal(s);
        assert(b.legal(s));
    }
    if b.can_move() {
        let s = choose|s: int| 0 <= s < 64 && #[trigger] b.legal(s);
        assert(a.legal(s));
    }
}

/// Positions that look alike have the same value.
pub proof fn lemma_same_value<E: LeafEval>(set: Set<Board>, e: E, h: int, a: Board, b: Board, depth: nat)
    requires
        ground(set, e, h),
        set.contains(a),
        set.contains(b),
        same_view(a, b),
        discs(a) + depth <= h,
    ensures
        nn_value(e, a, depth) == nn_value(e, b, depth),
    decreases
            depth,
            if a.can_move() {
                1int
            } else {
                2int
            },
            65int,
{
    lemma_same_view(a, b);
    lemma_same_view(a.passed(), b.passed());
    if !a.can_move() {
        if a.passed().can_move() && depth > 0 {
            lemma_same_value(set, e, h, a.passed(), b.passed(), depth);
        }
    } else if depth > 0 {
        lemma_same_best(set, e, h, a, b, depth, 64);
    }
}

proof fn lemma_same_best<E: LeafEval>(
    set: Set<Board>,
    e: E,
    h: int,
    a: Board,
    b: Board,
    depth: nat,
    n: nat,
)
    requires
        ground(set, e, h),
        set.contains(a),
        set.contains(b),
        same_view(a, b),
        depth > 0,
        n <= 64,
        discs(a) + depth <= h,
    ensures
        nn_best(e, a, depth, n) == nn_best(e, b, depth, n),
    decreases depth, 0int, n,
{
    lemma_same_view(a, b);
    if n > 0 {
        let s = n - 1;
        lemma_same_best(set, e, h, a, b, depth, (n - 1) as nat);
        if a.legal(s) {
            assert(b.legal(s));
            assert(set.contains(a.after(s)));
            assert(set.contains(b.after(s)));
            assert(same_view(a.after(s), b.after(s)));
            lemma_after_wf(a, s);
            lemma_same_value(set, e, h, a.after(s), b.after(s), (depth - 1) as nat);
        }
    }
}

} // verus!
