//! Endgames played out to the end.

use vstd::prelude::*;

use crate::bits::{bit, iter_bits, lemma_squares, squares};
use crate::board::{Board, lemma_after_wf, lemma_moves, lemma_passed_wf, lemma_wf_sides};
use crate::midgame::{StopHandle, lowered, raised};
use crate::midgame::value::{FINISHED, central, discs, ground, knows_end, lemma_nn_best, lemma_nn_bound, nn_best, nn_move, nn_value};
use crate::position::Position;
use crate::search::{LeafEval, TERMINAL_SCALE, best_below, final_score_discs, final_score_of, fits_window, lemma_best_below, lemma_final_score, lemma_value_bound, move_value, value_of};

verus! {

/// The result of best play by both sides, as the side to move sees it, in
/// discs; `n` squares are empty.
pub open spec fn solved(b: Board, n: nat, passed: bool) -> int
    decreases
            n,
            if passed {
                1int
            } else {
                2int
            },
            0int,
{
    if !b.can_move() || n == 0 {
        if passed || n == 0 && b.can_move() {
            final_score_of(b)
        } else {
            -solved(b.passed(), n, true)
        }
    } else {
        best_solved(b, n, 64)
    }
}

/// The best result that a move to one of the squares below `m` reaches.
pub open spec fn best_solved(b: Board, n: nat, m: nat) -> int
    decreases n, 0int, m,
{
    if m == 0 || n == 0 {
        -65
    } else {
        let rest = best_solved(b, n, (m - 1) as nat);
        let v = -solved(b.after(m - 1), (n - 1) as nat, false);
        if b.legal(m - 1) && v > rest {
            v
        } else {
            rest
        }
    }
}

/// The result of best play from a position.
pub open spec fn result_of(b: Board) -> int {
    solved(b, b.empty_count as nat, false)
}

/// Of a finished game the result of best play is its score.
pub proof fn law_finished_result(b: Board)
    requires
        b.wf(),
        b.finished(),
    ensures
        result_of(b) == final_score_of(b),
{
    let c = b.passed();
    reveal_with_fuel(solved, 2);
    assert(final_score_of(c) == -final_score_of(b));
}

/// The result of a move to `s`.
pub open spec fn move_result(b: Board, s: int) -> int {
    -solved(b.after(s), (b.empty_count - 1) as nat, false)
}

/// A full board leaves no move.
proof fn lemma_full_board(b: Board)
    requires
        b.wf(),
        b.empty_count == 0,
    ensures
        !b.can_move(),
{
    if b.can_move() {
        let s = choose|s: int| 0 <= s < 64 && #[trigger] b.legal(s);
        lemma_after_wf(b, s);
    }
}

/// No move is worth more than the best, and the best is reached.
proof fn lemma_best_solved(b: Board, n: nat, m: nat)
    requires
        n > 0,
    ensures
        forall|s: int|
            0 <= s < m && #[trigger] b.legal(s) ==> -solved(b.after(s), (n - 1) as nat, false)
                <= best_solved(b, n, m),
        best_solved(b, n, m) == -65 || exists|s: int|
            0 <= s < m && #[trigger] b.legal(s) && -solved(b.after(s), (n - 1) as nat, false)
                == best_solved(b, n, m),
    decreases m,
{
    if m > 0 {
        lemma_best_solved(b, n, (m - 1) as nat);
        let rest = best_solved(b, n, (m - 1) as nat);
        let v = -solved(b.after(m - 1), (n - 1) as nat, false);
        if b.legal(m - 1) && v > rest {
            assert(b.legal(m - 1));
        } else if rest != -65 {
            let s = choose|s: int|
                0 <= s < m - 1 && #[trigger] b.legal(s) && -solved(
                    b.after(s),
                    (n - 1) as nat,
                    false,
                ) == rest;
            assert(b.legal(s));
        }
    }
}

/// Results are within the number of squares.
pub proof fn lemma_solved_bound(b: Board, passed: bool)
    requires
        b.wf(),
    ensures
        -64 <= solved(b, b.empty_count as nat, passed) <= 64,
    decreases
            b.empty_count,
            if passed {
                1int
            } else {
                2int
            },
{
    let n = b.empty_count as nat;
    lemma_final_score(b);
    lemma_passed_wf(b);
    if n == 0 {
        lemma_full_board(b);
    }
    if !b.can_move() {
        if !passed {
            lemma_solved_bound(b.passed(), true);
        }
    } else {
        lemma_best_solved(b, n, 64);
        let m = choose|s: int| 0 <= s < 64 && #[trigger] b.legal(s);
        lemma_after_wf(b, m);
        lemma_solved_bound(b.after(m), false);
        assert(best_solved(b, n, 64) >= -64);
        let s = choose|s: int|
            0 <= s < 64 && #[trigger] b.legal(s) && -solved(b.after(s), (n - 1) as nat, false)
                == best_solved(b, n, 64);
        lemma_after_wf(b, s);
        lemma_solved_bound(b.after(s), false);
    }
}

/// A search that is at least as deep as there are empty squares finds the
/// result of best play, whatever the evaluation says.
pub proof fn law_full_depth_is_solved<E: LeafEval>(e: E, b: Board, depth: nat, passed: bool)
    requires
        e.valid(),
        b.wf(),
        depth >= b.empty_count,
    ensures
        value_of(e, b, depth, passed) == solved(b, b.empty_count as nat, passed) * TERMINAL_SCALE,
    decreases
            b.empty_count,
            if passed {
                1int
            } else {
                2int
            },
{
    let n = b.empty_count as nat;
    lemma_passed_wf(b);
    if n == 0 {
        lemma_full_board(b);
    }
    if !b.can_move() {
        if !passed {
            law_full_depth_is_solved(e, b.passed(), depth, true);
        }
    } else {
        lemma_best_solved(b, n, 64);
        lemma_best_below(e, b, depth, 64);
        lemma_value_bound(e, b, depth, passed);
        lemma_solved_bound(b, passed);
        assert forall|s: int| 0 <= s < 64 && #[trigger] b.legal(s) implies move_value(
            e,
            b,
            depth,
            s,
        ) == -solved(b.after(s), (n - 1) as nat, false) * TERMINAL_SCALE by {
            lemma_after_wf(b, s);
            law_full_depth_is_solved(e, b.after(s), (depth - 1) as nat, false);
        }
        let s = choose|s: int|
            0 <= s < 64 && #[trigger] b.legal(s) && -solved(b.after(s), (n - 1) as nat, false)
                == best_solved(b, n, 64);
        let t = choose|t: int|
            0 <= t < 64 && #[trigger] b.legal(t) && move_value(e, b, depth, t) == best_below(
                e,
                b,
                depth,
                64,
            );
        assert(move_value(e, b, depth, s) <= best_below(e, b, depth, 64));
        assert(-solved(b.after(t), (n - 1) as nat, false) <= best_solved(b, n, 64));
    }
}

/// So does a midgame search.
pub proof fn law_midgame_full_depth_is_solved<E: LeafEval>(e: E, b: Board, depth: nat)
    requires
        e.valid(),
        b.wf(),
        depth >= b.empty_count,
    ensures
        nn_value(e, b, depth) == result_of(b) * FINISHED,
    decreases
            b.empty_count,
            if b.can_move() {
                1int
            } else {
                2int
            },
{
    let n = b.empty_count as nat;
    lemma_passed_wf(b);
    if n == 0 {
        lemma_full_board(b);
        lemma_full_board(b.passed());
    }
    if b.finished() {
        law_finished_result(b);
    } else if !b.can_move() {
        law_midgame_full_depth_is_solved(e, b.passed(), depth);
        reveal_with_fuel(solved, 2);
    } else {
        lemma_best_solved(b, n, 64);
        lemma_nn_best(e, b, depth, 64);
        lemma_nn_bound(e, b, depth);
        lemma_solved_bound(b, false);
        assert forall|s: int| 0 <= s < 64 && #[trigger] b.legal(s) implies nn_move(e, b, depth, s)
            == -solved(b.after(s), (n - 1) as nat, false) * FINISHED by {
            lemma_after_wf(b, s);
            law_midgame_full_depth_is_solved(e, b.after(s), (depth - 1) as nat);
        }
        let s = choose|s: int|
            0 <= s < 64 && #[trigger] b.legal(s) && -solved(b.after(s), (n - 1) as nat, false)
                == best_solved(b, n, 64);
        let t = choose|t: int|
            0 <= t < 64 && #[trigger] b.legal(t) && nn_move(e, b, depth, t) == nn_best(
                e,
                b,
                depth,
                64,
            );
        assert(nn_move(e, b, depth, s) <= nn_best(e, b, depth, 64));
        assert(-solved(b.after(t), (n - 1) as nat, false) <= best_solved(b, n, 64));
    }
}

/// One ply from a horizon beyond the full board there are no moves, so any
/// evaluation knows what follows from them.
pub proof fn law_ends_are_known<E: LeafEval>(set: Set<Board>, e: E, h: int)
    requires
        ground(set, e, h),
        h > 64,
    ensures
        knows_end(set, e, h),
{
    assert forall|b: Board, s: int|
        set.contains(b) && discs(b) + 1 == h && 0 <= s < 64 && b.legal(s) implies !central(s) && ((
    #[trigger] b.after(s)).finished() ==> e.leaf(b.after(s)) == final_score_of(b.after(s))
        * FINISHED) by {
        lemma_full_board(b);
        assert(!b.can_move());
    }
}

/// Result of a finished game, the empty squares given to the winner.
pub fn final_score(board: &Board) -> (n: i32)
    requires
        board.wf(),
    ensures
        n == final_score_of(*board),
{
    final_score_discs(board)
}

/// What a solve is to find.
#[derive(Clone, Copy, Debug, PartialEq, Eq, Structural)]
pub enum EndSolverMode {
    /// The exact result.
    Perfect,
}

/// A solved endgame.
#[derive(Clone, Copy, Debug)]
pub struct EndSolverResult {
    /// A move that reaches the result; none where the side to move has to
    /// pass.
    pub best_move: Option<Position>,
    /// Discs to the side to move.
    pub value: i32,
    pub nodes: u64,
}

/// The result of best play, and a move that reaches it.
pub open spec fn is_solution(b: Board, r: EndSolverResult) -> bool {
    &&& r.value == result_of(b)
    &&& r.best_move is Some == b.can_move()
    &&& r.best_move matches Some(p) ==> p.wf() && b.legal(p.0 as int) && move_result(
        b,
        p.0 as int,
    ) == result_of(b)
}

/// What a solve that can be stopped comes to: a solution, and none only where the
/// flag was seen up.
pub open spec fn solve_gives(stop: Option<StopHandle>, b: Board, r: Option<EndSolverResult>) -> bool {
    &&& r matches Some(s) ==> is_solution(b, s)
    &&& stop is None ==> r is Some
    &&& r is None ==> raised(stop)
    &&& r is Some ==> lowered(stop)
}

/// Best play, as the side to move sees it: it takes the move after which the other
/// side's best play is worth least, and none is worth more; a pass turns the result
/// round; a finished game is worth its score.
pub proof fn law_best_play(b: Board)
    requires
        b.wf(),
    ensures
        -64 <= result_of(b) <= 64,
        forall|s: int|
            0 <= s < 64 && #[trigger] b.legal(s) ==> -result_of(b.after(s)) <= result_of(b)
                && move_result(b, s) == -result_of(b.after(s)),
        b.can_move() ==> exists|s: int|
            0 <= s < 64 && #[trigger] b.legal(s) && -result_of(b.after(s)) == result_of(b),
        !b.can_move() && b.passed().can_move() ==> result_of(b) == -result_of(b.passed()),
        b.finished() ==> result_of(b) == final_score_of(b),
{
    let n = b.empty_count as nat;
    lemma_solved_bound(b, false);
    lemma_passed_wf(b);
    if b.finished() {
        law_finished_result(b);
    }
    if n == 0 {
        lemma_full_board(b);
        lemma_full_board(b.passed());
    }
    if !b.can_move() && b.passed().can_move() {
        reveal_with_fuel(solved, 2);
    }
    assert forall|s: int| 0 <= s < 64 && #[trigger] b.legal(s) implies move_result(b, s)
        == -result_of(b.after(s)) by {
        lemma_after_wf(b, s);
    }
    if b.can_move() {
        lemma_best_solved(b, n, 64);
        let s = choose|s: int|
            0 <= s < 64 && #[trigger] b.legal(s) && -solved(b.after(s), (n - 1) as nat, false)
                == best_solved(b, n, 64);
        assert(b.legal(s) && move_result(b, s) == result_of(b));
    }
}

/// A solve comes to a result unless the flag was seen up, however many squares are
/// empty: the result of best play, with a move after which the other side's best
/// play is worth the same the other way round.
pub proof fn law_solve_is_best_play(stop: Option<StopHandle>, b: Board, r: Option<EndSolverResult>)
    requires
        b.wf(),
        solve_gives(stop, b, r),
    ensures
        !raised(stop) ==> r is Some,
        r matches Some(s) ==> {
            &&& forall|m: int|
                0 <= m < 64 && #[trigger] b.legal(m) ==> -result_of(b.after(m)) <= s.value
            &&& b.can_move() ==> (s.best_move matches Some(p) && b.legal(p.0 as int)
                && -result_of(b.after(p.0 as int)) == s.value)
            &&& !b.can_move() ==> s.best_move is None
            &&& !b.can_move() && b.passed().can_move() ==> s.value == -result_of(b.passed())
            &&& b.finished() ==> s.value == final_score_of(b)
        },
{
    law_best_play(b);
}

/// Nodes between two looks at the stop flag.
pub const STOP_CHECK_INTERVAL: u64 = 1024;

/// Plays endgames out.
#[derive(Debug)]
pub struct Solver {
    pub nodes: u64,
    pub stop: Option<StopHandle>,
    pub countdown: u64,
    pub stopped: bool,
}

impl Solver {
    /// A solver.
    pub fn new() -> (s: Solver)
        ensures
            s.nodes == 0,
            s.stop is None,
            !s.stopped,
    {
        Solver { nodes: 0, stop: None, countdown: 0, stopped: false }
    }

    /// Set the flag by which a solve is stopped.
    pub fn set_stop(&mut self, stop: Option<StopHandle>)
        ensures
            final(self).stop == stop,
            final(self).nodes == old(self).nodes,
    {
        self.stop = stop;
        self.stopped = false;
    }

    /// Count a node, and look at the stop flag now and then.
    fn count_node(&mut self)
        ensures
            final(self).stop == old(self).stop,
            old(self).stop is None ==> final(self).stopped == old(self).stopped,
            old(self).stopped ==> final(self).stopped,
            final(self).stopped ==> old(self).stopped || raised(old(self).stop),
            old(self).countdown > 0 ==> final(self).stopped == old(self).stopped
                && final(self).countdown == old(self).countdown - 1,
            old(self).countdown == 0 && !old(self).stopped ==> (old(self).stop matches Some(h)
                ==> h.shows(final(self).stopped)),
    {
        self.nodes = self.nodes.wrapping_add(1);
        if self.countdown == 0 {
            self.countdown = STOP_CHECK_INTERVAL;
            let up: bool = match &self.stop {
                Some(s) => s.is_stopped(),
                None => false,
            };
            if up {
                self.stopped = true;
            }
        } else {
            self.countdown = self.countdown - 1;
        }
    }

    /// The result of best play with a window: exact inside it and a bound
    /// outside. There is none when the solve was stopped.
    fn play_out(&mut self, board: &Board, alpha: i32, beta: i32, passed: bool) -> (r: Option<i32>)
        requires
            board.wf(),
            -65 <= alpha < beta <= 65,
        ensures
            final(self).stop == old(self).stop,
            old(self).stop is None && !old(self).stopped ==> r is Some && !final(self).stopped,
            !old(self).stopped && r is None ==> raised(old(self).stop),
            r is Some ==> !old(self).stopped && !final(self).stopped,
            !lowered(old(self).stop) && r is Some ==> final(self).countdown < old(self).countdown,
            r matches Some(r) ==> -65 <= r <= 65 && fits_window(
                r as int,
                solved(*board, board.empty_count as nat, passed),
                alpha as int,
                beta as int,
            ),
        decreases
                board.empty_count,
                if passed {
                    1int
                } else {
                    2int
                },
    {
        self.count_node();
        if self.stopped {
            return None;
        }
        let moves: u64 = board.movable();
        let ghost n = board.empty_count as nat;
        let ghost b = *board;
        proof {
            lemma_solved_bound(b, passed);
            if n == 0 {
                lemma_full_board(b);
            }
        }
        if moves == 0 {
            proof {
                lemma_passed_wf(b);
                lemma_final_score(b);
            }
            if passed {
                return Some(final_score(board));
            }
            let mut other: Board = *board;
            other.pass();
            return match self.play_out(&other, -beta, -alpha, true) {
                Some(v) => Some(-v),
                None => None,
            };
        }
        let list: Vec<u8> = iter_bits(moves);
        proof {
            lemma_squares(moves, 64);
            lemma_moves(b);
            lemma_best_solved(b, n, 64);
        }
        let mut best: i32 = -65;
        let mut floor: i32 = alpha;
        let mut i: usize = 0;
        while i < list.len()
            invariant
                self.stop == old(self).stop,
                !old(self).stopped && !self.stopped,
                !lowered(old(self).stop) ==> self.countdown < old(self).countdown,
                board.wf(),
                b == *board,
                n == b.empty_count,
                n > 0,
                -65 <= alpha < beta <= 65,
                moves == b.moves(),
                list@ == squares(moves),
                forall|k: int|
                    0 <= k < list@.len() ==> #[trigger] list@[k] < 64 && b.legal(list@[k] as int),
                i <= list@.len(),
                -65 <= best <= 65,
                floor == if best > alpha {
                    best
                } else {
                    alpha
                },
                floor < beta,
                forall|k: int|
                    0 <= k < i ==> move_result(b, (#[trigger] list@[k]) as int) <= best,
                best > alpha ==> exists|k: int|
                    0 <= k < i && move_result(b, (#[trigger] list@[k]) as int) == best,
                forall|s: int|
                    0 <= s < 64 && #[trigger] b.legal(s) ==> move_result(b, s) <= best_solved(
                        b,
                        n,
                        64,
                    ),
            decreases list@.len() - i,
        {
            let pos = Position(list[i]);
            assert(list@[i as int] < 64);
            proof {
                lemma_wf_sides(b);
                lemma_after_wf(b, pos.0 as int);
                lemma_solved_bound(b.after(pos.0 as int), false);
            }
            let mut child: Board = *board;
            let _ = child.make_move_bits(pos);
            let v: i32 = match self.play_out(&child, -beta, -floor, false) {
                Some(v) => -v,
                None => {
                    return None;
                },
            };
            if v >= beta {
                assert(move_result(b, list@[i as int] as int) <= best_solved(b, n, 64));
                return Some(v);
            }
            let ghost before = best;
            if v > best {
                best = v;
            }
            if v > floor {
                floor = v;
            }
            proof {
                if best > alpha && v > before {
                    assert(move_result(b, list@[i as int] as int) == best);
                }
            }
            i = i + 1;
        }
        proof {
            assert(best_solved(b, n, 64) == solved(b, n, passed));
            let s = choose|s: int|
                0 <= s < 64 && #[trigger] b.legal(s) && -solved(b.after(s), (n - 1) as nat, false)
                    == best_solved(b, n, 64);
            assert(bit(moves, s));
            let k = choose|k: int| 0 <= k < list@.len() && #[trigger] list@[k] == s;
            assert(move_result(b, list@[k] as int) <= best);
            if best > alpha {
                let j = choose|j: int|
                    0 <= j < i && move_result(b, (#[trigger] list@[j]) as int) == best;
                assert(b.legal(list@[j] as int));
            }
        }
        Some(best)
    }

    /// Solve a position, whatever the stop flag says. The value is the result of
    /// best play, the move one that reaches it.
    pub fn solve(&mut self, mode: EndSolverMode, board: &Board) -> (r: EndSolverResult)
        requires
            board.wf(),
        ensures
            is_solution(*board, r),
            r.nodes == final(self).nodes,
            final(self).stop == old(self).stop,
    {
        let mut stop: Option<StopHandle> = None;
        std::mem::swap(&mut stop, &mut self.stop);
        let r: Option<EndSolverResult> = self.solve_until(mode, board);
        self.stop = stop;
        r.unwrap()
    }

    /// Solve a position; there is no result when the flag was seen up, and only
    /// then.
    pub fn solve_until(&mut self, mode: EndSolverMode, board: &Board) -> (r: Option<
        EndSolverResult,
    >)
        requires
            board.wf(),
        ensures
            solve_gives(old(self).stop, *board, r),
            r matches Some(r) ==> r.nodes == final(self).nodes,
            final(self).stop == old(self).stop,
    {
        self.nodes = 0;
        self.countdown = 0;
        self.stopped = false;
        let moves: u64 = board.movable();
        let ghost b = *board;
        proof {
            lemma_solved_bound(b, false);
            lemma_passed_wf(b);
        }
        if moves == 0 {
            let mut other: Board = *board;
            other.pass();
            proof {
                lemma_solved_bound(b.passed(), true);
            }
            return match self.play_out(&other, -65, 65, true) {
                Some(v) => Some(
                    EndSolverResult { best_move: None, value: -v, nodes: self.nodes },
                ),
                None => None,
            };
        }
        let list: Vec<u8> = iter_bits(moves);
        let ghost n = board.empty_count as nat;
        proof {
            lemma_squares(moves, 64);
            lemma_moves(b);
            if n == 0 {
                lemma_full_board(b);
            }
            lemma_best_solved(b, n, 64);
            let first = choose|s: int| 0 <= s < 64 && #[trigger] b.legal(s);
            assert(bit(moves, first));
            assert(squares(moves).contains(first as u8));
            assert(list@[0] < 64);
        }
        let mut best: i32 = -65;
        let mut best_move: Position = Position(list[0]);
        let mut i: usize = 0;
        while i < list.len()
            invariant
                self.stop == old(self).stop,
                !self.stopped,
                i == 0 ==> self.countdown == 0,
                i > 0 ==> lowered(old(self).stop),
                board.wf(),
                b == *board,
                n == b.empty_count,
                n > 0,
                list@ == squares(moves),
                forall|k: int|
                    0 <= k < list@.len() ==> #[trigger] list@[k] < 64 && b.legal(list@[k] as int),
                i <= list@.len(),
                -65 <= best < 65,
                best_move.wf(),
                b.legal(best_move.0 as int),
                i > 0 ==> best == move_result(b, best_move.0 as int),
                i == 0 ==> best == -65,
                forall|k: int|
                    0 <= k < i ==> move_result(b, (#[trigger] list@[k]) as int) <= best,
            decreases list@.len() - i,
        {
            let pos = Position(list[i]);
            assert(list@[i as int] < 64);
            proof {
                lemma_wf_sides(b);
                lemma_after_wf(b, pos.0 as int);
                lemma_solved_bound(b.after(pos.0 as int), false);
            }
            let mut child: Board = *board;
            let _ = child.make_move_bits(pos);
            let v: i32 = match self.play_out(&child, -65, -best, false) {
                Some(v) => -v,
                None => {
                    return None;
                },
            };
            if v > best {
                best = v;
                best_move = pos;
            }
            i = i + 1;
        }
        proof {
            let s = choose|s: int|
                0 <= s < 64 && #[trigger] b.legal(s) && -solved(b.after(s), (n - 1) as nat, false)
                    == best_solved(b, n, 64);
            assert(bit(moves, s));
            let k = choose|k: int| 0 <= k < list@.len() && #[trigger] list@[k] == s;
            assert(move_result(b, list@[k] as int) <= best);
        }
        Some(EndSolverResult { best_move: Some(best_move), value: best, nodes: self.nodes })
    }
}

} // verus!
