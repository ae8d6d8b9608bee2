//! Midgame search: iterative deepening alpha-beta with a transposition table
//! and move ordering.
//!
//! Values are half discs as the side to move sees them. A finished game counts
//! `TERMINAL_SCALE` for each disc of difference, which outranks any evaluation
//! of an unfinished one.

use vstd::prelude::*;

use crate::bits::{bit, count, iter_bits, lemma_count_bound, lemma_masked, lemma_small_power, lemma_squares, squares};
use crate::board::{Board, lemma_after_wf, lemma_moves, lemma_passed_wf, lemma_placed_hash, lemma_wf_sides};
use crate::color::Color;
use crate::facts::{Fact, comes_from, lemma_comes_next};
use crate::pattern_index::{PatternIndexer, PatternIndices, law_apply_tracks};
use crate::position::Position;
use crate::sorting::{comes_before, is_stable_order, listed, stable_order};
use crate::zobrist::{compute_hash, hash_after, hash_of, lemma_hash_after_pass, lemma_hash_tells_turn, update_hash_on_move, update_hash_on_pass};

pub mod backing;

use backing::{Rules, entry_fact};

verus! {

/// Half discs that a disc of difference counts in a finished game.
pub const TERMINAL_SCALE: i32 = 2000;

/// Beyond every value.
pub const INF: i32 = 1_073_741_824;

/// Beyond every evaluation of an unfinished game.
pub const LEAF_LIMIT: i32 = 268_435_456;

/// Longest line of moves.
pub const MAX_PLY: usize = 64;

/// Deepest nesting of reduced searches.
pub const MPC_MAX_LEVEL: u8 = 2;

/// Remaining depth from which a reduced search may replace a full one.
pub const MPC_MIN_DEPTH: u8 = 4;

/// How sure a reduced search has to be, in hundredths of a standard deviation.
pub const MPC_T: u32 = 110;

/// Remaining depth from which children are ordered by their evaluation.
pub const EVAL_ORDER_MIN_DEPTH: u8 = 6;

/// An evaluation of positions from their pattern indices.
pub trait LeafEval {
    /// The evaluation's tables fit together.
    spec fn valid(&self) -> bool;

    /// The tables by which the indices are kept.
    spec fn tables(&self) -> PatternIndexer;

    /// The value of a position to the side to move, in half discs.
    spec fn leaf(&self, b: Board) -> int;

    /// The tables by which the indices are kept.
    fn indexer(&self) -> (ix: &PatternIndexer)
        requires
            self.valid(),
        ensures
            *ix == self.tables(),
            ix.wf(),
    ;

    /// The value of a position to the side to move, in half discs.
    fn eval_indices(&self, b: &Board, indices: &PatternIndices) -> (v: i32)
        requires
            self.valid(),
            b.wf(),
            self.tables().holds(*indices, b.black, b.white),
        ensures
            v == self.leaf(*b),
            -LEAF_LIMIT < v < LEAF_LIMIT,
    ;

    /// Values of positions are within their limits.
    proof fn leaf_bounded(&self, b: Board)
        requires
            self.valid(),
            b.wf(),
        ensures
            -LEAF_LIMIT < self.leaf(b) < LEAF_LIMIT,
    ;

    /// The value goes by what the side to move sees, whichever colour it has.
    proof fn leaf_goes_by_view(&self, a: Board, b: Board)
        requires
            self.valid(),
            a.own() == b.own(),
            a.opp() == b.opp(),
            a.empty_count == b.empty_count,
        ensures
            self.leaf(a) == self.leaf(b),
    ;

    /// A cheap value of a position, by which children are ordered.
    fn eval_order(&self, b: &Board, indices: &PatternIndices) -> (key: i64)
        requires
            self.valid(),
            b.wf(),
            self.tables().holds(*indices, b.black, b.white),
        ensures
            key == self.leaf(*b),
    ;
}

/// The result of a finished game to the side to move; the winner gets the
/// empty squares.
pub open spec fn final_score_of(b: Board) -> int {
    let diff = count(b.own()) - count(b.opp());
    if diff > 0 {
        diff + b.empty_count
    } else if diff < 0 {
        diff - b.empty_count
    } else {
        0
    }
}

/// The value of a position searched to the given depth: the best that the side
/// to move can reach against the best answers, an evaluation where the depth
/// is used up, the result where the game is over. A pass uses up no depth.
pub open spec fn value_of<E: LeafEval>(e: E, b: Board, depth: nat, passed: bool) -> int
    decreases
            depth,
            if passed {
                1int
            } else {
                2int
            },
            0int,
{
    if !b.can_move() {
        if passed {
            final_score_of(b) * TERMINAL_SCALE
        } else {
            -value_of(e, b.passed(), depth, true)
        }
    } else if depth == 0 {
        e.leaf(b)
    } else {
        best_below(e, b, depth, 64)
    }
}

/// The best value that a move to one of the squares below `n` reaches.
pub open spec fn best_below<E: LeafEval>(e: E, b: Board, depth: nat, n: nat) -> int
    decreases depth, 0int, n,
{
    if n == 0 || depth == 0 {
        -INF as int
    } else {
        let rest = best_below(e, b, depth, (n - 1) as nat);
        let v = -value_of(e, b.after(n - 1), (depth - 1) as nat, false);
        if b.legal(n - 1) && v > rest {
            v
        } else {
            rest
        }
    }
}

/// What a move to `s` is worth.
pub open spec fn move_value<E: LeafEval>(e: E, b: Board, depth: nat, s: int) -> int {
    -value_of(e, b.after(s), (depth - 1) as nat, false)
}

/// No square below `n` is worth more than the best, and the best is reached.
pub proof fn lemma_best_below<E: LeafEval>(e: E, b: Board, depth: nat, n: nat)
    requires
        depth > 0,
    ensures
        forall|s: int|
            0 <= s < n && #[trigger] b.legal(s) ==> move_value(e, b, depth, s) <= best_below(
                e,
                b,
                depth,
                n,
            ),
        best_below(e, b, depth, n) == -INF || exists|s: int|
            0 <= s < n && #[trigger] b.legal(s) && move_value(e, b, depth, s) == best_below(
                e,
                b,
                depth,
                n,
            ),
    decreases n,
{
    if n > 0 {
        let m = (n - 1) as nat;
        lemma_best_below(e, b, depth, m);
        let rest = best_below(e, b, depth, m);
        let v = move_value(e, b, depth, n - 1);
        if b.legal(n - 1) && v > rest {
            assert(b.legal(n - 1) && move_value(e, b, depth, n - 1) == best_below(e, b, depth, n));
        } else if rest != -INF {
            let s = choose|s: int|
                0 <= s < m && #[trigger] b.legal(s) && move_value(e, b, depth, s) == rest;
            assert(b.legal(s) && move_value(e, b, depth, s) == best_below(e, b, depth, n));
        }
    }
}

/// Results are small, and the other side sees them the other way round.
pub proof fn lemma_final_score(b: Board)
    requires
        b.wf(),
    ensures
        -64 <= final_score_of(b) <= 64,
        final_score_of(b.passed()) == -final_score_of(b),
{
    lemma_wf_sides(b);
    lemma_count_bound(b.own(), 64);
    lemma_count_bound(b.opp(), 64);
}

/// The winner of a finished game gets the empty squares: the result is twice what
/// the winner has beyond half the board, counted that way, and nothing where both
/// have the same number of discs.
pub proof fn law_winner_gets_the_rest(b: Board)
    requires
        b.wf(),
    ensures
        count(b.own()) > count(b.opp()) ==> final_score_of(b) == 64 - 2 * count(b.opp()),
        count(b.own()) < count(b.opp()) ==> final_score_of(b) == 2 * count(b.own()) - 64,
        count(b.own()) == count(b.opp()) ==> final_score_of(b) == 0,
        final_score_of(b.passed()) == -final_score_of(b),
{
    lemma_wf_sides(b);
    lemma_final_score(b);
}

/// Values are within the infinities.
pub proof fn lemma_value_bound<E: LeafEval>(e: E, b: Board, depth: nat, passed: bool)
    requires
        e.valid(),
        b.wf(),
    ensures
        -LEAF_LIMIT < value_of(e, b, depth, passed) < LEAF_LIMIT,
    decreases
            depth,
            if passed {
                1int
            } else {
                2int
            },
{
    lemma_final_score(b);
    lemma_passed_wf(b);
    e.leaf_bounded(b);
    if !b.can_move() {
        if !passed {
            lemma_value_bound(e, b.passed(), depth, true);
        }
    } else if depth > 0 {
        lemma_best_below(e, b, depth, 64);
        let m = choose|s: int| 0 <= s < 64 && #[trigger] b.legal(s);
        lemma_wf_sides(b);
        lemma_after_wf(b, m);
        lemma_value_bound(e, b.after(m), (depth - 1) as nat, false);
        assert(move_value(e, b, depth, m) <= best_below(e, b, depth, 64));
        let s = choose|s: int|
            0 <= s < 64 && #[trigger] b.legal(s) && move_value(e, b, depth, s) == best_below(
                e,
                b,
                depth,
                64,
            );
        lemma_after_wf(b, s);
        lemma_value_bound(e, b.after(s), (depth - 1) as nat, false);
    }
}

/// Result of a finished game, the empty squares given to the winner.
pub fn final_score_discs(board: &Board) -> (n: i32)
    requires
        board.wf(),
    ensures
        n == final_score_of(*board),
        -64 <= n <= 64,
{
    proof {
        lemma_final_score(*board);
        lemma_wf_sides(*board);
    }
    let diff: i32 = board.score();
    let empties: i32 = board.empty_count() as i32;
    if diff > 0 {
        diff + empties
    } else if diff < 0 {
        diff - empties
    } else {
        0
    }
}

/// Depth of a reduced search: about half of the remaining depth, of the same
/// parity.
pub fn mpc_reduced_depth(depth: u8) -> (d: u8)
    ensures
        d == 2 * (depth / 4) + depth % 2,
        d <= depth,
        d % 2 == depth % 2,
        depth >= 4 ==> d < depth,
{
    2 * (depth / 4) + depth % 2
}

/// Standard deviation of what a search to `depth` finds from what one to `pc`
/// finds, by empty squares, in units of 10^-18 discs: a polynomial that was
/// fitted to searched positions.
pub open spec fn sigma(empties: int, depth: int, pc: int) -> int {
    let s = 368_775 * depth - 68_941 * empties - 713_476 * pc;
    10_223 * (s * s) + 647_219_000_000 * s + 4_050_545_000_000_000_000
}

/// Half discs in a finished game without any disc of the loser.
pub const SWEEP: i32 = 128;

/// Units of `sigma` times a hundredth in a half disc.
pub const SIGMA_UNIT: i128 = 50_000_000_000_000_000_000;

/// By how many half discs a reduced search has to clear the window, rounded up,
/// when it is to be `t` hundredths of a standard deviation sure.
pub open spec fn probe_margin_of(t: int, empties: int, depth: int, pc: int) -> int {
    (t * sigma(empties, depth, pc) + SIGMA_UNIT - 1) / SIGMA_UNIT as int
}

/// How many half discs the position's own value may fall short of the window, or
/// has to, for a reduced search to be tried; in units of `sigma` times a
/// hundredth.
pub open spec fn gate_of(t: int, empties: int, depth: int, pc: int) -> int {
    t * (sigma(empties, depth, 0) + sigma(empties, depth, pc))
}

/// The standard deviation in units of 10^-18 discs.
pub fn mpc_sigma(empties: u8, depth: u8, pc: u8) -> (r: i128)
    requires
        empties <= 64,
        pc == 0 || pc == 2 * (depth / 4) + depth % 2,
    ensures
        r == sigma(empties as int, depth as int, pc as int),
        0 < r <= 0x1000_0000_0000_0000_0000_0000,
{
    let s: i128 = 368_775 * depth as i128 - 68_941 * empties as i128 - 713_476 * pc as i128;
    assert(-4_800_000 <= s <= 100_000_000);
    assert(0 <= s * s <= 100_000_000 * 100_000_000) by (nonlinear_arith)
        requires
            -4_800_000 <= s <= 100_000_000,
    ;
    10_223 * (s * s) + 647_219_000_000 * s + 4_050_545_000_000_000_000
}

/// What a node with a window of one unit asks of reduced searches: the bound
/// that one has to reach for a cut above, and the one for a cut below, where
/// they are tried. The position's own value `score` has to point past the
/// window, and the window with its margin to lie within a swept board.
pub open spec fn probe_windows_of(
    score: int,
    alpha: int,
    beta: int,
    t: int,
    empties: int,
    depth: int,
) -> (Option<int>, Option<int>) {
    let pc = 2 * (depth / 4) + depth % 2;
    let m = probe_margin_of(t, empties, depth, pc);
    let gate = gate_of(t, empties, depth, pc);
    let x = t * sigma(empties, depth, pc);
    (
        if (score - beta) * (2 * SIGMA_UNIT) >= -gate && x < (SWEEP - beta) * SIGMA_UNIT {
            Some(beta + m)
        } else {
            None
        },
        if (score - alpha) * (2 * SIGMA_UNIT) < gate && x < (alpha + SWEEP) * SIGMA_UNIT {
            Some(alpha - m)
        } else {
            None
        },
    )
}

/// The bounds are those.
pub open spec fn same_bounds(r: (Option<i32>, Option<i32>), m: (Option<int>, Option<int>)) -> bool {
    &&& match r.0 {
        Some(x) => m.0 == Some(x as int),
        None => m.0 is None,
    }
    &&& match r.1 {
        Some(x) => m.1 == Some(x as int),
        None => m.1 is None,
    }
}

proof fn lemma_scaled(n: int)
    requires
        -0x1_0000_0000 <= n <= 0x1_0000_0000,
    ensures
        -0x1_0000_0000 * SIGMA_UNIT <= n * SIGMA_UNIT <= 0x1_0000_0000 * SIGMA_UNIT,
        n * (2 * SIGMA_UNIT) == n * SIGMA_UNIT * 2,
{
    assert(-0x1_0000_0000 * 50_000_000_000_000_000_000 <= n * 50_000_000_000_000_000_000
        <= 0x1_0000_0000 * 50_000_000_000_000_000_000);
    let unit = SIGMA_UNIT as int;
    assert(n * (2 * unit) == n * unit * 2) by (nonlinear_arith);
}

/// A margin that is less than a whole number is no more when it is rounded up.
proof fn lemma_margin(x: int, n: int)
    requires
        0 <= x,
    ensures
        0 <= (x + SIGMA_UNIT - 1) / SIGMA_UNIT as int,
        x < n * SIGMA_UNIT ==> (x + SIGMA_UNIT - 1) / SIGMA_UNIT as int <= n,
{
    let m = (x + 49_999_999_999_999_999_999) / 50_000_000_000_000_000_000int;
    assert(m * 50_000_000_000_000_000_000 <= x + 49_999_999_999_999_999_999);
    assert(x < n * 50_000_000_000_000_000_000 ==> m < n + 1);
}

/// What a node with a window of one unit asks of reduced searches.
pub fn probe_windows(score: i32, alpha: i32, beta: i32, t: u32, empties: u8, depth: u8) -> (r: (
    Option<i32>,
    Option<i32>,
))
    requires
        empties <= 64,
        -INF <= score <= INF,
        -INF <= alpha < beta <= INF,
    ensures
        same_bounds(
            r,
            probe_windows_of(
                score as int,
                alpha as int,
                beta as int,
                t as int,
                empties as int,
                depth as int,
            ),
        ),
        r.0 matches Some(high) ==> beta <= high <= SWEEP,
        r.1 matches Some(low) ==> -SWEEP <= low <= alpha,
{
    let pc: u8 = mpc_reduced_depth(depth);
    let near: i128 = mpc_sigma(empties, depth, pc);
    let own: i128 = mpc_sigma(empties, depth, 0);
    let tt: i128 = t as i128;
    assert(0 <= tt * near <= 0xffff_ffff * 0x1000_0000_0000_0000_0000_0000) by (nonlinear_arith)
        requires
            0 <= tt <= 0xffff_ffff,
            0 < near <= 0x1000_0000_0000_0000_0000_0000,
    ;
    assert(0 <= tt * (own + near) <= 0xffff_ffff * 0x2000_0000_0000_0000_0000_0000)
        by (nonlinear_arith)
        requires
            0 <= tt <= 0xffff_ffff,
            0 < near <= 0x1000_0000_0000_0000_0000_0000,
            0 < own <= 0x1000_0000_0000_0000_0000_0000,
    ;
    let x: i128 = tt * near;
    let m: i128 = (x + SIGMA_UNIT - 1) / SIGMA_UNIT;
    let gate: i128 = tt * (own + near);
    let unit: i128 = 50_000_000_000_000_000_000;
    let (over, under): (i128, i128) = (score as i128 - beta as i128, score as i128 - alpha as i128);
    let (up, down): (i128, i128) = (SWEEP as i128 - beta as i128, alpha as i128 + SWEEP as i128);
    proof {
        lemma_scaled(over as int);
        lemma_scaled(under as int);
        lemma_scaled(up as int);
        lemma_scaled(down as int);
        lemma_margin(x as int, up as int);
        lemma_margin(x as int, down as int);
    }
    let high: Option<i32> = if over * unit * 2 >= -gate && x < up * unit {
        Some((beta as i128 + m) as i32)
    } else {
        None
    };
    let low: Option<i32> = if under * unit * 2 < gate && x < down * unit {
        Some((alpha as i128 - m) as i32)
    } else {
        None
    };
    (high, low)
}

/// What a square's place adds to the ordering of moves.
pub open spec fn bias_of(s: int) -> int {
    if s == 0 || s == 7 || s == 56 || s == 63 {
        -268_435_456
    } else if s == 9 || s == 14 || s == 49 || s == 54 {
        268_435_456
    } else {
        0
    }
}

/// What the squares' places add to the ordering of moves: corners come first,
/// the squares diagonally before them last.
pub fn square_bias() -> (t: [i64; 64])
    ensures
        forall|s: int| 0 <= s < 64 ==> #[trigger] t@[s] == bias_of(s),
{
    let corner: i64 = -268_435_456;
    let x_sq: i64 = 268_435_456;
    let mut t: [i64; 64] = [0;64];
    t[0] = corner;
    t[7] = corner;
    t[56] = corner;
    t[63] = corner;
    t[9] = x_sq;
    t[14] = x_sq;
    t[49] = x_sq;
    t[54] = x_sq;
    t
}

/// What a stored value says of the true one.
#[derive(Clone, Copy, Debug, PartialEq, Eq, Structural)]
pub enum Bound {
    Exact,
    Lower,
    Upper,
}

/// A searched position.
#[derive(Clone, Copy, Debug)]
pub struct TtEntry {
    pub key: u64,
    pub black: u64,
    pub white: u64,
    pub depth: u8,
    pub value: i32,
    pub bound: Bound,
    pub best: Option<Position>,
    pub used: bool,
}

impl TtEntry {
    /// An unused entry.
    pub fn empty() -> (t: TtEntry)
        ensures
            !t.used,
    {
        TtEntry {
            key: 0,
            black: 0,
            white: 0,
            depth: 0,
            value: 0,
            bound: Bound::Exact,
            best: None,
            used: false,
        }
    }

    /// The position; the key tells the side to move.
    pub open spec fn board(self) -> Board {
        Board {
            black: self.black,
            white: self.white,
            player: if self.key == hash_of(self.black, self.white, Color::Black) {
                Color::Black
            } else {
                Color::White
            },
            empty_count: (64 - count(self.black) - count(self.white)) as u8,
        }
    }

    /// The key is the position's, the side to move can move, and the best move
    /// is a legal one.
    pub open spec fn wf(self) -> bool {
        &&& self.board().wf()
        &&& self.key == self.board().zobrist()
        &&& self.board().can_move()
        &&& self.depth > 0
        &&& -INF <= self.value <= INF
        &&& self.best matches Some(p) ==> p.wf() && self.board().legal(p.0 as int)
    }

    /// The stored value is right about the position searched to the depth.
    pub open spec fn sound<E: LeafEval>(self, e: E) -> bool {
        let v = value_of(e, self.board(), self.depth as nat, false);
        match self.bound {
            Bound::Exact => v == self.value,
            Bound::Lower => v >= self.value,
            Bound::Upper => v <= self.value,
        }
    }

    /// Where the search ends that the depth stands for, counted in discs on
    /// the board.
    pub open spec fn horizon(self) -> int {
        64 - self.board().empty_count + self.depth
    }

    /// Nothing was searched beyond the horizon `h`, and what was searched to
    /// it is right.
    pub open spec fn within<E: LeafEval>(self, e: E, h: int) -> bool {
        64 - self.board().empty_count < h ==> self.horizon() <= h && (self.horizon() == h
            ==> self.sound(e))
    }
}

/// Every used entry is well-formed.
pub open spec fn table_wf(entries: Seq<TtEntry>) -> bool {
    forall|i: int| 0 <= i < entries.len() && (#[trigger] entries[i]).used ==> entries[i].wf()
}

/// Every used entry keeps within the horizon.
pub open spec fn table_within<E: LeafEval>(entries: Seq<TtEntry>, e: E, h: int) -> bool {
    forall|i: int|
        0 <= i < entries.len() && (#[trigger] entries[i]).used ==> entries[i].within(e, h)
}

/// Of two entries the one that was searched deeper; the first among equals.
pub open spec fn deeper(a: TtEntry, b: TtEntry) -> TtEntry {
    if b.used && (!a.used || a.depth < b.depth) {
        b
    } else {
        a
    }
}

/// Two tables brought together, slot by slot.
pub open spec fn joined_entries(a: Seq<TtEntry>, b: Seq<TtEntry>) -> Seq<TtEntry> {
    Seq::new(a.len(), |i: int| deeper(a[i], b[i]))
}

/// Tables that keep within the horizon keep within it together.
pub proof fn law_join_keeps_within<E: LeafEval>(
    a: Seq<TtEntry>,
    b: Seq<TtEntry>,
    e: E,
    h: int,
)
    requires
        table_within(a, e, h),
        table_within(b, e, h),
        a.len() == b.len(),
    ensures
        table_within(joined_entries(a, b), e, h),
{
    assert forall|i: int|
        0 <= i < a.len() && (#[trigger] joined_entries(a, b)[i]).used implies joined_entries(
        a,
        b,
    )[i].within(e, h) by {
        assert(a[i].used ==> a[i].within(e, h));
        assert(b[i].used ==> b[i].within(e, h));
    }
}

/// The result of a search.
#[derive(Clone, Copy, Debug)]
pub struct SearchResult {
    pub best_move: Option<Position>,
    /// Half discs to the side to move.
    pub value: i32,
    pub nodes: u64,
    /// The depth searched.
    pub depth: u8,
}

/// A searcher with its transposition table and its ordering of moves.
#[derive(Debug)]
pub struct Searcher {
    pub entries: Vec<TtEntry>,
    pub mask: u64,
    pub nodes: u64,
    /// Let a reduced search replace a full one where it promises a cut.
    pub mpc: bool,
    /// How sure a reduced search has to be, in hundredths of a standard
    /// deviation.
    pub mpc_t: u32,
    /// Remaining depth from which a reduced search may replace a full one.
    pub mpc_min_depth: u8,
    pub probcut_level: u8,
    /// For each ply the two moves that last caused a cut.
    pub killers: Vec<(Option<Position>, Option<Position>)>,
    /// Credit of each square for cuts, Black's first.
    pub history: Vec<u32>,
}

impl Searcher {
    /// The table has a slot for every masked key, and its entries are
    /// well-formed.
    pub open spec fn wf(self) -> bool {
        &&& self.mask < self.entries@.len()
        &&& table_wf(self.entries@)
        &&& self.killers@.len() == MAX_PLY
        &&& self.history@.len() == 128
    }

    /// The setting is not changed by a search.
    pub open spec fn same_setting(self, other: Searcher) -> bool {
        &&& self.mask == other.mask
        &&& self.entries@.len() == other.entries@.len()
        &&& self.mpc == other.mpc
        &&& self.mpc_t == other.mpc_t
        &&& self.mpc_min_depth == other.mpc_min_depth
        &&& self.probcut_level == other.probcut_level
    }

    /// A search to this depth makes no reduced searches.
    pub open spec fn unreduced(self, depth: int) -> bool {
        !self.mpc || depth < self.mpc_min_depth
    }

    /// How deep reduced searches may nest from here on.
    pub open spec fn cuts(self) -> int {
        if self.mpc {
            MPC_MAX_LEVEL - self.probcut_level
        } else {
            0
        }
    }

    /// By what a search from here may say something of positions that follow
    /// from `root`, up to `h` discs on the board.
    pub open spec fn rules<E: LeafEval>(self, e: E, root: Board, h: int) -> Rules<E> {
        Rules {
            e,
            entries: self.entries@,
            t: self.mpc_t as int,
            least: self.mpc_min_depth as int,
            cuts: self.cuts(),
            root,
            h,
        }
    }

    /// The search goes by the rules, which vouch for its table.
    pub open spec fn keeps<E: LeafEval>(self, e: E, r: Rules<E>) -> bool {
        &&& r.e == e
        &&& r.t == self.mpc_t
        &&& r.least == self.mpc_min_depth
        &&& self.cuts() <= r.cuts
        &&& r.backs_all(self.entries@)
    }

    /// The searcher outside of reduced searches.
    pub open spec fn rested(self) -> Searcher {
        Searcher { probcut_level: 0, ..self }
    }

    /// Nothing that was searched as deep is kept where the position belongs.
    pub open spec fn fresh_for(self, b: Board, depth: int) -> bool {
        near(self.entries@, (b.zobrist() & self.mask) as int, depth - 1)
    }

    /// Count a node.
    fn count_node(&mut self)
        ensures
            *final(self) == (Searcher { nodes: final(self).nodes, ..*old(self) }),
            final(self).nodes == if old(self).nodes < u64::MAX {
                old(self).nodes + 1
            } else {
                u64::MAX as int
            },
    {
        if self.nodes < u64::MAX {
            self.nodes = self.nodes + 1;
        }
    }

    /// A searcher with a table of `2^bit_size` entries.
    pub fn new(bit_size: u32) -> (s: Searcher)
        requires
            bit_size < 32,
        ensures
            s.wf(),
            s.entries@.len() == (1u64 << (bit_size as u64)),
            forall|i: int| 0 <= i < s.entries@.len() ==> !(#[trigger] s.entries@[i]).used,
            !s.mpc,
            s.mpc_t == MPC_T,
            s.mpc_min_depth == MPC_MIN_DEPTH,
            s.probcut_level == 0,
    {
        let size: u64 = 1u64 << (bit_size as u64);
        proof {
            lemma_small_power(bit_size as u64);
        }
        let entries: Vec<TtEntry> = unused(size as usize);
        Searcher {
            entries,
            mask: size - 1,
            nodes: 0,
            mpc: false,
            mpc_t: MPC_T,
            mpc_min_depth: MPC_MIN_DEPTH,
            probcut_level: 0,
            killers: no_killers(),
            history: no_history(),
        }
    }

    /// Forget everything that was searched. Needed when another evaluation is
    /// searched with: the entries hold values of the one before.
    pub fn clear(&mut self)
        requires
            old(self).wf(),
        ensures
            final(self).wf(),
            final(self).same_setting(*old(self)),
            forall|i: int|
                0 <= i < final(self).entries@.len() ==> !(#[trigger] final(self).entries@[i]).used,
    {
        self.entries = unused(self.entries.len());
    }

    /// Take over what another searcher with a table of the same size has found
    /// at a greater depth, slot by slot.
    pub fn join(&mut self, other: &Searcher)
        requires
            old(self).wf(),
            other.wf(),
            other.entries@.len() == old(self).entries@.len(),
        ensures
            final(self).wf(),
            *final(self) == (Searcher { entries: final(self).entries, ..*old(self) }),
            final(self).entries@ == joined_entries(old(self).entries@, other.entries@),
    {
        let ghost before = self.entries@;
        let len: usize = self.entries.len();
        let mut i: usize = 0;
        while i < len
            invariant
                self.wf(),
                other.wf(),
                *self == (Searcher { entries: self.entries, ..*old(self) }),
                len == self.entries@.len(),
                len == before.len(),
                len == other.entries@.len(),
                i <= len,
                forall|k: int|
                    0 <= k < i ==> #[trigger] self.entries@[k] == deeper(
                        before[k],
                        other.entries@[k],
                    ),
                forall|k: int| i <= k < len ==> #[trigger] self.entries@[k] == before[k],
            decreases len - i,
        {
            let (a, b): (TtEntry, TtEntry) = (self.entries[i], other.entries[i]);
            if b.used && (!a.used || a.depth < b.depth) {
                self.entries.set(i, b);
            }
            i = i + 1;
        }
        assert(self.entries@ =~= joined_entries(before, other.entries@));
    }

    /// The entry of the position, if there is one.
    fn tt_probe(&self, board: &Board, hash: u64) -> (r: Option<TtEntry>)
        requires
            self.wf(),
            board.wf(),
            hash == board.zobrist(),
        ensures
            match r {
                Some(t) => t.used && t.board() == *board && t.wf() && exists|i: int|
                    0 <= i < self.entries@.len() && self.entries@[i] == t,
                None => true,
            },
            r == ({
                let t = self.entries@[(hash & self.mask) as int];
                if t.used && t.key == hash && t.black == board.black && t.white == board.white {
                    Some(t)
                } else {
                    None
                }
            }),
    {
        let m: u64 = self.mask;
        proof {
            lemma_masked(hash, m);
        }
        let n: usize = self.entries.len();
        assert((hash & m) < n);
        let i: usize = (hash & self.mask) as usize;
        let t: TtEntry = self.entries[i];
        if t.used && t.key == hash && t.black == board.black && t.white == board.white {
            proof {
                lemma_hash_tells_turn(board.black, board.white);
                assert(self.entries@[i as int] == t);
            }
            Some(t)
        } else {
            None
        }
    }

    /// Store what was searched, unless the slot holds a deeper search.
    fn tt_store(
        &mut self,
        board: &Board,
        hash: u64,
        depth: u8,
        value: i32,
        bound: Bound,
        best: Option<Position>,
    )
        requires
            old(self).wf(),
            board.wf(),
            board.can_move(),
            depth > 0,
            hash == board.zobrist(),
            -INF <= value <= INF,
            best matches Some(p) ==> p.wf() && board.legal(p.0 as int),
        ensures
            final(self).wf(),
            final(self).same_setting(*old(self)),
            final(self).nodes == old(self).nodes,
            ({
                let i = (hash & old(self).mask) as int;
                let t = TtEntry {
                    key: hash,
                    black: board.black,
                    white: board.white,
                    depth,
                    value,
                    bound,
                    best,
                    used: true,
                };
                let before = old(self).entries@[i];
                &&& t.board() == *board
                &&& final(self).entries@ == if !before.used || before.depth <= depth {
                    old(self).entries@.update(i, t)
                } else {
                    old(self).entries@
                }
            }),
    {
        let m: u64 = self.mask;
        proof {
            lemma_masked(hash, m);
        }
        let n: usize = self.entries.len();
        assert((hash & m) < n);
        let i: usize = (hash & self.mask) as usize;
        proof {
            lemma_hash_tells_turn(board.black, board.white);
        }
        if !self.entries[i].used || self.entries[i].depth <= depth {
            let t = TtEntry {
                key: hash,
                black: board.black,
                white: board.white,
                depth,
                value,
                bound,
                best,
                used: true,
            };
            assert(t.board() == *board);
            self.entries.set(i, t);
        }
    }
}

/// Unused entries.
fn unused(n: usize) -> (v: Vec<TtEntry>)
    ensures
        v@.len() == n,
        forall|i: int| 0 <= i < n ==> !(#[trigger] v@[i]).used,
{
    let mut v: Vec<TtEntry> = Vec::new();
    let mut i: usize = 0;
    while i < n
        invariant
            i <= n,
            v@.len() == i,
            forall|k: int| 0 <= k < i ==> !(#[trigger] v@[k]).used,
        decreases n - i,
    {
        v.push(TtEntry::empty());
        i = i + 1;
    }
    v
}

/// No move has caused a cut yet.
fn no_killers() -> (v: Vec<(Option<Position>, Option<Position>)>)
    ensures
        v@.len() == MAX_PLY,
{
    let mut v: Vec<(Option<Position>, Option<Position>)> = Vec::new();
    let mut i: usize = 0;
    while i < MAX_PLY
        invariant
            i <= MAX_PLY,
            v@.len() == i,
        decreases MAX_PLY - i,
    {
        v.push((None, None));
        i = i + 1;
    }
    v
}

/// No square has credit yet.
fn no_history() -> (v: Vec<u32>)
    ensures
        v@.len() == 128,
{
    vec![0; 128]
}

/// A move of a position, with what is needed to search it.
#[derive(Clone, Copy, Debug)]
pub struct Child {
    pub pos: Position,
    /// Hash of the position after the move; unused where only the evaluation
    /// follows.
    pub hash: u64,
    pub flipped: u64,
    /// Children with a lower key are searched first.
    pub key: i64,
}

impl Child {
    /// The child is a legal move of the position.
    pub open spec fn fits(self, b: Board, deep: bool) -> bool {
        &&& self.pos.wf()
        &&& b.legal(self.pos.0 as int)
        &&& self.flipped == b.flips(self.pos.0 as int)
        &&& deep ==> self.hash == b.after(self.pos.0 as int).zobrist()
    }
}

/// The children are the legal moves of the position.
pub open spec fn children_fit(v: Seq<Child>, b: Board, deep: bool) -> bool {
    &&& forall|i: int| 0 <= i < v.len() ==> (#[trigger] v[i]).fits(b, deep)
    &&& forall|s: int|
        0 <= s < 64 && #[trigger] b.legal(s) ==> exists|i: int|
            0 <= i < v.len() && (#[trigger] v[i]).pos.0 == s
}

/// What a result of a search with a window says of the true value `v`.
pub open spec fn fits_window(r: int, v: int, alpha: int, beta: int) -> bool {
    &&& r <= alpha ==> v <= r
    &&& r >= beta ==> v >= r
    &&& alpha < r < beta ==> v == r
}

/// What is kept in a slot was not searched deeper than `cap`.
pub open spec fn near(entries: Seq<TtEntry>, at: int, cap: int) -> bool {
    0 <= at < entries.len() && entries[at].used ==> entries[at].depth <= cap
}

/// The larger of two numbers.
pub open spec fn larger(a: int, b: int) -> int {
    if a > b {
        a
    } else {
        b
    }
}

/// The edges of a window are the infinities or lie where values do.
pub open spec fn edges(alpha: int, beta: int) -> bool {
    &&& alpha == -INF || -LEAF_LIMIT <= alpha < LEAF_LIMIT
    &&& beta == INF || -LEAF_LIMIT < beta <= LEAF_LIMIT
}

/// Every stored value lies where values do.
pub open spec fn table_tame(entries: Seq<TtEntry>) -> bool {
    forall|i: int|
        0 <= i < entries.len() && (#[trigger] entries[i]).used ==> -LEAF_LIMIT < entries[i].value
            < LEAF_LIMIT
}

/// Discs on the board and depth left.
pub open spec fn reach(b: Board, depth: int) -> int {
    64 - b.empty_count + depth
}

/// The move is the one looked for.
fn same_move(m: &Option<Position>, pos: Position) -> (same: bool)
    ensures
        same == (*m == Some(pos)),
{
    match m {
        Some(p) => p.0 == pos.0,
        None => false,
    }
}

/// The position, its hash and its indices after a move.
proof fn lemma_child(b: Board, s: int)
    requires
        b.wf(),
        0 <= s < 64,
        b.legal(s),
    ensures
        b.vacant(s),
        b.after(s).wf(),
        b.flips(s) & b.opp() == b.flips(s),
        b.after(s).empty_count == b.empty_count - 1,
        hash_after(b.zobrist(), s as u8, b.flips(s), b.player) == b.after(s).zobrist(),
{
    lemma_wf_sides(b);
    lemma_after_wf(b, s);
    lemma_placed_hash(b, s, b.flips(s));
}

/// The indices after a move.
pub(crate) fn child_indices(
    ix: &PatternIndexer,
    board: &Board,
    indices: &PatternIndices,
    pos: Position,
    flipped: u64,
) -> (next: PatternIndices)
    requires
        ix.wf(),
        board.wf(),
        pos.wf(),
        board.legal(pos.0 as int),
        flipped == board.flips(pos.0 as int),
        ix.holds(*indices, board.black, board.white),
    ensures
        ix.holds(
            next,
            board.after(pos.0 as int).black,
            board.after(pos.0 as int).white,
        ),
{
    let mut next: PatternIndices = *indices;
    ix.apply(&mut next, pos, flipped, board.player());
    proof {
        lemma_child(*board, pos.0 as int);
        let c = board.after(pos.0 as int);
        assert forall|m: int| 0 <= m < ix.masks@.len() implies #[trigger] next.idx@[m]
            == crate::pattern::mask_value(ix.masks@[m]@, c.black, c.white) by {
            law_apply_tracks(*ix, *board, pos, flipped, m);
            assert(indices.idx@[m] == crate::pattern::mask_value(
                ix.masks@[m]@,
                board.black,
                board.white,
            ));
        }
    }
    next
}

impl Searcher {
    /// The place of a move among the others, the lowest first: the table's move
    /// first; at deep nodes by its evaluation; elsewhere moves that caused
    /// cuts, then few answers, good places and credit for cuts.
    pub open spec fn child_key<E: LeafEval>(
        self,
        e: E,
        b: Board,
        s: int,
        depth: int,
        ply: int,
        tt_move: Option<Position>,
    ) -> int {
        let child = b.after(s);
        let p = Some(Position(s as u8));
        if tt_move == p {
            i64::MIN as int
        } else if depth >= EVAL_ORDER_MIN_DEPTH {
            e.leaf(child)
        } else if self.killers@[ply].0 == p {
            i64::MIN + 1
        } else if self.killers@[ply].1 == p {
            i64::MIN + 2
        } else if depth >= 2 {
            count(child.moves()) * 4_294_967_296 + bias_of(s) - self.history@[b.player.code() * 64
                + s] * 256
        } else {
            0
        }
    }

    /// The key by which a child is ordered among the others.
    fn order_key<E: LeafEval>(
        &self,
        evaluator: &E,
        board: &Board,
        child: &Board,
        indices: &PatternIndices,
        pos: Position,
        flipped: u64,
        depth: u8,
        ply: u8,
        tt_move: &Option<Position>,
    ) -> (key: i64)
        requires
            self.wf(),
            board.wf(),
            pos.wf(),
            board.legal(pos.0 as int),
            flipped == board.flips(pos.0 as int),
            *child == board.after(pos.0 as int),
            evaluator.valid(),
            evaluator.tables().holds(*indices, board.black, board.white),
            ply < MAX_PLY,
        ensures
            key == self.child_key(
                *evaluator,
                *board,
                pos.0 as int,
                depth as int,
                ply as int,
                *tt_move,
            ),
    {
        proof {
            lemma_child(*board, pos.0 as int);
        }
        if same_move(tt_move, pos) {
            i64::MIN
        } else if depth >= EVAL_ORDER_MIN_DEPTH {
            let next: PatternIndices = child_indices(
                evaluator.indexer(),
                board,
                indices,
                pos,
                flipped,
            );
            evaluator.eval_order(child, &next)
        } else if same_move(&self.killers[ply as usize].0, pos) {
            i64::MIN + 1
        } else if same_move(&self.killers[ply as usize].1, pos) {
            i64::MIN + 2
        } else if depth >= 2 {
            let at: usize = board.player().index() as usize * 64 + pos.0 as usize;
            let answers: i64 = child.movable_count() as i64;
            let credit: i64 = self.history[at] as i64;
            answers * 4_294_967_296 + square_bias()[pos.0 as usize] - credit * 256
        } else {
            0
        }
    }

    /// The moves of a position with their keys.
    fn list_children<E: LeafEval>(
        &self,
        evaluator: &E,
        board: &Board,
        indices: &PatternIndices,
        hash: u64,
        depth: u8,
        ply: u8,
        moves: u64,
        tt_move: &Option<Position>,
    ) -> (v: Vec<Child>)
        requires
            self.wf(),
            board.wf(),
            moves == board.moves(),
            hash == board.zobrist(),
            evaluator.valid(),
            evaluator.tables().holds(*indices, board.black, board.white),
            ply < MAX_PLY,
        ensures
            children_fit(v@, *board, depth > 1),
            v@.len() == count(board.moves()),
            forall|k: int|
                0 <= k < v@.len() ==> (#[trigger] v@[k]).key == self.child_key(
                    *evaluator,
                    *board,
                    v@[k].pos.0 as int,
                    depth as int,
                    ply as int,
                    *tt_move,
                ),
    {
        let list: Vec<u8> = iter_bits(moves);
        proof {
            lemma_squares(moves, 64);
            lemma_moves(*board);
            crate::bits::lemma_squares_len(moves, 64);
        }
        let mut v: Vec<Child> = Vec::new();
        let mut i: usize = 0;
        while i < list.len()
            invariant
                self.wf(),
                board.wf(),
                moves == board.moves(),
                hash == board.zobrist(),
                evaluator.valid(),
                evaluator.tables().holds(*indices, board.black, board.white),
                ply < MAX_PLY,
                list@ == squares(moves),
                forall|k: int| 0 <= k < list@.len() ==> #[trigger] list@[k] < 64 && bit(moves, list@[k] as int),
                forall|s: int| 0 <= s < 64 ==> #[trigger] bit(moves, s) == board.legal(s),
                i <= list@.len(),
                v@.len() == i,
                forall|k: int|
                    0 <= k < i ==> (#[trigger] v@[k]).fits(*board, depth > 1) && v@[k].pos.0
                        == list@[k],
                forall|k: int|
                    0 <= k < i ==> (#[trigger] v@[k]).key == self.child_key(
                        *evaluator,
                        *board,
                        v@[k].pos.0 as int,
                        depth as int,
                        ply as int,
                        *tt_move,
                    ),
            decreases list@.len() - i,
        {
            let pos = Position(list[i]);
            assert(list@[i as int] < 64);
            proof {
                lemma_child(*board, pos.0 as int);
            }
            let mut child: Board = *board;
            let flipped: u64 = child.make_move_bits(pos);
            let child_hash: u64 = if depth == 1 {
                0
            } else {
                update_hash_on_move(hash, pos, flipped, board.player())
            };
            let key: i64 = self.order_key(
                evaluator,
                board,
                &child,
                indices,
                pos,
                flipped,
                depth,
                ply,
                tt_move,
            );
            v.push(Child { pos, hash: child_hash, flipped, key });
            i = i + 1;
        }
        assert forall|s: int| 0 <= s < 64 && #[trigger] board.legal(s) implies exists|k: int|
            0 <= k < v@.len() && (#[trigger] v@[k]).pos.0 == s by {
            assert(bit(moves, s));
            assert(squares(moves).contains(s as u8));
            let k = choose|k: int| 0 <= k < squares(moves).len() && squares(moves)[k] == s as u8;
            assert(v@[k].pos.0 == s);
        }
        v
    }

    /// A child that the table already shows to be a cut.
    fn known_cut(&self, board: &Board, children: &Vec<Child>, depth: u8, beta: i32) -> (r: Option<
        i32,
    >)
        requires
            self.wf(),
            board.wf(),
            depth > 1,
            children_fit(children@, *board, true),
        ensures
            match r {
                Some(v) => v >= beta && -INF <= v <= INF && exists|i: int, t: int|
                    0 <= i < children@.len() && 0 <= t < self.entries@.len() && (
                    #[trigger] self.entries@[t]).used && self.entries@[t].board() == board.after(
                        (#[trigger] children@[i]).pos.0 as int,
                    ) && self.entries@[t].depth >= depth - 1 && self.entries@[t].bound
                        != Bound::Lower && v == -self.entries@[t].value,
                None => true,
            },
    {
        let mut i: usize = 0;
        while i < children.len()
            invariant
                self.wf(),
                board.wf(),
                depth > 1,
                children_fit(children@, *board, true),
                i <= children@.len(),
            decreases children@.len() - i,
        {
            let c: Child = children[i];
            assert(children@[i as int].fits(*board, true));
            proof {
                lemma_child(*board, c.pos.0 as int);
            }
            let mut child: Board = *board;
            child.apply_flips(c.pos, c.flipped);
            if let Some(t) = self.tt_probe(&child, c.hash) {
                let lower: bool = match t.bound {
                    Bound::Lower => true,
                    _ => false,
                };
                if t.depth >= depth - 1 && !lower && -t.value >= beta {
                    assert(self.entries@[(c.hash & self.mask) as int] == t);
                    assert(exists|k: int| 0 <= k < self.entries@.len() && self.entries@[k] == t);
                    let ghost k = choose|k: int|
                        0 <= k < self.entries@.len() && self.entries@[k] == t;
                    assert(children@[i as int].pos == c.pos);
                    return Some(-t.value);
                }
            }
            i = i + 1;
        }
        None
    }

    /// Credit a move for a cut.
    fn credit(&mut self, board: &Board, pos: Position, depth: u8, ply: u8)
        requires
            old(self).wf(),
            ply < MAX_PLY,
            pos.wf(),
        ensures
            final(self).wf(),
            final(self).same_setting(*old(self)),
            final(self).entries == old(self).entries,
            final(self).nodes == old(self).nodes,
            final(self).killers@ == old(self).killers@.update(
                ply as int,
                if old(self).killers@[ply as int].0 == Some(pos) {
                    old(self).killers@[ply as int]
                } else {
                    (Some(pos), old(self).killers@[ply as int].0)
                },
            ),
            final(self).history@ == old(self).history@.update(
                board.player.code() * 64 + pos.0,
                old(self).history@[board.player.code() * 64 + pos.0].wrapping_add(
                    (depth * depth) as u32,
                ),
            ),
    {
        let at: usize = ply as usize;
        let (first, second) = self.killers[at];
        if !same_move(&first, pos) {
            self.killers.set(at, (Some(pos), first));
        }
        assert(self.killers@ =~= old(self).killers@.update(
            ply as int,
            if old(self).killers@[ply as int].0 == Some(pos) {
                old(self).killers@[ply as int]
            } else {
                (Some(pos), old(self).killers@[ply as int].0)
            },
        ));
        let slot: usize = board.player().index() as usize * 64 + pos.0 as usize;
        proof {
            assert(depth as int * depth as int <= 255 * 255) by (nonlinear_arith)
                requires
                    0 <= depth <= 255,
            ;
        }
        let gain: u32 = depth as u32 * depth as u32;
        let total: u32 = self.history[slot].wrapping_add(gain);
        self.history.set(slot, total);
    }
}

/// Bring the child with the lowest key among those from `i` on to place `i`.
fn pull_best(children: &mut Vec<Child>, i: usize)
    requires
        i < old(children)@.len(),
    ensures
        final(children)@.len() == old(children)@.len(),
        forall|k: int| 0 <= k < i ==> final(children)@[k] == old(children)@[k],
        exists|j: int|
            i <= j < old(children)@.len() && final(children)@ == #[trigger] old(
                children,
            )@.update(i as int, old(children)@[j]).update(j, old(children)@[i as int]),
        forall|k: int|
            i <= k < old(children)@.len() ==> final(children)@[i as int].key
                <= (#[trigger] final(children)@[k]).key,
{
    let ghost before = children@;
    let n: usize = children.len();
    let mut best_j: usize = i;
    let mut j: usize = i + 1;
    while j < n
        invariant
            n == children@.len(),
            children@ == before,
            i <= best_j < children@.len(),
            i < j <= children@.len(),
            forall|k: int| i <= k < j ==> children@[best_j as int].key <= (#[trigger] children@[k]).key,
        decreases children@.len() - j,
    {
        if children[j].key < children[best_j].key {
            best_j = j;
        }
        j = j + 1;
    }
    let first: Child = children[i];
    let best: Child = children[best_j];
    children.set(i, best);
    children.set(best_j, first);
    assert(children@ == before.update(i as int, before[best_j as int]).update(
        best_j as int,
        before[i as int],
    ));
    assert forall|k: int| i <= k < before.len() implies children@[i as int].key <= (
    #[trigger] children@[k]).key by {
        assert(before[best_j as int].key <= before[k].key);
        assert(before[best_j as int].key <= before[i as int].key);
    }
}

/// The rules vouch for a table after a store, where they did before and do for
/// the entry.
proof fn lemma_store_backed<E: LeafEval>(
    r: Rules<E>,
    before: Seq<TtEntry>,
    after: Seq<TtEntry>,
    i: int,
    t: TtEntry,
)
    requires
        after == before || after == before.update(i, t),
        0 <= i < before.len(),
        r.backs_all(before),
        r.backs(t),
    ensures
        r.backs_all(after),
{
    assert forall|k: int| 0 <= k < after.len() implies r.backs(#[trigger] after[k]) by {
        if after[k] != t {
            assert(r.backs(before[k]));
        }
    }
}

/// The position is worth what one move tells at least.
proof fn lemma_told_low<E: LeafEval>(r: Rules<E>, f: Fact, s: int)
    requires
        r.covers(f),
        f.low,
        f.depth > 0,
        f.board.can_move(),
        0 <= s < 64,
        f.board.legal(s),
        r.shown(f.after(s)),
    ensures
        r.shown(f),
        r.vouched(f),
{
    let all = r.all_shown();
    assert(f.board.legal(s) && all(f.after(s)));
    assert(r.moved(all, f));
    r.lemma_from_moves(f);
}

/// The position is worth what all moves tell at most.
proof fn lemma_told_high<E: LeafEval>(r: Rules<E>, f: Fact, children: Seq<Child>, deep: bool)
    requires
        r.covers(f),
        !f.low,
        f.depth > 0,
        f.board.can_move(),
        children_fit(children, f.board, deep),
        forall|k: int|
            0 <= k < children.len() ==> r.shown(f.after((#[trigger] children[k]).pos.0 as int)),
    ensures
        r.shown(f),
        r.vouched(f),
{
    let all = r.all_shown();
    assert forall|s: int| 0 <= s < 64 && #[trigger] f.board.legal(s) implies all(f.after(s)) by {
        let k = choose|k: int| 0 <= k < children.len() && (#[trigger] children[k]).pos.0 == s;
        assert(r.shown(f.after(children[k].pos.0 as int)));
    }
    assert(r.moved(all, f));
    r.lemma_from_moves(f);
}

/// A move that tells more tells less.
proof fn lemma_told_weaker<E: LeafEval>(r: Rules<E>, f: Fact, s: int, w: int)
    requires
        r.covers(f),
        f.depth > 0,
        0 <= s < 64,
        f.board.legal(s),
        r.shown((Fact { bound: w, ..f }).after(s)),
        f.met_by(w),
    ensures
        r.shown(f.after(s)),
{
    r.lemma_covers_next(f);
    assert((Fact { bound: w, ..f }).after(s) == (Fact { bound: -w, ..f.after(s) }));
    r.lemma_weaker(f.after(s), -w);
}

/// What a search of a move gave, as the mover sees it.
proof fn lemma_told<E: LeafEval>(r: Rules<E>, f: Fact, s: int, alpha: int, beta: int, raw: int)
    requires
        f.low,
        r.backed(f.cuts, f.board.after(s), f.depth - 1, -beta, -alpha, raw),
    ensures
        -raw > alpha ==> r.shown((Fact { bound: -raw, ..f }).after(s)),
        -raw < beta ==> r.shown((Fact { bound: -raw, low: false, ..f }).after(s)),
{
    assert((Fact { bound: -raw, ..f }).after(s) == (Fact {
        cuts: f.cuts,
        board: f.board.after(s),
        depth: f.depth - 1,
        low: false,
        bound: raw,
    }));
    assert((Fact { bound: -raw, low: false, ..f }).after(s) == (Fact {
        cuts: f.cuts,
        board: f.board.after(s),
        depth: f.depth - 1,
        low: true,
        bound: raw,
    }));
}

impl Searcher {
    /// Search a position to `depth` with a window. The result is backed by what
    /// the search may say, and so is the best move of a root.
    #[verifier::spinoff_prover]
    #[verifier::rlimit(100)]
    fn alpha_beta<E: LeafEval>(
        &mut self,
        board: &Board,
        evaluator: &E,
        indices: &PatternIndices,
        hash: u64,
        depth: u8,
        ply: u8,
        alpha0: i32,
        beta0: i32,
        passed: bool,
        Ghost(rules): Ghost<Rules<E>>,
        Ghost(at): Ghost<int>,
        Ghost(cap): Ghost<int>,
    ) -> (r: i32)
        requires
            old(self).wf(),
            old(self).probcut_level <= MPC_MAX_LEVEL,
            board.wf(),
            evaluator.valid(),
            evaluator.tables().holds(*indices, board.black, board.white),
            depth > 0 ==> hash == board.zobrist(),
            ply + board.empty_count <= MAX_PLY,
            -INF <= alpha0 < beta0 <= INF,
            passed ==> depth > 0 && !board.passed().can_move(),
            old(self).keeps(*evaluator, rules),
            rules.covers(
                (Fact {
                    cuts: old(self).cuts(),
                    board: *board,
                    depth: depth as int,
                    low: true,
                    bound: 0,
                }),
            ),
        ensures
            final(self).wf(),
            final(self).same_setting(*old(self)),
            -INF <= r <= INF,
            0 < final(self).nodes,
            old(self).nodes <= final(self).nodes,
            table_tame(old(self).entries@) && edges(alpha0 as int, beta0 as int) ==> table_tame(
                final(self).entries@,
            ) && -LEAF_LIMIT < r < LEAF_LIMIT,
            rules.backs_all(final(self).entries@),
            rules.backed(
                old(self).cuts(),
                *board,
                depth as int,
                alpha0 as int,
                beta0 as int,
                r as int,
            ),
            depth <= cap + 1 && near(old(self).entries@, at, cap) ==> near(
                final(self).entries@,
                at,
                larger(cap, depth as int),
            ),
            0 < depth == cap + 1 && ply == 0 && at == (hash & old(self).mask) && near(
                old(self).entries@,
                at,
                cap,
            ) && alpha0 == -INF && beta0 == INF && board.can_move() && -INF < r < INF ==> ({
                let t = final(self).entries@[at];
                &&& t.used
                &&& t.key == hash
                &&& t.black == board.black
                &&& t.white == board.white
                &&& t.best matches Some(p) && p.wf() && board.legal(p.0 as int) && rules.shown(
                    (Fact {
                        cuts: old(self).cuts(),
                        board: *board,
                        depth: depth as int,
                        low: true,
                        bound: r as int,
                    }).after(p.0 as int),
                )
            }),
        decreases
                depth,
                MPC_MAX_LEVEL - old(self).probcut_level,
                if passed {
                    1int
                } else {
                    2int
                },
    {
        self.count_node();
        let ghost e = *evaluator;
        let ghost b = *board;
        let ghost cuts = self.cuts();
        let ghost (n, low0, high0) = (depth as int, alpha0 as int, beta0 as int);
        let ghost low = Fact { cuts, board: b, depth: n, low: true, bound: 0 };
        let ghost high = Fact { cuts, board: b, depth: n, low: false, bound: 0 };
        let ghost top = if ply == 0 {
            cap
        } else {
            larger(cap, n)
        };
        let ghost tame = table_tame(self.entries@) && edges(alpha0 as int, beta0 as int);
        proof {
            lemma_final_score(b);
            lemma_passed_wf(b);
            rules.lemma_covers_next(low);
        }
        let moves: u64 = board.movable();
        if depth == 0 {
            proof {
                reveal_with_fuel(value_of, 2);
                lemma_value_bound(e, b, 0, false);
                rules.lemma_known(cuts, b, n, low0, high0, value_of(e, b, 0, false));
            }
            if moves != 0 {
                return evaluator.eval_indices(board, indices);
            }
            let mut other: Board = *board;
            other.pass();
            if other.movable() == 0 {
                return final_score_discs(board) * TERMINAL_SCALE;
            }
            self.count_node();
            return -evaluator.eval_indices(&other, indices);
        }
        let mut alpha: i32 = alpha0;
        let mut beta: i32 = beta0;
        let mut tt_move: Option<Position> = None;
        proof {
            let m = self.mask;
            lemma_masked(hash, m);
        }
        if let Some(t) = self.tt_probe(board, hash) {
            tt_move = t.best;
            if t.depth >= depth {
                proof {
                    let k = choose|k: int| 0 <= k < self.entries@.len() && self.entries@[k] == t;
                    assert(rules.backs(self.entries@[k]));
                    assert(t == self.entries@[(hash & self.mask) as int]);
                    if t.bound != Bound::Upper {
                        rules.lemma_from_table(
                            entry_fact(t, true),
                            (Fact { bound: t.value as int, ..low }),
                        );
                    }
                    if t.bound != Bound::Lower {
                        rules.lemma_from_table(
                            entry_fact(t, false),
                            (Fact { bound: t.value as int, ..high }),
                        );
                    }
                }
                match t.bound {
                    Bound::Exact => {
                        return t.value;
                    },
                    Bound::Lower => {
                        if t.value > alpha {
                            alpha = t.value;
                        }
                    },
                    Bound::Upper => {
                        if t.value < beta {
                            beta = t.value;
                        }
                    },
                }
                if alpha >= beta {
                    return t.value;
                }
            }
        }
        assert(alpha > alpha0 ==> rules.vouched((Fact { bound: alpha as int, ..low }))
            && rules.shown((Fact { bound: alpha as int, ..low })));
        assert(beta < beta0 ==> rules.vouched((Fact { bound: beta as int, ..high }))
            && rules.shown((Fact { bound: beta as int, ..high })));
        if moves == 0 {
            if passed {
                proof {
                    reveal_with_fuel(value_of, 2);
                    rules.lemma_known(cuts, b, n, low0, high0, value_of(e, b, 0, false));
                }
                return final_score_discs(board) * TERMINAL_SCALE;
            }
            let mut other: Board = *board;
            other.pass();
            proof {
                lemma_hash_after_pass(b.black, b.white, b.player);
            }
            let other_hash: u64 = update_hash_on_pass(hash);
            let r: i32 = self.alpha_beta(
                &other,
                evaluator,
                indices,
                other_hash,
                depth,
                ply,
                -beta,
                -alpha,
                true,
                Ghost(rules),
                Ghost(at),
                Ghost(cap),
            );
            proof {
                rules.lemma_passed(cuts, b, n, alpha as int, beta as int, r as int);
                lemma_wider(rules, low, low0, high0, alpha as int, beta as int, -r);
            }
            return -r;
        }
        proof {
            lemma_can_move_empty(b);
        }
        if self.mpc && depth >= self.mpc_min_depth && self.probcut_level < MPC_MAX_LEVEL && ply > 0
            && beta <= alpha + 1 {
            if let Some(v) = self.probcut(
                board,
                evaluator,
                indices,
                hash,
                depth,
                ply,
                alpha,
                beta,
                Ghost(rules),
                Ghost(at),
                Ghost(cap),
            ) {
                proof {
                    lemma_wider(rules, low, low0, high0, alpha as int, beta as int, v as int);
                }
                return v;
            }
        }
        let mut children: Vec<Child> = self.list_children(
            evaluator,
            board,
            indices,
            hash,
            depth,
            ply,
            moves,
            &tt_move,
        );
        let order: bool = depth >= 2 || tt_move.is_some();
        if depth >= 4 {
            if let Some(v) = self.known_cut(board, &children, depth, beta) {
                proof {
                    lemma_known_cut(
                        rules,
                        (Fact { bound: v as int, ..low }),
                        self.entries@,
                        children@,
                    );
                    lemma_wider(rules, low, low0, high0, alpha as int, beta as int, v as int);
                }
                return v;
            }
        }
        let ghost alpha1 = alpha;
        let mut best_val: i32 = -INF;
        let mut best_move: Option<Position> = None;
        let mut i: usize = 0;
        let mut cut: bool = false;
        while i < children.len() && !cut
            invariant
                self.wf(),
                self.same_setting(*old(self)),
                self.probcut_level <= MPC_MAX_LEVEL,
                board.wf(),
                *board == b,
                *evaluator == e,
                e.valid(),
                e.tables().holds(*indices, board.black, board.white),
                depth > 0,
                ply + board.empty_count <= MAX_PLY,
                b.can_move(),
                n == depth,
                cuts == old(self).cuts(),
                low == (Fact { cuts, board: b, depth: n, low: true, bound: 0 }),
                high == (Fact { cuts, board: b, depth: n, low: false, bound: 0 }),
                rules.covers(low),
                self.keeps(e, rules),
                depth <= cap + 1 && near(old(self).entries@, at, cap) ==> near(
                    self.entries@,
                    at,
                    top,
                ),
                top == if ply == 0 {
                    cap
                } else {
                    larger(cap, n)
                },
                children_fit(children@, b, depth > 1),
                i <= children@.len(),
                -INF <= alpha0 <= alpha1 <= alpha,
                -INF <= best_val <= INF,
                alpha1 < beta <= beta0 <= INF,
                alpha <= INF,
                alpha == if best_val > alpha1 {
                    best_val
                } else {
                    alpha1
                },
                cut <==> alpha >= beta,
                best_move matches Some(p) ==> p.wf() && b.legal(p.0 as int),
                old(self).nodes <= self.nodes,
                0 < self.nodes,
                tame ==> table_tame(self.entries@) && edges(alpha1 as int, beta as int),
                i == 0 ==> best_val == -INF && !cut,
                tame && i > 0 ==> -LEAF_LIMIT < best_val < LEAF_LIMIT && best_move is Some,
                !cut ==> forall|k: int|
                    0 <= k < i ==> rules.shown(
                        (Fact { bound: best_val as int, ..high }).after(
                            (#[trigger] children@[k]).pos.0 as int,
                        ),
                    ),
                best_val > alpha1 ==> (best_move matches Some(p) && rules.shown(
                    (Fact { bound: best_val as int, ..low }).after(p.0 as int),
                )),
                old(self).probcut_level == self.probcut_level,
            decreases children@.len() - i,
        {
            if order {
                let ghost before = children@;
                pull_best(&mut children, i);
                proof {
                    lemma_pulled(before, children@, i as int, b, depth > 1);
                    assert forall|k: int| 0 <= k < i implies rules.shown(
                        (Fact { bound: best_val as int, ..high }).after(
                            (#[trigger] children@[k]).pos.0 as int,
                        ),
                    ) by {
                        assert(children@[k] == before[k]);
                    }
                }
            }
            let c: Child = children[i];
            assert(children@[i as int].fits(b, depth > 1));
            proof {
                lemma_child(b, c.pos.0 as int);
            }
            let mut child: Board = *board;
            child.apply_flips(c.pos, c.flipped);
            let next: PatternIndices = child_indices(
                evaluator.indexer(),
                board,
                indices,
                c.pos,
                c.flipped,
            );
            let ghost (sq, was) = (c.pos.0 as int, best_val as int);
            proof {
                rules.lemma_covers_next(low);
                assert(rules.covers(low.after(sq)));
            }
            let v: i32;
            if i == 0 {
                v = -self.alpha_beta(
                    &child,
                    evaluator,
                    &next,
                    c.hash,
                    depth - 1,
                    ply + 1,
                    -beta,
                    -alpha,
                    false,
                    Ghost(rules),
                    Ghost(at),
                    Ghost(top),
                );
                proof {
                    lemma_told(rules, low, sq, alpha as int, beta as int, -v);
                }
            } else {
                let probe: i32 = -self.alpha_beta(
                    &child,
                    evaluator,
                    &next,
                    c.hash,
                    depth - 1,
                    ply + 1,
                    -(alpha + 1),
                    -alpha,
                    false,
                    Ghost(rules),
                    Ghost(at),
                    Ghost(top),
                );
                proof {
                    lemma_told(rules, low, sq, alpha as int, alpha + 1, -probe);
                }
                if probe > alpha && probe < beta {
                    v = -self.alpha_beta(
                        &child,
                        evaluator,
                        &next,
                        c.hash,
                        depth - 1,
                        ply + 1,
                        -beta,
                        -alpha,
                        false,
                        Ghost(rules),
                        Ghost(at),
                        Ghost(top),
                    );
                    proof {
                        lemma_told(rules, low, sq, alpha as int, beta as int, -v);
                    }
                } else {
                    v = probe;
                }
            }
            assert((v > alpha ==> rules.shown((Fact { bound: v as int, ..low }).after(sq))) && (v
                < beta ==> rules.shown((Fact { bound: v as int, ..high }).after(sq))));
            if v > best_val {
                best_val = v;
                best_move = Some(c.pos);
                if v > alpha {
                    alpha = v;
                }
            }
            if alpha >= beta {
                self.credit(board, c.pos, depth, ply);
                cut = true;
            }
            proof {
                if !cut {
                    let all = Fact { bound: best_val as int, ..high };
                    lemma_told_weaker(rules, all, sq, v as int);
                    assert forall|k: int| 0 <= k < i + 1 implies rules.shown(
                        all.after((#[trigger] children@[k]).pos.0 as int),
                    ) by {
                        if k < i {
                            assert(children@[k].fits(b, depth > 1));
                            lemma_told_weaker(rules, all, children@[k].pos.0 as int, was);
                        }
                    }
                }
            }
            i = i + 1;
        }
        let bound: Bound = if best_val <= alpha0 {
            Bound::Upper
        } else if best_val >= beta {
            Bound::Lower
        } else {
            Bound::Exact
        };
        let ghost t = TtEntry {
            key: hash,
            black: board.black,
            white: board.white,
            depth,
            value: best_val,
            bound,
            best: best_move,
            used: true,
        };
        let ghost least = Fact { bound: best_val as int, ..low };
        let ghost most = Fact { bound: best_val as int, ..high };
        proof {
            if best_val > alpha1 {
                lemma_told_low(rules, least, best_move->Some_0.0 as int);
            } else if best_val > alpha0 {
                rules.lemma_from_table((Fact { bound: alpha1 as int, ..low }), least);
            }
            if best_val < beta {
                assert(!cut);
                lemma_told_high(rules, most, children@, depth > 1);
            } else if best_val < beta0 {
                rules.lemma_from_table((Fact { bound: beta as int, ..high }), most);
            }
        }
        let ghost mid = self.entries@;
        self.tt_store(board, hash, depth, best_val, bound, best_move);
        proof {
            let slot = (hash & old(self).mask) as int;
            let m = old(self).mask;
            lemma_masked(hash, m);
            assert(t.board() == b);
            if tame {
                let s = choose|s: int| 0 <= s < 64 && #[trigger] b.legal(s);
                let k = choose|k: int|
                    0 <= k < children@.len() && (#[trigger] children@[k]).pos.0 == s;
                assert(i > 0);
            }
            if bound != Bound::Upper {
                rules.lemma_vouched(least, entry_fact(t, true));
            }
            if bound != Bound::Lower {
                rules.lemma_vouched(most, entry_fact(t, false));
            }
            lemma_store_backed(rules, mid, self.entries@, slot, t);
        }
        best_val
    }

    /// Try a reduced search around a shifted window: where it clears its
    /// bound, the window's edge stands for the full search.
    #[verifier::spinoff_prover]
    #[verifier::rlimit(60)]
    fn probcut<E: LeafEval>(
        &mut self,
        board: &Board,
        evaluator: &E,
        indices: &PatternIndices,
        hash: u64,
        depth: u8,
        ply: u8,
        alpha: i32,
        beta: i32,
        Ghost(rules): Ghost<Rules<E>>,
        Ghost(at): Ghost<int>,
        Ghost(cap): Ghost<int>,
    ) -> (r: Option<i32>)
        requires
            old(self).wf(),
            old(self).mpc,
            old(self).probcut_level < MPC_MAX_LEVEL,
            board.wf(),
            evaluator.valid(),
            evaluator.tables().holds(*indices, board.black, board.white),
            hash == board.zobrist(),
            ply + board.empty_count <= MAX_PLY,
            -INF <= alpha < beta <= INF,
            beta == alpha + 1,
            depth > 0,
            depth >= old(self).mpc_min_depth,
            old(self).keeps(*evaluator, rules),
            rules.covers(
                (Fact {
                    cuts: old(self).cuts(),
                    board: *board,
                    depth: depth as int,
                    low: true,
                    bound: 0,
                }),
            ),
        ensures
            final(self).wf(),
            final(self).same_setting(*old(self)),
            rules.backs_all(final(self).entries@),
            r matches Some(v) ==> (v == alpha || v == beta) && rules.shown(
                (Fact {
                    cuts: old(self).cuts(),
                    board: *board,
                    depth: depth as int,
                    low: v == beta,
                    bound: v as int,
                }),
            ),
            (old(self).cuts() == 1 || 2 * (depth / 4) + depth % 2 < old(self).mpc_min_depth)
                && table_within(
                old(self).entries@,
                *evaluator,
                reach(*board, 2 * (depth / 4) + depth % 2),
            ) ==> {
                let v = value_of(
                    *evaluator,
                    *board,
                    (2 * (depth / 4) + depth % 2) as nat,
                    false,
                );
                let (high, low) = probe_windows_of(
                    evaluator.leaf(*board),
                    alpha as int,
                    beta as int,
                    old(self).mpc_t as int,
                    board.empty_count as int,
                    depth as int,
                );
                &&& r == Some(beta) ==> high is Some && v >= high->Some_0
                &&& r == Some(alpha) ==> low is Some && v <= low->Some_0
                &&& high is Some && v >= high->Some_0 ==> r == Some(beta)
                &&& low is Some && v <= low->Some_0 ==> r is Some
            },
            old(self).nodes <= final(self).nodes,
            table_tame(old(self).entries@) && edges(alpha as int, beta as int) ==> table_tame(
                final(self).entries@,
            ) && (r matches Some(v) ==> -LEAF_LIMIT < v < LEAF_LIMIT),
            depth <= cap + 1 && near(old(self).entries@, at, cap) ==> near(
                final(self).entries@,
                at,
                larger(cap, depth as int),
            ),
        decreases depth, MPC_MAX_LEVEL - old(self).probcut_level, 0int,
    {
        let pc_depth: u8 = mpc_reduced_depth(depth);
        proof {
            lemma_wf_sides(*board);
        }
        let score: i32 = evaluator.eval_indices(board, indices);
        let (high, low) = probe_windows(
            score,
            alpha,
            beta,
            self.mpc_t,
            board.empty_count(),
            depth,
        );
        let ghost e = *evaluator;
        let ghost b = *board;
        let ghost cuts = self.cuts();
        let ghost pd = pc_depth as int;
        let ghost most = reach(b, pd);
        let ghost inner = Rules {
            cuts: cuts - 1,
            ..self.rules(e, b, most)
        };
        let ghost plain = (cuts == 1 || pd < self.mpc_min_depth) && table_within(
            self.entries@,
            e,
            most,
        );
        let ghost truth = value_of(e, b, pd as nat, false);
        proof {
            lemma_comes_next(b, b);
            inner.lemma_start();
            assert(inner.under(rules));
        }
        if let Some(pc_beta) = high {
            self.probcut_level = self.probcut_level + 1;
            let v: i32 = self.alpha_beta(
                board,
                evaluator,
                indices,
                hash,
                pc_depth,
                ply,
                pc_beta - 1,
                pc_beta,
                false,
                Ghost(inner),
                Ghost(at),
                Ghost(larger(cap, depth as int)),
            );
            self.probcut_level = self.probcut_level - 1;
            proof {
                inner.lemma_under(rules, self.entries@);
                if plain {
                    lemma_right_result(inner, b, cuts - 1, pc_beta - 1, pc_beta as int, v as int);
                }
            }
            if v >= pc_beta {
                proof {
                    let f = Fact {
                        cuts,
                        board: b,
                        depth: depth as int,
                        low: true,
                        bound: beta as int,
                    };
                    let g = Fact { cuts: cuts - 1, depth: pd, bound: pc_beta as int, ..f };
                    inner.lemma_weaker(g, v as int);
                    rules.lemma_cut(f, pc_beta as int);
                }
                return Some(beta);
            }
        }
        if let Some(pc_alpha) = low {
            self.probcut_level = self.probcut_level + 1;
            let v: i32 = self.alpha_beta(
                board,
                evaluator,
                indices,
                hash,
                pc_depth,
                ply,
                pc_alpha,
                pc_alpha + 1,
                false,
                Ghost(inner),
                Ghost(at),
                Ghost(larger(cap, depth as int)),
            );
            self.probcut_level = self.probcut_level - 1;
            proof {
                inner.lemma_under(rules, self.entries@);
                if plain {
                    lemma_right_result(
                        inner,
                        b,
                        cuts - 1,
                        pc_alpha as int,
                        pc_alpha + 1,
                        v as int,
                    );
                }
            }
            if v <= pc_alpha {
                proof {
                    let f = Fact {
                        cuts,
                        board: b,
                        depth: depth as int,
                        low: false,
                        bound: alpha as int,
                    };
                    let g = Fact { cuts: cuts - 1, depth: pd, bound: pc_alpha as int, ..f };
                    inner.lemma_weaker(g, v as int);
                    rules.lemma_cut(f, pc_alpha as int);
                }
                return Some(alpha);
            }
        }
        None
    }
}

/// A backed result of a search without reduced searches is right, where the table
/// is.
proof fn lemma_right_result<E: LeafEval>(
    r: Rules<E>,
    b: Board,
    cuts: int,
    alpha: int,
    beta: int,
    v: int,
)
    requires
        r.e.valid(),
        r.uncut(),
        r.root == b,
        b.wf(),
        reach(b, 0) <= r.h,
        0 <= cuts <= r.cuts,
        table_within(r.entries, r.e, r.h),
        r.backed(cuts, b, r.h - reach(b, 0), alpha, beta, v),
        alpha < beta,
    ensures
        fits_window(v, value_of(r.e, b, (r.h - reach(b, 0)) as nat, false), alpha, beta),
{
    lemma_comes_next(b, b);
    let d = r.h - reach(b, 0);
    if v > alpha {
        r.law_shown_is_right(Fact { cuts, board: b, depth: d, low: true, bound: v });
    }
    if v < beta {
        r.law_shown_is_right(Fact { cuts, board: b, depth: d, low: false, bound: v });
    }
}

/// A position in which a move can be made has an empty square.
proof fn lemma_can_move_empty(b: Board)
    requires
        b.wf(),
        b.can_move(),
    ensures
        b.empty_count > 0,
{
    let s = choose|s: int| 0 <= s < 64 && #[trigger] b.legal(s);
    lemma_child(b, s);
}

/// A pulled list is a list of the same children.
proof fn lemma_pulled(before: Seq<Child>, after: Seq<Child>, i: int, b: Board, deep: bool)
    requires
        children_fit(before, b, deep),
        0 <= i < before.len(),
        exists|j: int|
            i <= j < before.len() && after == #[trigger] before.update(i, before[j]).update(
                j,
                before[i],
            ),
    ensures
        children_fit(after, b, deep),
{
    let j = choose|j: int|
        i <= j < before.len() && after == #[trigger] before.update(i, before[j]).update(
            j,
            before[i],
        );
    assert forall|k: int| 0 <= k < after.len() implies (#[trigger] after[k]).fits(b, deep) by {
        assert(before[i].fits(b, deep));
        assert(before[j].fits(b, deep));
        assert(before[k].fits(b, deep));
    }
    assert forall|s: int| 0 <= s < 64 && #[trigger] b.legal(s) implies exists|k: int|
        0 <= k < after.len() && (#[trigger] after[k]).pos.0 == s by {
        let k = choose|k: int| 0 <= k < before.len() && (#[trigger] before[k]).pos.0 == s;
        let k2 = if k == i {
            j
        } else if k == j {
            i
        } else {
            k
        };
        assert(after[k2].pos.0 == s);
    }
}

/// A cut that the table shows is a cut.
proof fn lemma_known_cut<E: LeafEval>(
    r: Rules<E>,
    f: Fact,
    entries: Seq<TtEntry>,
    children: Seq<Child>,
)
    requires
        r.covers(f),
        f.low,
        f.depth > 1,
        f.board.can_move(),
        children_fit(children, f.board, true),
        r.backs_all(entries),
        exists|i: int, t: int|
            0 <= i < children.len() && 0 <= t < entries.len() && (#[trigger] entries[t]).used
                && entries[t].board() == f.board.after((#[trigger] children[i]).pos.0 as int)
                && entries[t].depth >= f.depth - 1 && entries[t].bound != Bound::Lower && f.bound
                == -entries[t].value,
    ensures
        r.shown(f),
{
    let (i, t) = choose|i: int, t: int|
        0 <= i < children.len() && 0 <= t < entries.len() && (#[trigger] entries[t]).used
            && entries[t].board() == f.board.after((#[trigger] children[i]).pos.0 as int)
            && entries[t].depth >= f.depth - 1 && entries[t].bound != Bound::Lower && f.bound
            == -entries[t].value;
    let s = children[i].pos.0 as int;
    assert(children[i].fits(f.board, true));
    r.lemma_covers_next(f);
    assert(r.covers(f.after(s)));
    assert(r.backs(entries[t]));
    r.lemma_from_table(entry_fact(entries[t], false), f.after(s));
    lemma_told_low(r, f, s);
}

/// A result that is backed in a part of the window is backed in all of it, where
/// the ends of that part are bounds that may be said.
proof fn lemma_wider<E: LeafEval>(
    r: Rules<E>,
    low: Fact,
    alpha0: int,
    beta0: int,
    alpha: int,
    beta: int,
    v: int,
)
    requires
        r.covers(low),
        low.low,
        alpha0 <= alpha < beta <= beta0,
        alpha > alpha0 ==> r.shown((Fact { bound: alpha, ..low })),
        beta < beta0 ==> r.shown((Fact { bound: beta, low: false, ..low })),
        r.backed(low.cuts, low.board, low.depth, alpha, beta, v),
    ensures
        r.backed(low.cuts, low.board, low.depth, alpha0, beta0, v),
{
    let high = Fact { low: false, ..low };
    if alpha0 < v <= alpha {
        r.lemma_weaker((Fact { bound: v, ..low }), alpha);
    }
    if beta <= v < beta0 {
        r.lemma_weaker((Fact { bound: v, ..high }), beta);
    }
    assert((Fact { bound: v, ..low }) == (Fact {
        cuts: low.cuts,
        board: low.board,
        depth: low.depth,
        low: true,
        bound: v,
    }));
}

/// What a search of the position to the depth has to find: the value, and a
/// legal move that reaches it.
pub open spec fn is_best<E: LeafEval>(e: E, b: Board, depth: nat, p: Position) -> bool {
    &&& p.wf()
    &&& b.legal(p.0 as int)
    &&& move_value(e, b, depth, p.0 as int) == value_of(e, b, depth, false)
}

impl Searcher {
    /// Search a position to `depth`, one iteration after the other: what a
    /// shallower one finds orders the moves of the next. There is no best move
    /// where the side to move has to pass.
    ///
    /// The value is backed by what the search may say, and so is the move, unless
    /// something that was searched as deep is kept where the position belongs in
    /// the table. Without reduced searches the value is the exact one for the
    /// depth, however the moves are ordered, as long as the table holds nothing
    /// that was searched beyond this search's horizon; and the move reaches it.
    pub fn search<E: LeafEval>(&mut self, board: &Board, evaluator: &E, depth: u8) -> (r:
        SearchResult)
        requires
            evaluator.valid(),
            old(self).wf(),
            board.wf(),
        ensures
            final(self).wf(),
            final(self).same_setting(old(self).rested()),
            !board.can_move() ==> r.best_move is None && r.value == 0 && r.nodes == 0 && r.depth
                == 0 && final(self).entries == old(self).entries,
            board.can_move() ==> r.depth == depth,
            r.best_move matches Some(p) ==> p.wf() && board.legal(p.0 as int),
            board.can_move() && depth == 0 ==> r.best_move is None && r.value == 0,
            board.can_move() && depth > 0 ==> came_to(
                old(self).rested(),
                *final(self),
                *evaluator,
                *board,
                r,
            ),
    {
        self.nodes = 0;
        self.probcut_level = 0;
        if board.movable() == 0 {
            return SearchResult { best_move: None, value: 0, nodes: 0, depth: 0 };
        }
        self.killers = no_killers();
        self.history = no_history();
        self.deepen(board, evaluator, depth)
    }

    /// The iterations of a search.
    fn deepen<E: LeafEval>(&mut self, board: &Board, evaluator: &E, depth: u8) -> (r: SearchResult)
        requires
            evaluator.valid(),
            old(self).wf(),
            old(self).probcut_level == 0,
            board.wf(),
            board.can_move(),
        ensures
            final(self).wf(),
            final(self).same_setting(*old(self)),
            r.depth == depth,
            r.best_move matches Some(p) ==> p.wf() && board.legal(p.0 as int),
            depth == 0 ==> r.best_move is None && r.value == 0,
            depth > 0 ==> came_to(*old(self), *final(self), *evaluator, *board, r),
    {
        let ghost e = *evaluator;
        let ghost b = *board;
        let ghost start = *self;
        let ghost cuts = self.cuts();
        let ghost tame = table_tame(self.entries@);
        let indices: PatternIndices = evaluator.indexer().init(board.black, board.white);
        let hash: u64 = compute_hash(board.black, board.white, board.player());
        let ghost at = (hash & self.mask) as int;
        let ghost deep = if self.entries@[at].used {
            self.entries@[at].depth as int
        } else {
            0
        };
        let mut best_move: Option<Position> = None;
        let mut value: i32 = 0;
        let mut d: u8 = 0;
        proof {
            let m = self.mask;
            lemma_masked(hash, m);
            lemma_can_move_empty(b);
            lemma_comes_next(b, b);
            start.rules(e, b, reach(b, 0)).lemma_start();
        }
        while d < depth
            invariant
                self.wf(),
                self.same_setting(*old(self)),
                self.probcut_level == 0,
                board.wf(),
                board.can_move(),
                b.empty_count > 0,
                comes_from(b, b),
                *board == b,
                *evaluator == e,
                start == *old(self),
                cuts == start.cuts(),
                e.valid(),
                e.tables().holds(indices, b.black, b.white),
                hash == b.zobrist(),
                at == (hash & start.mask),
                0 <= at < start.entries@.len(),
                tame == table_tame(start.entries@),
                0 <= deep,
                start.entries@[at].used ==> deep == start.entries@[at].depth,
                !start.entries@[at].used ==> deep == 0,
                d <= depth,
                start.rules(e, b, reach(b, d as int)).backs_all(self.entries@),
                near(self.entries@, at, larger(deep, d as int)),
                best_move matches Some(p) ==> p.wf() && b.legal(p.0 as int),
                d == 0 ==> best_move is None && value == 0,
                d > 0 ==> self.nodes > 0,
                d > 0 ==> (self.recalled(b) matches Some(p) ==> best_move == Some(p)),
                tame ==> table_tame(self.entries@),
                tame && d > 0 ==> -LEAF_LIMIT < value < LEAF_LIMIT,
                -INF <= value <= INF,
                d > 0 ==> start.rules(e, b, reach(b, d as int)).backed(
                    cuts,
                    b,
                    d as int,
                    -INF as int,
                    INF as int,
                    value as int,
                ),
                deep < d && -INF < value < INF ==> (best_move matches Some(p) && start.rules(
                    e,
                    b,
                    reach(b, d as int),
                ).shown(
                    (Fact {
                        cuts,
                        board: b,
                        depth: d as int,
                        low: true,
                        bound: value as int,
                    }).after(p.0 as int),
                )),
            decreases depth - d,
        {
            let ghost before = start.rules(e, b, reach(b, d as int));
            d = d + 1;
            let ghost rules = start.rules(e, b, reach(b, d as int));
            proof {
                rules.lemma_start();
                before.lemma_under(rules, self.entries@);
            }
            let v: i32 = self.alpha_beta(
                board,
                evaluator,
                &indices,
                hash,
                d,
                0,
                -INF,
                INF,
                false,
                Ghost(rules),
                Ghost(at),
                Ghost(larger(deep, d - 1)),
            );
            let entry: Option<TtEntry> = self.tt_probe(board, hash);
            let found: Option<Position> = match entry {
                Some(t) => t.best,
                None => None,
            };
            if found.is_some() {
                best_move = found;
            }
            value = v;
        }
        proof {
            if depth > 0 {
                let n = depth as int;
                let h = reach(b, n);
                let rules = start.rules(e, b, h);
                let v = value as int;
                if start.unreduced(n) && table_within(start.entries@, e, h) {
                    lemma_right_result(rules, b, cuts, -INF as int, INF as int, v);
                    lemma_value_bound(e, b, n as nat, false);
                    rules.law_table_stays_within(self.entries@);
                    if start.fresh_for(b, n) {
                        let p = best_move->Some_0.0 as int;
                        let f = Fact { cuts, board: b, depth: n, low: true, bound: v };
                        lemma_child(b, p);
                        rules.lemma_covers_next(f);
                        rules.law_shown_is_right(f.after(p));
                        lemma_best_below(e, b, n as nat, 64);
                    }
                }
            }
        }
        SearchResult { best_move, value, nodes: self.nodes, depth: d }
    }
}

/// What a search of a position with a move came to, from the state `s` to `t`.
pub open spec fn came_to<E: LeafEval>(
    s: Searcher,
    t: Searcher,
    e: E,
    b: Board,
    r: SearchResult,
) -> bool {
    let n = r.depth as int;
    let h = reach(b, n);
    let v = r.value as int;
    &&& r.nodes > 0
    &&& r.nodes == t.nodes
    &&& t.recalled(b) matches Some(p) ==> r.best_move == Some(p)
    &&& -INF <= r.value <= INF
    &&& s.rules(e, b, h).backed(s.cuts(), b, n, -INF as int, INF as int, v)
    &&& s.fresh_for(b, n) && -INF < v < INF ==> (r.best_move matches Some(p) && s.rules(e, b, h).shown(
        (Fact { cuts: s.cuts(), board: b, depth: n, low: true, bound: v }).after(p.0 as int),
    ))
    &&& table_tame(s.entries@) ==> -LEAF_LIMIT < r.value < LEAF_LIMIT
    &&& s.unreduced(n) && table_within(s.entries@, e, h) ==> {
        &&& v == value_of(e, b, n as nat, false)
        &&& table_within(t.entries@, e, h)
        &&& s.fresh_for(b, n) ==> (r.best_move matches Some(p) && is_best(e, b, n as nat, p))
    }
}

/// A search without reduced searches, on a table that holds nothing beyond its
/// horizon, finds what the best move is worth: no move is worth more, and the one
/// that it names is worth as much, where nothing searched as deep was known of the
/// position.
pub proof fn law_search_finds_the_best<E: LeafEval>(
    s: Searcher,
    t: Searcher,
    e: E,
    b: Board,
    r: SearchResult,
)
    requires
        e.valid(),
        b.wf(),
        b.can_move(),
        r.depth > 0,
        came_to(s, t, e, b, r),
        s.unreduced(r.depth as int),
        table_within(s.entries@, e, reach(b, r.depth as int)),
    ensures
        forall|m: int|
            0 <= m < 64 && #[trigger] b.legal(m) ==> -value_of(
                e,
                b.after(m),
                (r.depth - 1) as nat,
                false,
            ) <= r.value,
        exists|m: int|
            0 <= m < 64 && #[trigger] b.legal(m) && -value_of(
                e,
                b.after(m),
                (r.depth - 1) as nat,
                false,
            ) == r.value,
        s.fresh_for(b, r.depth as int) ==> (r.best_move matches Some(p) && b.legal(p.0 as int)
            && -value_of(e, b.after(p.0 as int), (r.depth - 1) as nat, false) == r.value),
{
    law_value_is_the_best_move(e, b, r.depth as nat);
}

/// The value of a search is backed from both sides, reduced searches or not: the search
/// may say that the position is worth as much at least, and that it is worth no more.
pub proof fn law_search_value_is_backed<E: LeafEval>(
    s: Searcher,
    t: Searcher,
    e: E,
    b: Board,
    r: SearchResult,
)
    requires
        came_to(s, t, e, b, r),
    ensures
        ({
            let rules = s.rules(e, b, reach(b, r.depth as int));
            let (n, v) = (r.depth as int, r.value as int);
            &&& v > -INF ==> rules.shown(Fact { cuts: s.cuts(), board: b, depth: n, low: true, bound: v })
            &&& v < INF ==> rules.shown(Fact { cuts: s.cuts(), board: b, depth: n, low: false, bound: v })
            &&& s.fresh_for(b, n) && -INF < v < INF ==> (r.best_move matches Some(p) && rules.shown(
                Fact {
                    cuts: s.cuts(),
                    board: b.after(p.0 as int),
                    depth: n - 1,
                    low: false,
                    bound: -v,
                },
            ))
        }),
{
    if let Some(p) = r.best_move {
        let f = Fact {
            cuts: s.cuts(),
            board: b,
            depth: r.depth as int,
            low: true,
            bound: r.value as int,
        };
        assert(f.after(p.0 as int) == (Fact {
            cuts: s.cuts(),
            board: b.after(p.0 as int),
            depth: r.depth - 1,
            low: false,
            bound: -(r.value as int),
        }));
    }
}

/// The value of the position after a move to square `s`, as the answering side
/// sees it.
pub open spec fn answer_leaf<E: LeafEval>(e: E, b: Board, s: int) -> int {
    e.leaf(b.after(s))
}

impl Searcher {
    /// Search a position with a window, as a worker of a split node does. The
    /// result is exact inside the window and a bound outside it, as long as the
    /// table holds nothing that was searched beyond this search's horizon.
    pub fn search_window<E: LeafEval>(
        &mut self,
        board: &Board,
        evaluator: &E,
        depth: u8,
        alpha: i32,
        beta: i32,
    ) -> (r: i32)
        requires
            evaluator.valid(),
            old(self).wf(),
            old(self).probcut_level <= MPC_MAX_LEVEL,
            board.wf(),
            -INF <= alpha < beta <= INF,
        ensures
            final(self).wf(),
            final(self).same_setting(*old(self)),
            -INF <= r <= INF,
            old(self).rules(*evaluator, *board, reach(*board, depth as int)).backed(
                old(self).cuts(),
                *board,
                depth as int,
                alpha as int,
                beta as int,
                r as int,
            ),
            old(self).unreduced(depth as int) && table_within(
                old(self).entries@,
                *evaluator,
                reach(*board, depth as int),
            ) ==> fits_window(
                r as int,
                value_of(*evaluator, *board, depth as nat, false),
                alpha as int,
                beta as int,
            ) && table_within(final(self).entries@, *evaluator, reach(*board, depth as int)),
    {
        let indices: PatternIndices = evaluator.indexer().init(board.black, board.white);
        let hash: u64 = compute_hash(board.black, board.white, board.player());
        let ghost e = *evaluator;
        let ghost h = reach(*board, depth as int);
        let ghost rules = self.rules(e, *board, h);
        let ghost cuts = self.cuts();
        proof {
            rules.lemma_start();
            lemma_comes_next(*board, *board);
        }
        let r: i32 = self.alpha_beta(
            board,
            evaluator,
            &indices,
            hash,
            depth,
            0,
            alpha,
            beta,
            false,
            Ghost(rules),
            Ghost(0),
            Ghost(0),
        );
        proof {
            if old(self).unreduced(depth as int) && table_within(old(self).entries@, e, h) {
                lemma_right_result(rules, *board, cuts, alpha as int, beta as int, r as int);
                rules.law_table_stays_within(self.entries@);
            }
        }
        r
    }

    /// The move that the table holds of a position.
    pub open spec fn recalled(self, b: Board) -> Option<Position> {
        let t = self.entries@[(b.zobrist() & self.mask) as int];
        if t.used && t.key == b.zobrist() && t.black == b.black && t.white == b.white {
            t.best
        } else {
            None
        }
    }

    /// The moves of a root, the table's first and the others by the evaluation
    /// of the position that they leave to the other side, the lowest first.
    pub fn root_order<E: LeafEval>(&self, board: &Board, evaluator: &E) -> (v: Vec<Position>)
        requires
            evaluator.valid(),
            self.wf(),
            board.wf(),
        ensures
            forall|i: int|
                0 <= i < v@.len() ==> (#[trigger] v@[i]).wf() && board.legal(v@[i].0 as int),
            forall|s: int|
                0 <= s < 64 && #[trigger] board.legal(s) ==> exists|i: int|
                    0 <= i < v@.len() && (#[trigger] v@[i]).0 == s,
            forall|i: int, j: int|
                0 <= i < j < v@.len() ==> (#[trigger] v@[i]).0 != (#[trigger] v@[j]).0,
            forall|i: int, j: int|
                0 < i < j < v@.len() ==> answer_leaf(
                    *evaluator,
                    *board,
                    (#[trigger] v@[i]).0 as int,
                ) <= answer_leaf(*evaluator, *board, (#[trigger] v@[j]).0 as int),
            match self.recalled(*board) {
                Some(p) => v@.len() > 0 && v@[0] == p,
                None => forall|j: int|
                    0 <= j < v@.len() ==> answer_leaf(*evaluator, *board, v@[0].0 as int)
                        <= answer_leaf(*evaluator, *board, (#[trigger] v@[j]).0 as int),
            },
    {
        let hash: u64 = compute_hash(board.black, board.white, board.player());
        let tt_move: Option<Position> = match self.tt_probe(board, hash) {
            Some(t) => t.best,
            None => None,
        };
        let moves: u64 = board.movable();
        let list: Vec<u8> = iter_bits(moves);
        proof {
            lemma_squares(moves, 64);
            lemma_moves(*board);
        }
        let mut keys: Vec<i64> = Vec::new();
        let mut i: usize = 0;
        while i < list.len()
            invariant
                evaluator.valid(),
                board.wf(),
                forall|k: int|
                    0 <= k < list@.len() ==> #[trigger] list@[k] < 64 && board.legal(
                        list@[k] as int,
                    ),
                i <= list@.len(),
                keys@.len() == i,
                forall|k: int|
                    0 <= k < i ==> #[trigger] keys@[k] == if tt_move == Some(Position(list@[k])) {
                        i64::MIN as int
                    } else {
                        answer_leaf(*evaluator, *board, list@[k] as int) * 256
                    },
                forall|k: int|
                    0 <= k < i ==> -LEAF_LIMIT < answer_leaf(
                        *evaluator,
                        *board,
                        (#[trigger] list@[k]) as int,
                    ) < LEAF_LIMIT,
            decreases list@.len() - i,
        {
            let pos = Position(list[i]);
            assert(list@[i as int] < 64);
            proof {
                lemma_child(*board, pos.0 as int);
                evaluator.leaf_bounded(board.after(pos.0 as int));
            }
            let key: i64 = if same_move(&tt_move, pos) {
                i64::MIN
            } else {
                let mut child: Board = *board;
                let _ = child.make_move_bits(pos);
                let ix: PatternIndices = evaluator.indexer().init(child.black, child.white);
                evaluator.eval_indices(&child, &ix) as i64 * 256
            };
            keys.push(key);
            i = i + 1;
        }
        let order: Vec<usize> = stable_order(&keys);
        let mut v: Vec<Position> = Vec::new();
        let mut t: usize = 0;
        while t < order.len()
            invariant
                is_stable_order(keys@, order@, keys@.len() as int),
                keys@.len() == list@.len(),
                t <= order@.len(),
                v@.len() == t,
                forall|k: int|
                    0 <= k < t ==> (#[trigger] v@[k]).0 == list@[order@[k] as int],
            decreases order@.len() - t,
        {
            assert(order@[t as int] < keys@.len());
            v.push(Position(list[order[t]]));
            t = t + 1;
        }
        proof {
            let n = v@.len() as int;
            assert forall|i: int| 0 <= i < n implies (#[trigger] v@[i]).wf() && board.legal(
                v@[i].0 as int,
            ) by {
                assert(order@[i] < n);
                assert(list@[order@[i] as int] < 64);
            }
            assert forall|s: int| 0 <= s < 64 && #[trigger] board.legal(s) implies exists|i: int|
                0 <= i < n && (#[trigger] v@[i]).0 == s by {
                assert(bit(moves, s));
                let k = choose|k: int| 0 <= k < list@.len() && #[trigger] list@[k] == s;
                assert(listed(order@, k));
                let i = choose|i: int| 0 <= i < order@.len() && #[trigger] order@[i] == k;
                assert(v@[i].0 == s);
            }
            assert forall|i: int, j: int| 0 <= i < j < n implies (#[trigger] v@[i]).0 != (
            #[trigger] v@[j]).0 by {
                assert(comes_before(keys@, order@[i] as int, order@[j] as int));
                assert(order@[i] < n && order@[j] < n);
                let a = order@[i] as int;
                let c = order@[j] as int;
                if a < c {
                    assert(list@[a] < list@[c]);
                } else {
                    assert(list@[c] < list@[a]);
                }
            }
            assert forall|i: int, j: int| 0 < i < j < n implies answer_leaf(
                *evaluator,
                *board,
                (#[trigger] v@[i]).0 as int,
            ) <= answer_leaf(*evaluator, *board, (#[trigger] v@[j]).0 as int) by {
                let z = order@[0] as int;
                let a = order@[i] as int;
                let c = order@[j] as int;
                assert(comes_before(keys@, z, a));
                assert(comes_before(keys@, z, c));
                assert(comes_before(keys@, a, c));
                assert(order@[0] < n && order@[i] < n && order@[j] < n);
                assert(v@[0].0 == list@[z]);
                assert(v@[0].0 != v@[i].0 && v@[0].0 != v@[j].0);
                assert(-LEAF_LIMIT < answer_leaf(*evaluator, *board, list@[a] as int) < LEAF_LIMIT);
                assert(-LEAF_LIMIT < answer_leaf(*evaluator, *board, list@[c] as int) < LEAF_LIMIT);
                assert(-LEAF_LIMIT < answer_leaf(*evaluator, *board, list@[z] as int) < LEAF_LIMIT);
            }
        }
        proof {
            let n = v@.len() as int;
            match tt_move {
                Some(p) => {
                    assert(bit(moves, p.0 as int));
                    let k = choose|k: int| 0 <= k < list@.len() && #[trigger] list@[k] == p.0;
                    assert(keys@[k] == i64::MIN);
                    assert(listed(order@, k));
                    let i = choose|i: int| 0 <= i < order@.len() && #[trigger] order@[i] == k;
                    assert(v@[i].0 == p.0);
                    if i > 0 {
                        let z = order@[0] as int;
                        assert(order@[0] < n);
                        assert(comes_before(keys@, z, k));
                        assert(v@[0].0 == list@[z]);
                        assert(v@[0].0 != v@[i].0);
                        assert(-LEAF_LIMIT < answer_leaf(*evaluator, *board, list@[z] as int)
                            < LEAF_LIMIT);
                        assert(keys@[z] > i64::MIN);
                    }
                    assert(v@[0] == p);
                },
                None => {
                    assert forall|j: int| 0 <= j < n implies answer_leaf(
                        *evaluator,
                        *board,
                        v@[0].0 as int,
                    ) <= answer_leaf(*evaluator, *board, (#[trigger] v@[j]).0 as int) by {
                        if j > 0 {
                            let (z, c) = (order@[0] as int, order@[j] as int);
                            assert(comes_before(keys@, z, c));
                            assert(order@[0] < n && order@[j] < n);
                            assert(v@[0].0 == list@[z]);
                            assert(keys@[z] == answer_leaf(*evaluator, *board, list@[z] as int) * 256);
                            assert(keys@[c] == answer_leaf(*evaluator, *board, list@[c] as int) * 256);
                        }
                    }
                },
            }
        }
        v
    }
}

/// What a search is worth: where depth is left, as much as the best move, after
/// which the other side's value counts the other way round; where it is used up,
/// what the evaluation says; after a pass the other side's value the other way
/// round; and the result of a finished game.
pub proof fn law_value_is_the_best_move<E: LeafEval>(e: E, b: Board, depth: nat)
    requires
        e.valid(),
        b.wf(),
    ensures
        b.can_move() && depth == 0 ==> value_of(e, b, depth, false) == e.leaf(b),
        depth > 0 ==> forall|s: int|
            0 <= s < 64 && #[trigger] b.legal(s) ==> -value_of(
                e,
                b.after(s),
                (depth - 1) as nat,
                false,
            ) <= value_of(e, b, depth, false),
        b.can_move() && depth > 0 ==> exists|s: int|
            0 <= s < 64 && #[trigger] b.legal(s) && -value_of(
                e,
                b.after(s),
                (depth - 1) as nat,
                false,
            ) == value_of(e, b, depth, false),
        !b.can_move() && b.passed().can_move() ==> value_of(e, b, depth, false) == -value_of(
            e,
            b.passed(),
            depth,
            false,
        ),
        b.finished() ==> value_of(e, b, depth, false) == final_score_of(b) * TERMINAL_SCALE,
{
    lemma_final_score(b);
    if b.finished() {
        reveal_with_fuel(value_of, 3);
        assert(-(-final_score_of(b) * TERMINAL_SCALE) == final_score_of(b) * TERMINAL_SCALE);
    } else if !b.can_move() {
        reveal_with_fuel(value_of, 3);
    } else if depth > 0 {
        lemma_best_below(e, b, depth, 64);
        lemma_value_bound(e, b, depth, false);
        let s = choose|s: int|
            0 <= s < 64 && #[trigger] b.legal(s) && move_value(e, b, depth, s) == best_below(
                e,
                b,
                depth,
                64,
            );
        assert(b.legal(s));
        assert forall|s: int| 0 <= s < 64 && #[trigger] b.legal(s) implies -value_of(
            e,
            b.after(s),
            (depth - 1) as nat,
            false,
        ) <= value_of(e, b, depth, false) by {
            assert(move_value(e, b, depth, s) <= best_below(e, b, depth, 64));
        }
    }
}

/// The table's move comes before every other. At deep nodes the rest go by what they
/// leave to the opponent, the least first. Elsewhere the moves that caused cuts come
/// next, and of the others, where places and credit are the same, those with the
/// fewest answers; corners come before squares next to them.
pub proof fn law_children_in_order<E: LeafEval>(
    s: Searcher,
    e: E,
    b: Board,
    x: int,
    y: int,
    depth: int,
    ply: int,
    tt_move: Option<Position>,
)
    requires
        e.valid(),
        b.wf(),
        0 <= x < 64,
        0 <= y < 64,
        x != y,
        b.legal(x),
        b.legal(y),
    ensures
        ({
            let (p, q) = (Some(Position(x as u8)), Some(Position(y as u8)));
            let (first, then) = (
                s.child_key(e, b, x, depth, ply, tt_move),
                s.child_key(e, b, y, depth, ply, tt_move),
            );
            let quiet = tt_move != p && tt_move != q;
            let killer = s.killers@[ply];
            &&& tt_move == p ==> first < then
            &&& quiet && depth >= EVAL_ORDER_MIN_DEPTH && e.leaf(b.after(x)) < e.leaf(b.after(y))
                ==> first < then
            &&& quiet && depth < EVAL_ORDER_MIN_DEPTH && killer.0 == p ==> first < then
            &&& quiet && depth < EVAL_ORDER_MIN_DEPTH && killer.1 == p && killer.0 != q ==> first < then
            &&& quiet && 2 <= depth < EVAL_ORDER_MIN_DEPTH && killer.0 != p && killer.0 != q && killer.1
                != p && killer.1 != q ==> {
                let (credit_x, credit_y) = (
                    s.history@[b.player.code() * 64 + x],
                    s.history@[b.player.code() * 64 + y],
                );
                &&& count(b.after(x).moves()) < count(b.after(y).moves()) && bias_of(x) == bias_of(y)
                    && credit_x == credit_y ==> first < then
                &&& count(b.after(x).moves()) == count(b.after(y).moves()) && bias_of(x) == bias_of(y)
                    && credit_x > credit_y ==> first < then
                &&& count(b.after(x).moves()) == count(b.after(y).moves()) && credit_x == credit_y && (x
                    == 0 || x == 7 || x == 56 || x == 63) && (y == 9 || y == 14 || y == 49 || y == 54)
                    ==> first < then
            }
        }),
{
    lemma_after_wf(b, x);
    lemma_after_wf(b, y);
    e.leaf_bounded(b.after(x));
    e.leaf_bounded(b.after(y));
    lemma_count_bound(b.after(x).moves(), 64);
    lemma_count_bound(b.after(y).moves(), 64);
    assert(Position(x as u8).0 == x && Position(y as u8).0 == y);
}

/// Tables that are brought together keep of each place what was searched deepest.
pub proof fn law_join_keeps_the_deeper(a: Seq<TtEntry>, b: Seq<TtEntry>, i: int)
    requires
        0 <= i < a.len(),
        a.len() == b.len(),
    ensures
        joined_entries(a, b).len() == a.len(),
        joined_entries(a, b)[i] == a[i] || joined_entries(a, b)[i] == b[i],
        a[i].used || b[i].used ==> joined_entries(a, b)[i].used,
        a[i].used ==> joined_entries(a, b)[i].depth >= a[i].depth,
        b[i].used ==> joined_entries(a, b)[i].depth >= b[i].depth,
{
}

} // verus!
