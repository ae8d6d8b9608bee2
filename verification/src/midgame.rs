//! The midgame search that plays: iterative deepening with a table of bounds,
//! reduced searches that predict full ones, and one-unit windows.

use vstd::prelude::*;

use std::sync::Arc;
use std::sync::atomic::AtomicBool;

use crate::bits::{bit, count, count_ones, group_bits, iter_bits, lemma_bit_zero, lemma_masked, lemma_squares, squares, test_bit};
use crate::board::{Board, lemma_after_wf, lemma_moves, lemma_passed_wf, lemma_wf_sides};
use crate::facts::{Fact, beyond, comes_from, lemma_comes_next};
use crate::pattern_index::PatternIndices;
use crate::position::Position;
use crate::search::{INF, LeafEval, child_indices, final_score_discs, fits_window, larger, lemma_final_score, same_bounds};
use crate::zobrist::board_hash;

pub mod backing;
pub mod order;
pub mod table;
pub mod value;
pub mod workers;

use order::{Kid, MoveOrder, STATIC_CELL_PRIORITY, kids_fit, listed_kids, order_key, ordered_into};
use table::{Finding, NO_MOVE, SharedTt, TtEntry, lemma_slot_below, lemma_slot_for, level, put_in, slot_below, slot_for, slots_right};
use value::{FINISHED, central, discs, ground, knows_end, law_midgame_value_is_the_best_move, lemma_nn_bound, lemma_nn_reached, nn_move, nn_value, view_hash};
use backing::{Note, Rules, noted};

verus! {

/// Nodes between two looks at the stop flag.
pub const ABORT_CHECK_INTERVAL: u64 = 512;

/// Deepest nesting of reduced searches.
pub const MPC_MAX_LEVEL: u32 = 3;

/// How far the position's own value may stay behind the margin for a reduced
/// search to be tried.
pub const MPC_D0_OFFSET: i32 = 400;

/// How far it has to clear the window at least.
pub const MPC_D0_LEAST: i32 = 100;

/// Largest margin.
pub const MARGIN_LIMIT: i32 = 1_000_000;

/// A flag by which a search is stopped from outside. What a search sees of it
/// depends on when the flag is raised; once raised it stops every search until
/// it is taken back.
#[derive(Clone, Debug)]
pub struct StopHandle(pub Arc<AtomicBool>);

impl StopHandle {
    /// A flag that is down.
    pub fn new() -> (h: StopHandle)
        ensures
            call_ensures(AtomicBool::new, (false,), *h.0),
    {
        StopHandle(Arc::new(AtomicBool::new(false)))
    }

    /// The flag was put up, or down.
    pub open spec fn stored(self, up: bool) -> bool {
        call_ensures(
            AtomicBool::store,
            (&*self.0, up, std::sync::atomic::Ordering::Relaxed),
            (),
        )
    }

    /// Stop the searches that look at the flag.
    pub fn stop(&self)
        ensures
            self.stored(true),
    {
        self.0.store(true, std::sync::atomic::Ordering::Relaxed);
    }

    /// Let searches run again.
    pub fn reset(&self)
        ensures
            self.stored(false),
    {
        self.0.store(false, std::sync::atomic::Ordering::Relaxed);
    }

    /// A look at the flag may find it up, or down.
    pub open spec fn shows(self, up: bool) -> bool {
        call_ensures(
            AtomicBool::load,
            (&*self.0, std::sync::atomic::Ordering::Relaxed),
            up,
        )
    }

    /// The flag is up.
    pub fn is_stopped(&self) -> (up: bool)
        ensures
            self.shows(up),
    {
        self.0.load(std::sync::atomic::Ordering::Relaxed)
    }
}

/// There is a flag, and a look at it may find it up.
pub open spec fn raised(stop: Option<StopHandle>) -> bool {
    stop matches Some(h) && h.shows(true)
}

/// There is no flag, or a look at it may find it down.
pub open spec fn lowered(stop: Option<StopHandle>) -> bool {
    stop matches Some(h) ==> h.shows(false)
}

/// Depth of a reduced search: about half of the remaining depth, of the same
/// parity.
pub fn mpc_reduced_depth(depth: u32) -> (d: u32)
    ensures
        d == 2 * (depth / 4) + depth % 2,
        depth >= 3 ==> 1 <= d < depth,
        depth < 3 ==> d == depth % 2,
{
    2 * (depth / 4) + depth % 2
}

/// How sure a search to the end of the game is to be, in hundredths of a
/// standard deviation, when `empties` squares are left and exact solves start
/// at `solve_empties`; none where the midgame is searched instead.
pub open spec fn band(empties: int, solve_empties: int, width: int) -> Option<u32> {
    let d = empties - solve_empties;
    if d <= 0 || d > width {
        None
    } else if d <= 2 {
        Some(258)
    } else if d <= 4 {
        Some(233)
    } else if d <= 6 {
        Some(181)
    } else {
        None
    }
}

/// Beside the exact solves there is a band, as wide as it is set and six squares at
/// most. The more squares are empty in it, the less sure its answers need to be.
pub proof fn law_band(empties: int, more: int, solve_empties: int, width: int)
    requires
        more >= empties,
    ensures
        band(empties, solve_empties, width) is Some == (solve_empties < empties <= solve_empties + width
            && empties <= solve_empties + 6),
        band(empties, solve_empties, width) is Some && band(more, solve_empties, width) is Some
            ==> band(empties, solve_empties, width)->Some_0 >= band(more, solve_empties, width)->Some_0
            > 0,
{
}

/// How sure a search to the end of the game is to be.
pub fn selective_band(empties: u8, solve_empties: u8, width: u8) -> (t: Option<u32>)
    ensures
        t == band(empties as int, solve_empties as int, width as int),
{
    if empties <= solve_empties {
        return None;
    }
    let d: u8 = empties - solve_empties;
    if d > width {
        None
    } else if d <= 2 {
        Some(258)
    } else if d <= 4 {
        Some(233)
    } else if d <= 6 {
        Some(181)
    } else {
        None
    }
}

/// A search with its table and its settings. Values are hundredths of a disc.
#[derive(Debug)]
pub struct NnueSearch {
    pub tt: SharedTt,
    pub nodes: u64,
    /// Let a reduced search replace a full one where it promises a cut.
    pub mpc: bool,
    /// Reduced searches without the position's own value before them, on both
    /// sides of the window, with reduced searches inside.
    pub mpc_old: bool,
    /// Remaining depth from which a reduced search may replace a full one.
    pub mpc_min_depth: u32,
    /// Remaining depth from which children are evaluated for their order.
    pub eval_order_depth: u32,
    /// Margins of reduced searches by remaining depth and empty squares.
    pub margins: Vec<i32>,
    pub probcut_level: u32,
    pub stop: Option<StopHandle>,
    pub abort_countdown: u64,
    /// How much wider than the main search's the margins are.
    pub mpc_relax: u8,
}

/// What a reduced search says.
#[derive(Clone, Copy, Debug, PartialEq, Eq, Structural)]
pub enum Probe {
    /// The search was stopped.
    Aborted,
    /// The window's edge stands for the full search.
    Cut(i32),
    /// The full search is needed.
    Open,
}

impl NnueSearch {
    /// The table and the settings fit.
    pub open spec fn wf(self) -> bool {
        &&& self.tt.wf()
        &&& self.margins@.len() == 65 * 65
        &&& forall|i: int|
            0 <= i < self.margins@.len() ==> 0 <= #[trigger] self.margins@[i] <= MARGIN_LIMIT
        &&& 1 <= self.abort_countdown <= ABORT_CHECK_INTERVAL
        &&& self.probcut_level <= MPC_MAX_LEVEL
    }

    /// The settings are not changed by a search.
    pub open spec fn same_setting(self, other: NnueSearch) -> bool {
        &&& self.tt.mask == other.tt.mask
        &&& self.mpc == other.mpc
        &&& self.mpc_old == other.mpc_old
        &&& self.mpc_min_depth == other.mpc_min_depth
        &&& self.eval_order_depth == other.eval_order_depth
        &&& self.margins == other.margins
        &&& self.probcut_level == other.probcut_level
        &&& self.stop == other.stop
        &&& self.mpc_relax == other.mpc_relax
    }

    /// A search to this depth makes no reduced searches.
    pub open spec fn unreduced(self, depth: int) -> bool {
        !self.mpc || depth < 3 || depth < self.mpc_min_depth
    }

    /// The table holds no bounds of the position that a search of one ply would
    /// use.
    pub open spec fn unknown(self, b: Board) -> bool {
        let t = self.tt.entry(view_hash(b));
        !t.used || t.depth == 0
    }

    /// Nor of the one after a pass, where the side to move has to pass.
    pub open spec fn unseen(self, b: Board) -> bool {
        self.unknown(
            if b.can_move() {
                b
            } else {
                b.passed()
            },
        )
    }

    /// How deep reduced searches may nest from here on.
    pub open spec fn cuts(self) -> int {
        if self.mpc {
            MPC_MAX_LEVEL - self.probcut_level
        } else {
            0
        }
    }

    /// By what a search from here may say something of positions that follow
    /// from `root`, up to `h` discs on the board.
    pub open spec fn rules<E: LeafEval>(self, e: E, root: Board, h: int) -> Rules<E> {
        Rules {
            e,
            slots: self.tt.slots@,
            relax: self.mpc_relax,
            margins: self.margins@,
            nested: self.mpc_old,
            least: self.mpc_min_depth as int,
            cuts: self.cuts(),
            root,
            h,
        }
    }

    /// The search goes by the rules, which vouch for its table.
    pub open spec fn keeps<E: LeafEval>(self, e: E, r: Rules<E>) -> bool {
        &&& r.e == e
        &&& r.relax == self.mpc_relax
        &&& r.margins == self.margins@
        &&& r.nested == self.mpc_old
        &&& r.least == self.mpc_min_depth
        &&& self.cuts() <= r.cuts
        &&& r.backs_all(self.tt.slots@)
    }

    /// A search of the position to this depth is exact: it makes no reduced
    /// searches, and the table is right about the positions up to the horizon.
    pub open spec fn exact<E: LeafEval>(
        self,
        set: Set<Board>,
        e: E,
        h: int,
        b: Board,
        depth: int,
    ) -> bool {
        &&& self.unreduced(depth)
        &&& ground(set, e, h)
        &&& set.contains(b)
        &&& discs(b) + depth == h
        &&& slots_right(self.tt.slots@, set, e, h)
    }

    /// The search without reduced searches.
    pub open spec fn quiet(self) -> NnueSearch {
        NnueSearch { mpc: false, ..self }
    }

    /// The table holds nothing.
    pub open spec fn blank(self) -> bool {
        forall|i: int| 0 <= i < self.tt.slots@.len() ==> !(#[trigger] self.tt.slots@[i]).used
    }

    /// Nothing that is kept where the key belongs was searched deeper than `cap`.
    pub open spec fn near(self, key: u64, cap: int) -> bool {
        forall|i: int|
            self.tt.base(key) <= i < self.tt.base(key) + 4 && (#[trigger] self.tt.slots@[i]).used
                ==> self.tt.slots@[i].depth <= cap
    }

    /// How deep a slot was searched.
    pub open spec fn slot_depth(self, i: int) -> int {
        if self.tt.slots@[i].used {
            self.tt.slots@[i].depth as int
        } else {
            0
        }
    }

    /// How deep the positions were searched that are kept where the key belongs.
    pub open spec fn deepest(self, key: u64) -> int {
        let n = self.tt.base(key);
        larger(
            larger(self.slot_depth(n), self.slot_depth(n + 1)),
            larger(self.slot_depth(n + 2), self.slot_depth(n + 3)),
        )
    }

    /// A search with the given table and margins, without reduced searches.
    pub fn new(tt: SharedTt, margins: Vec<i32>) -> (s: NnueSearch)
        requires
            tt.wf(),
            margins@.len() == 65 * 65,
            forall|i: int| 0 <= i < margins@.len() ==> 0 <= #[trigger] margins@[i] <= MARGIN_LIMIT,
        ensures
            s.wf(),
            s.tt == tt,
            s.margins == margins,
            s.nodes == 0,
            !s.mpc,
            !s.mpc_old,
            s.mpc_min_depth == 4,
            s.eval_order_depth == 3,
            s.probcut_level == 0,
            s.stop is None,
            s.mpc_relax == 0,
    {
        NnueSearch {
            tt,
            nodes: 0,
            mpc: false,
            mpc_old: false,
            mpc_min_depth: 4,
            eval_order_depth: 3,
            margins,
            probcut_level: 0,
            stop: None,
            abort_countdown: ABORT_CHECK_INTERVAL,
            mpc_relax: 0,
        }
    }

    /// Set the flag by which the search is stopped.
    pub fn set_stop(&mut self, stop: Option<StopHandle>)
        requires
            old(self).wf(),
        ensures
            final(self).wf(),
            *final(self) == (NnueSearch { stop, ..*old(self) }),
    {
        self.stop = stop;
    }

    /// Forget every searched position.
    pub fn clear(&mut self)
        requires
            old(self).wf(),
        ensures
            final(self).wf(),
            final(self).same_setting(*old(self)),
            final(self).nodes == old(self).nodes,
            final(self).blank(),
    {
        self.tt.clear();
    }

    /// Look at the stop flag, once in a while.
    fn should_stop(&mut self) -> (yes: bool)
        requires
            old(self).wf(),
        ensures
            final(self).wf(),
            final(self).same_setting(*old(self)),
            final(self).tt == old(self).tt,
            final(self).nodes == old(self).nodes,
            old(self).stop is None ==> !yes,
            yes ==> raised(old(self).stop),
            old(self).stop matches Some(h) ==> {
                &&& old(self).abort_countdown > 1 ==> !yes && final(self).abort_countdown
                    == old(self).abort_countdown - 1
                &&& old(self).abort_countdown == 1 ==> h.shows(yes)
            },
    {
        if self.stop.is_none() {
            return false;
        }
        self.abort_countdown = self.abort_countdown - 1;
        if self.abort_countdown != 0 {
            return false;
        }
        self.abort_countdown = ABORT_CHECK_INTERVAL;
        match &self.stop {
            Some(s) => s.is_stopped(),
            None => false,
        }
    }
}

/// Every square but the four in the middle has a place in the static order.
proof fn lemma_priorities(s: u64)
    requires
        s < 64,
        !central(s as int),
    ensures
        exists|k: int| 0 <= k < 4 && bit(#[trigger] STATIC_CELL_PRIORITY@[k], s as int),
{
    let a = STATIC_CELL_PRIORITY@[0];
    let b = STATIC_CELL_PRIORITY@[1];
    let c = STATIC_CELL_PRIORITY@[2];
    let d = STATIC_CELL_PRIORITY@[3];
    assert((a >> s) & 1 == 1 || (b >> s) & 1 == 1 || (c >> s) & 1 == 1 || (d >> s) & 1 == 1)
        by (bit_vector)
        requires
            s < 64,
            s != 27 && s != 28 && s != 35 && s != 36,
            a == 0x8100_0000_0000_0081,
            b == 0x0000_3C24_243C_0000,
            c == 0x3C3C_C3C3_C3C3_3C3C,
            d == 0x42C3_0000_0000_C342,
    ;
    if bit(a, s as int) {
        assert(bit(STATIC_CELL_PRIORITY@[0], s as int));
    } else if bit(b, s as int) {
        assert(bit(STATIC_CELL_PRIORITY@[1], s as int));
    } else if bit(c, s as int) {
        assert(bit(STATIC_CELL_PRIORITY@[2], s as int));
    } else {
        assert(bit(STATIC_CELL_PRIORITY@[3], s as int));
    }
}

impl NnueSearch {
    /// A node one ply from the leaves with the window from `alpha` to the next
    /// unit: the children are leaves, whose values need no order.
    fn eval1_nws<E: LeafEval>(
        &mut self,
        evaluator: &E,
        b: &Board,
        indices: &PatternIndices,
        alpha: i32,
        Ghost(rules): Ghost<Rules<E>>,
    ) -> (r: i32)
        requires
            old(self).wf(),
            evaluator.valid(),
            b.wf(),
            evaluator.tables().holds(*indices, b.black, b.white),
            -INF <= alpha < INF,
            rules.e == *evaluator,
            rules.covers(
                (Fact { cuts: old(self).cuts(), board: *b, depth: 1, low: true, bound: 0 }),
            ),
        ensures
            final(self).wf(),
            final(self).same_setting(*old(self)),
            final(self).tt == old(self).tt,
            final(self).abort_countdown == old(self).abort_countdown,
            -INF <= r <= INF,
            rules.backed(old(self).cuts(), *b, 1, alpha as int, alpha + 1, r as int),
        decreases
                if b.can_move() {
                    1int
                } else {
                    2int
                },
    {
        self.nodes = self.nodes.wrapping_add(1);
        let moves: u64 = b.movable();
        let ghost e = *evaluator;
        let ghost cuts = self.cuts();
        proof {
            lemma_final_score(*b);
            lemma_passed_wf(*b);
            rules.lemma_covers_next((Fact { cuts, board: *b, depth: 1, low: true, bound: 0 }));
        }
        if moves == 0 {
            let mut nb: Board = *b;
            nb.pass();
            if nb.movable() == 0 {
                let v: i32 = final_score_discs(b) * FINISHED;
                proof {
                    rules.lemma_known(cuts, *b, 1, alpha as int, alpha + 1, v as int);
                }
                return v;
            }
            let raw: i32 = self.eval1_nws(evaluator, &nb, indices, -alpha - 1, Ghost(rules));
            proof {
                rules.lemma_passed(cuts, *b, 1, alpha as int, alpha + 1, raw as int);
            }
            return -raw;
        }
        proof {
            lemma_moves(*b);
            lemma_wf_sides(*b);
        }
        let mut v: i32 = -INF;
        let mut k: usize = 0;
        while k < 4
            invariant
                self.wf(),
                self.same_setting(*old(self)),
                self.tt == old(self).tt,
                self.abort_countdown == old(self).abort_countdown,
                evaluator.valid(),
                *evaluator == e,
                b.wf(),
                evaluator.tables().holds(*indices, b.black, b.white),
                moves == b.moves(),
                forall|s: int| 0 <= s < 64 ==> #[trigger] bit(moves, s) == b.legal(s),
                rules.e == e,
                b.can_move(),
                cuts == old(self).cuts(),
                rules.covers((Fact { cuts, board: *b, depth: 1, low: true, bound: 0 })),
                -INF <= alpha < INF,
                k <= 4,
                -INF <= v <= alpha,
                forall|j: int, s: int|
                    0 <= j < k && 0 <= s < 64 && #[trigger] bit(
                        STATIC_CELL_PRIORITY@[j],
                        s,
                    ) && b.legal(s) ==> -e.leaf(b.after(s)) <= v,
            decreases 4 - k,
        {
            let group: u64 = moves & STATIC_CELL_PRIORITY[k];
            let list: Vec<u8> = iter_bits(group);
            proof {
                broadcast use group_bits;

                lemma_squares(group, 64);
            }
            let mut i: usize = 0;
            while i < list.len()
                invariant
                    self.wf(),
                    self.same_setting(*old(self)),
                    self.tt == old(self).tt,
                    self.abort_countdown == old(self).abort_countdown,
                    evaluator.valid(),
                    *evaluator == e,
                    b.wf(),
                    evaluator.tables().holds(*indices, b.black, b.white),
                    moves == b.moves(),
                    group == moves & STATIC_CELL_PRIORITY@[k as int],
                    k < 4,
                    rules.e == e,
                    b.can_move(),
                    cuts == old(self).cuts(),
                    rules.covers((Fact { cuts, board: *b, depth: 1, low: true, bound: 0 })),
                    forall|s: int| 0 <= s < 64 ==> #[trigger] bit(moves, s) == b.legal(s),
                    list@ == squares(group),
                    forall|n: int|
                        0 <= n < list@.len() ==> #[trigger] list@[n] < 64 && bit(
                            group,
                            list@[n] as int,
                        ),
                    -INF <= alpha < INF,
                    i <= list@.len(),
                    -INF <= v <= alpha,
                    forall|j: int, s: int|
                        0 <= j < k && 0 <= s < 64 && #[trigger] bit(
                            STATIC_CELL_PRIORITY@[j],
                            s,
                        ) && b.legal(s) ==> -e.leaf(b.after(s)) <= v,
                    forall|n: int|
                        0 <= n < i ==> -e.leaf(b.after((#[trigger] list@[n]) as int)) <= v,
                decreases list@.len() - i,
            {
                let pos = Position(list[i]);
                proof {
                    broadcast use group_bits;

                    assert(list@[i as int] < 64);
                    assert(bit(group, pos.0 as int));
                    assert(b.legal(pos.0 as int));
                    lemma_wf_sides(*b);
                    lemma_after_wf(*b, pos.0 as int);
                }
                let mut nb: Board = *b;
                let flipped: u64 = nb.make_move_bits(pos);
                self.nodes = self.nodes.wrapping_add(1);
                let ix: PatternIndices = child_indices(
                    evaluator.indexer(),
                    b,
                    indices,
                    pos,
                    flipped,
                );
                let g: i32 = -evaluator.eval_indices(&nb, &ix);
                if g > v {
                    if g > alpha {
                        proof {
                            let f = Fact { cuts, board: *b, depth: 1, low: true, bound: g as int };
                            assert(b.legal(pos.0 as int) && -e.leaf(b.after(pos.0 as int)) >= g);
                            assert(rules.swept(f));
                            rules.lemma_take(f);
                        }
                        return g;
                    }
                    v = g;
                }
                i = i + 1;
            }
            proof {
                assert forall|j: int, s: int|
                    0 <= j < k + 1 && 0 <= s < 64 && #[trigger] bit(
                        STATIC_CELL_PRIORITY@[j],
                        s,
                    ) && b.legal(s) implies -e.leaf(b.after(s)) <= v by {
                    if j == k {
                        broadcast use group_bits;

                        assert(bit(moves, s));
                        assert(bit(group, s));
                        let n = choose|n: int| 0 <= n < list@.len() && #[trigger] list@[n] == s;
                        assert(-e.leaf(b.after(list@[n] as int)) <= v);
                    }
                }
            }
            k = k + 1;
        }
        proof {
            let f = Fact { cuts, board: *b, depth: 1, low: false, bound: v as int };
            assert forall|s: int| 0 <= s < 64 && #[trigger] b.legal(s) && !central(s) implies -e.leaf(
                b.after(s),
            ) <= v by {
                lemma_priorities(s as u64);
                let j = choose|j: int| 0 <= j < 4 && bit(#[trigger] STATIC_CELL_PRIORITY@[j], s);
                assert(bit(STATIC_CELL_PRIORITY@[j], s) && b.legal(s));
            }
            assert(rules.swept(f));
            rules.lemma_take(f);
        }
        v
    }
}

/// The rules vouch for the table after a finding, where they did before and do
/// for the finding.
proof fn lemma_table_backed<E: LeafEval>(r: Rules<E>, before: SharedTt, after: SharedTt, f: Finding)
    requires
        before.wf(),
        after.wf(),
        after.mask == before.mask,
        after.bucket(f.hash) == put_in(before.bucket(f.hash), f),
        forall|k: int|
            0 <= k < before.slots@.len() && !(before.base(f.hash) <= k < before.base(f.hash) + 4)
                ==> #[trigger] after.slots@[k] == before.slots@[k],
        r.backs_all(before.slots@),
        f.relax == r.relax,
        f.value > f.alpha >= -INF ==> r.vouched(f.note(true)),
        f.value < f.beta <= INF ==> r.vouched(f.note(false)),
        -INF <= f.alpha,
        f.beta <= INF,
    ensures
        r.backs_all(after.slots@),
{
    let base = before.base(f.hash);
    let mask = before.mask;
    lemma_masked(f.hash, mask);
    let old_bucket = before.bucket(f.hash);
    let new_bucket = after.bucket(f.hash);
    assert forall|i: int| 0 <= i < old_bucket.len() implies r.backs(#[trigger] old_bucket[i]) by {
        assert(old_bucket[i] == before.slots@[base + i]);
    }
    r.lemma_put_backed(old_bucket, f);
    assert forall|k: int| 0 <= k < after.slots@.len() implies r.backs(
        #[trigger] after.slots@[k],
    ) by {
        if base <= k < base + 4 {
            assert(new_bucket[k - base] == after.slots@[k]);
        } else {
            assert(after.slots@[k] == before.slots@[k]);
        }
    }
}

/// What `put_in` leaves in each slot.
proof fn lemma_put_slots(bucket: Seq<TtEntry>, f: Finding, k: int)
    requires
        0 <= k < bucket.len(),
    ensures
        put_in(bucket, f).len() == bucket.len(),
        ({
            let u = put_in(bucket, f)[k];
            u == bucket[k] || u.depth == f.depth
        }),
{
    lemma_slot_for(bucket, f.hash, 0);
    lemma_slot_below(bucket, level(f.depth, f.relax), 0);
}

/// The bounds that reduced searches have to reach for a cut above and for one
/// below, where they are tried. The position's own value has to lie beyond the
/// window, unless it is not asked; and no bound lies beyond the infinities.
pub open spec fn probe_bounds_of(own: Option<int>, alpha: int, beta: int, margin: int) -> (
    Option<int>,
    Option<int>,
) {
    let gate = if margin - MPC_D0_OFFSET > MPC_D0_LEAST {
        margin - MPC_D0_OFFSET
    } else {
        MPC_D0_LEAST as int
    };
    (
        if (own matches Some(v) ==> v >= beta + gate) && beta + margin <= INF {
            Some(beta + margin)
        } else {
            None
        },
        if (own matches Some(v) ==> v <= alpha - gate) && alpha - margin >= -INF {
            Some(alpha - margin)
        } else {
            None
        },
    )
}

/// The bounds that reduced searches have to reach.
pub fn probe_bounds(own: Option<i32>, alpha: i32, beta: i32, margin: i32) -> (r: (
    Option<i32>,
    Option<i32>,
))
    requires
        -INF <= alpha < beta <= INF,
        0 <= margin <= MARGIN_LIMIT,
    ensures
        same_bounds(
            r,
            probe_bounds_of(
                match own {
                    Some(v) => Some(v as int),
                    None => None,
                },
                alpha as int,
                beta as int,
                margin as int,
            ),
        ),
{
    let gate: i64 = if margin - MPC_D0_OFFSET > MPC_D0_LEAST {
        (margin - MPC_D0_OFFSET) as i64
    } else {
        MPC_D0_LEAST as i64
    };
    let (above, below): (bool, bool) = match own {
        Some(v) => (v as i64 >= beta as i64 + gate, v as i64 <= alpha as i64 - gate),
        None => (true, true),
    };
    (
        if above && beta + margin <= INF {
            Some(beta + margin)
        } else {
            None
        },
        if below && alpha - margin >= -INF {
            Some(alpha - margin)
        } else {
            None
        },
    )
}

/// What a slot leaves of a window.
enum Window {
    /// The value is known, or on which side of the window it lies.
    Known(i32),
    /// The value lies in this part of the window, or where it ends.
    Open(i32, i32),
}

/// What a slot that was searched deep enough leaves of a window. Bounds that
/// cross, as reduced searches can leave them, leave it as it is.
fn narrowed(t: &TtEntry, alpha: i32, beta: i32) -> (w: Window)
    requires
        t.in_bounds(),
        -INF <= alpha < beta <= INF,
    ensures
        match w {
            Window::Known(v) => {
                ||| v == t.upper && (t.upper <= alpha || t.upper == t.lower)
                ||| v == t.lower && beta <= t.lower
            },
            Window::Open(low, high) => {
                &&& alpha <= low < high <= beta
                &&& low > alpha ==> low == t.lower
                &&& high < beta ==> high == t.upper
            },
        },
{
    if t.upper <= alpha || t.upper == t.lower {
        return Window::Known(t.upper);
    }
    if beta <= t.lower {
        return Window::Known(t.lower);
    }
    if t.lower > t.upper {
        return Window::Open(alpha, beta);
    }
    Window::Open(
        if alpha < t.lower {
            t.lower
        } else {
            alpha
        },
        if t.upper < beta {
            t.upper
        } else {
            beta
        },
    )
}

/// A finding at the greatest depth in the table is found again.
proof fn lemma_put_found(bucket: Seq<TtEntry>, f: Finding, i: int, j: int)
    requires
        bucket.len() == 4,
        0 <= i <= 4,
        0 <= j <= 4,
        f.best < 64,
        f.value > f.alpha,
        i == slot_for(bucket, f.hash, 0),
        j == slot_below(bucket, level(f.depth, f.relax), 0),
        forall|k: int|
            0 <= k < 4 && (#[trigger] bucket[k]).used ==> bucket[k].depth < f.depth,
    ensures
        ({
            let after = put_in(bucket, f);
            let at = slot_for(after, f.hash, 0);
            at < 4 && after[at].best == f.best
        }),
{
    reveal_with_fuel(slot_for, 6);
    reveal_with_fuel(slot_below, 6);
    assert(bucket[0].used || !bucket[0].used);
}

/// A backed result of a search without reduced searches is right, if some set of
/// positions settles the search.
proof fn lemma_right_result<E: LeafEval>(
    r: Rules<E>,
    set: Set<Board>,
    b: Board,
    cuts: int,
    alpha: int,
    beta: int,
    v: int,
)
    requires
        r.e.valid(),
        r.uncut(),
        r.root == b,
        b.wf(),
        discs(b) <= r.h,
        0 <= cuts <= r.cuts,
        ground(set, r.e, r.h),
        knows_end(set, r.e, r.h),
        set.contains(b),
        slots_right(r.slots, set, r.e, r.h),
        r.backed(cuts, b, r.h - discs(b), alpha, beta, v),
        alpha < beta,
    ensures
        fits_window(v, nn_value(r.e, b, (r.h - discs(b)) as nat), alpha, beta),
{
    lemma_comes_next(b, b);
    let d = r.h - discs(b);
    if v > alpha {
        r.law_shown_is_right(set, Fact { cuts, board: b, depth: d, low: true, bound: v });
    }
    if v < beta {
        r.law_shown_is_right(set, Fact { cuts, board: b, depth: d, low: false, bound: v });
    }
}

/// The move tells that the position is worth at least `v`, or at most; one ply
/// from the end its value does.
#[verifier::opaque]
spec fn told<E: LeafEval>(
    r: Rules<E>,
    cuts: int,
    b: Board,
    depth: int,
    s: int,
    low: bool,
    v: int,
) -> bool {
    &&& r.shown((Fact { cuts, board: b, depth, low, bound: v }).after(s))
    &&& depth == 1 ==> beyond(low, v, nn_move(r.e, b, 1, s))
}

/// A move that tells more tells less.
proof fn lemma_told_weaker<E: LeafEval>(
    r: Rules<E>,
    cuts: int,
    b: Board,
    depth: int,
    s: int,
    low: bool,
    w: int,
    v: int,
)
    requires
        r.covers((Fact { cuts, board: b, depth, low: true, bound: 0 })),
        depth > 0,
        0 <= s < 64,
        b.legal(s),
        told(r, cuts, b, depth, s, low, w),
        beyond(low, v, w),
    ensures
        told(r, cuts, b, depth, s, low, v),
{
    reveal(told);
    let f = Fact { cuts, board: b, depth, low, bound: v };
    let g = Fact { cuts, board: b, depth, low, bound: w };
    r.lemma_covers_next(f);
    assert(g.after(s) == (Fact { bound: -w, ..f.after(s) }));
    r.lemma_weaker(f.after(s), -w);
}

/// The position is worth what one move tells at least.
proof fn lemma_told_low<E: LeafEval>(r: Rules<E>, cuts: int, b: Board, depth: int, s: int, v: int)
    requires
        r.covers((Fact { cuts, board: b, depth, low: true, bound: 0 })),
        depth > 0,
        b.can_move(),
        0 <= s < 64,
        b.legal(s),
        told(r, cuts, b, depth, s, true, v),
    ensures
        r.vouched(noted((Fact { cuts, board: b, depth, low: true, bound: v }))),
{
    reveal(told);
    let f = Fact { cuts, board: b, depth, low: true, bound: v };
    let all = r.all_shown();
    assert(b.legal(s) && all(f.after(s)));
    assert(r.moved(all, f));
    r.lemma_from_moves(f);
}

/// The position is worth what all moves tell at most.
proof fn lemma_told_high<E: LeafEval>(r: Rules<E>, cuts: int, b: Board, depth: int, v: int)
    requires
        r.covers((Fact { cuts, board: b, depth, low: true, bound: 0 })),
        depth > 0,
        b.can_move(),
        forall|s: int|
            0 <= s < 64 && #[trigger] b.legal(s) ==> told(r, cuts, b, depth, s, false, v),
    ensures
        r.vouched(noted((Fact { cuts, board: b, depth, low: false, bound: v }))),
{
    let f = Fact { cuts, board: b, depth, low: false, bound: v };
    let all = r.all_shown();
    assert forall|s: int| 0 <= s < 64 && #[trigger] b.legal(s) implies all(f.after(s)) by {
        reveal(told);
        assert(told(r, cuts, b, depth, s, false, v));
    }
    assert(r.moved(all, f));
    r.lemma_from_moves(f);
}

/// One ply from the end the moves tell the value.
proof fn lemma_told_one<E: LeafEval>(r: Rules<E>, cuts: int, b: Board, s: int, low: bool, v: int)
    requires
        told(r, cuts, b, 1, s, low, v),
    ensures
        beyond(low, v, nn_move(r.e, b, 1, s)),
{
    reveal(told);
}

impl NnueSearch {
    /// The margin of a reduced search.
    pub open spec fn margin_of(self, empties: int, depth: int) -> int {
        self.margins@[(if depth <= 64 {
            depth
        } else {
            64
        }) * 65 + empties] as int
    }

    /// The margin of a reduced search.
    fn margin(&self, empties: u8, depth: u32) -> (m: i32)
        requires
            self.wf(),
            empties <= 64,
        ensures
            0 <= m <= MARGIN_LIMIT,
            m == self.margin_of(empties as int, depth as int),
    {
        let d: usize = if depth <= 64 {
            depth as usize
        } else {
            64
        };
        self.margins[d * 65 + empties as usize]
    }

    /// Try a reduced search around a shifted window: where it clears its
    /// bound, the window's edge stands for the full search. The position's own
    /// value has to lie beyond the window first.
    fn probcut<E: LeafEval>(
        &mut self,
        evaluator: &E,
        b: &Board,
        indices: &PatternIndices,
        depth: u32,
        alpha: i32,
        beta: i32,
        Ghost(rules): Ghost<Rules<E>>,
        Ghost(key): Ghost<u64>,
        Ghost(cap): Ghost<int>,
    ) -> (r: Probe)
        requires
            old(self).wf(),
            old(self).mpc,
            old(self).probcut_level < MPC_MAX_LEVEL,
            evaluator.valid(),
            b.wf(),
            evaluator.tables().holds(*indices, b.black, b.white),
            depth >= 3,
            depth >= old(self).mpc_min_depth,
            -INF < alpha < beta < INF,
            beta == alpha + 1,
            old(self).keeps(*evaluator, rules),
            rules.covers(
                (Fact {
                    cuts: old(self).cuts(),
                    board: *b,
                    depth: depth as int,
                    low: true,
                    bound: 0,
                }),
            ),
        ensures
            final(self).wf(),
            final(self).same_setting(*old(self)),
            rules.backs_all(final(self).tt.slots@),
            old(self).stop is None ==> !(r is Aborted),
            r is Aborted ==> raised(old(self).stop),
            !lowered(old(self).stop) && !(r is Aborted) ==> final(self).abort_countdown
                <= old(self).abort_countdown,
            depth <= cap + 1 && depth < 256 && old(self).near(key, cap) ==> final(self).near(key, cap),
            r matches Probe::Cut(v) ==> {
                let low = Fact {
                    cuts: old(self).cuts(),
                    board: *b,
                    depth: depth as int,
                    low: v == beta,
                    bound: v as int,
                };
                (v == alpha || v == beta) && rules.shown(low)
            },
            !old(self).mpc_old && (exists|set: Set<Board>| #[trigger]
                settles(old(self).quiet(), set, *evaluator, *b, 2 * (depth / 4) + depth % 2))
                ==> {
                let v = nn_value(*evaluator, *b, (2 * (depth / 4) + depth % 2) as nat);
                let (high, low) = probe_bounds_of(
                    Some(evaluator.leaf(*b)),
                    alpha as int,
                    beta as int,
                    old(self).margin_of(b.empty_count as int, depth as int),
                );
                &&& r == Probe::Cut(beta) ==> high is Some && v >= high->Some_0
                &&& r == Probe::Cut(alpha) ==> low is Some && v <= low->Some_0
                &&& !(r is Aborted) && high is Some && v >= high->Some_0 ==> r == Probe::Cut(beta)
                &&& !(r is Aborted) && low is Some && v <= low->Some_0 ==> r is Cut
            },
        decreases depth, 0int, 0int,
    {
        let pd: u32 = mpc_reduced_depth(depth);
        proof {
            lemma_wf_sides(*b);
        }
        let margin: i32 = self.margin(b.empty_count(), depth);
        let own: Option<i32> = if self.mpc_old {
            None
        } else {
            Some(evaluator.eval_indices(b, indices))
        };
        let (high, low) = probe_bounds(own, alpha, beta, margin);
        if high.is_none() && low.is_none() {
            return Probe::Open;
        }
        let saved: bool = self.mpc;
        let ghost e = *evaluator;
        let ghost cuts = self.cuts();
        self.probcut_level = self.probcut_level + 1;
        if !self.mpc_old {
            self.mpc = false;
        }
        let ghost inner = self.rules(e, *b, discs(*b) + pd);
        let ghost less = self.cuts();
        let ghost plain = !old(self).mpc_old && exists|set: Set<Board>| #[trigger]
            settles(old(self).quiet(), set, e, *b, pd as int);
        let ghost set = choose|set: Set<Board>| #[trigger]
            settles(old(self).quiet(), set, e, *b, pd as int);
        let ghost truth = nn_value(e, *b, pd as nat);
        proof {
            lemma_comes_next(*b, *b);
            inner.lemma_start();
            assert(inner.under(rules));
        }
        let mut result: Probe = Probe::Open;
        if let Some(hi) = high {
            match self.node(
                evaluator,
                b,
                indices,
                pd,
                hi - 1,
                hi,
                Ghost(inner),
                Ghost(key),
                Ghost(cap),
            ) {
                None => {
                    result = Probe::Aborted;
                },
                Some(v) => {
                    proof {
                        if plain {
                            lemma_right_result(inner, set, *b, less, hi - 1, hi as int, v as int);
                        }
                    }
                    if v >= hi {
                        result = Probe::Cut(beta);
                        proof {
                            let f = Fact {
                                cuts,
                                board: *b,
                                depth: depth as int,
                                low: true,
                                bound: beta as int,
                            };
                            let g = Fact {
                                cuts: less,
                                depth: pd as int,
                                bound: hi as int,
                                ..f
                            };
                            inner.lemma_weaker(g, v as int);
                            inner.lemma_under(rules, self.tt.slots@);
                            rules.lemma_cut(f, less, hi as int);
                        }
                    }
                },
            }
        }
        if result == Probe::Open {
            if let Some(lo) = low {
                match self.node(
                    evaluator,
                    b,
                    indices,
                    pd,
                    lo,
                    lo + 1,
                    Ghost(inner),
                    Ghost(key),
                    Ghost(cap),
                ) {
                    None => {
                        result = Probe::Aborted;
                    },
                    Some(v) => {
                        proof {
                            if plain {
                                lemma_right_result(
                                    inner,
                                    set,
                                    *b,
                                    less,
                                    lo as int,
                                    lo + 1,
                                    v as int,
                                );
                            }
                        }
                        if v <= lo {
                            result = Probe::Cut(alpha);
                            proof {
                                let f = Fact {
                                    cuts,
                                    board: *b,
                                    depth: depth as int,
                                    low: false,
                                    bound: alpha as int,
                                };
                                let g = Fact {
                                    cuts: less,
                                    depth: pd as int,
                                    bound: lo as int,
                                    ..f
                                };
                                inner.lemma_weaker(g, v as int);
                                inner.lemma_under(rules, self.tt.slots@);
                                rules.lemma_cut(f, less, lo as int);
                            }
                        }
                    },
                }
            }
        }
        proof {
            inner.lemma_under(rules, self.tt.slots@);
        }
        self.mpc = saved;
        self.probcut_level = self.probcut_level - 1;
        result
    }

    /// Put a finding into the table. It is found there, if nothing was searched
    /// as deep before.
    fn keep<E: LeafEval>(
        &mut self,
        f: Finding,
        Ghost(rules): Ghost<Rules<E>>,
        Ghost(key): Ghost<u64>,
        Ghost(cap): Ghost<int>,
    )
        requires
            old(self).wf(),
            -INF <= f.value <= INF,
            -INF <= f.alpha,
            f.beta <= INF,
            rules.backs_all(old(self).tt.slots@),
            f.relax == rules.relax,
            f.value > f.alpha ==> rules.vouched(f.note(true)),
            f.value < f.beta ==> rules.vouched(f.note(false)),
        ensures
            final(self).wf(),
            final(self).same_setting(*old(self)),
            final(self).abort_countdown == old(self).abort_countdown,
            rules.backs_all(final(self).tt.slots@),
            f.depth <= cap + 1 && old(self).near(key, cap) ==> final(self).near(
                key,
                if f.depth <= cap {
                    cap
                } else {
                    f.depth as int
                },
            ),
            f.depth == cap + 1 && f.hash == key && old(self).near(key, cap) && f.best < 64 && f.value
                > f.alpha
                ==> final(self).tt.entry(f.hash).best == f.best,
    {
        let ghost mid = *self;
        self.tt.put(f);
        proof {
            lemma_table_backed(rules, mid.tt, self.tt, f);
            if f.depth <= cap + 1 && mid.near(key, cap) {
                let top = if f.depth <= cap {
                    cap
                } else {
                    f.depth as int
                };
                assert(mid.near(key, top));
                lemma_table_near(mid, *self, f, key, top);
            }
            if f.depth == cap + 1 && f.hash == key && mid.near(key, cap) && f.best < 64 && f.value
                > f.alpha {
                let bucket = mid.tt.bucket(f.hash);
                let mask = mid.tt.mask;
                lemma_masked(f.hash, mask);
                lemma_slot_for(bucket, f.hash, 0);
                lemma_slot_below(bucket, level(f.depth, f.relax), 0);
                assert forall|k: int|
                    0 <= k < 4 && (#[trigger] bucket[k]).used implies bucket[k].depth < f.depth by {
                    assert(bucket[k] == mid.tt.slots@[mid.tt.base(f.hash) + k]);
                }
                lemma_put_found(
                    bucket,
                    f,
                    slot_for(bucket, f.hash, 0),
                    slot_below(bucket, level(f.depth, f.relax), 0),
                );
            }
        }
    }

    /// Search a position to `depth` with a window. Inside the window the result
    /// is exact, outside it a bound; there is none when the search was
    /// stopped.
    #[verifier::spinoff_prover]
    #[verifier::rlimit(100)]
    fn node<E: LeafEval>(
        &mut self,
        evaluator: &E,
        b: &Board,
        indices: &PatternIndices,
        depth: u32,
        alpha0: i32,
        beta0: i32,
        Ghost(rules): Ghost<Rules<E>>,
        Ghost(key): Ghost<u64>,
        Ghost(cap): Ghost<int>,
    ) -> (r: Option<i32>)
        requires
            old(self).wf(),
            evaluator.valid(),
            b.wf(),
            evaluator.tables().holds(*indices, b.black, b.white),
            -INF <= alpha0 < beta0 <= INF,
            old(self).keeps(*evaluator, rules),
            rules.covers(
                (Fact {
                    cuts: old(self).cuts(),
                    board: *b,
                    depth: depth as int,
                    low: true,
                    bound: 0,
                }),
            ),
        ensures
            final(self).wf(),
            final(self).same_setting(*old(self)),
            rules.backs_all(final(self).tt.slots@),
            old(self).stop is None ==> r is Some,
            r is None ==> raised(old(self).stop),
            !lowered(old(self).stop) && r is Some ==> final(self).abort_countdown
                < old(self).abort_countdown,
            r matches Some(v) ==> -INF <= v <= INF,
            r matches Some(v) ==> rules.backed(
                old(self).cuts(),
                *b,
                depth as int,
                alpha0 as int,
                beta0 as int,
                v as int,
            ),
            depth <= cap + 1 && depth < 256 && old(self).near(key, cap) ==> final(self).near(
                key,
                if depth <= cap {
                    cap
                } else {
                    depth as int
                },
            ),
            depth == 0 ==> (r matches Some(v) ==> v == nn_value(*evaluator, *b, 0)),
            depth == 1 && alpha0 + 1 < beta0 && old(self).unseen(*b)
                ==> (r matches Some(v) ==> fits_window(
                v as int,
                nn_value(*evaluator, *b, 1),
                alpha0 as int,
                beta0 as int,
            )),
            0 < depth < 256 && depth == cap + 1 && key == view_hash(*b) && old(self).near(key, cap)
                && alpha0 == -INF && beta0
                == INF && b.can_move() ==> (r matches Some(v) ==> v > -INF ==> ({
                let best = final(self).tt.entry(view_hash(*b)).best;
                best < 64 && b.legal(best as int) && told(
                    rules,
                    old(self).cuts(),
                    *b,
                    depth as int,
                    best as int,
                    true,
                    v as int,
                )
            })),
        decreases
                depth,
                if b.can_move() {
                    1int
                } else {
                    2int
                },
                1int,
    {
        self.nodes = self.nodes.wrapping_add(1);
        if self.should_stop() {
            return None;
        }
        let ghost e = *evaluator;
        let ghost cuts = self.cuts();
        let ghost (d, low0, high0) = (depth as int, alpha0 as int, beta0 as int);
        let ghost truth = nn_value(e, *b, depth as nat);
        let ghost shallow = depth == 1 && alpha0 + 1 < beta0 && old(self).unknown(*b);
        let ghost start = Fact { cuts, board: *b, depth: d, low: true, bound: 0 };
        let moves: u64 = b.movable();
        proof {
            lemma_final_score(*b);
            lemma_passed_wf(*b);
            rules.lemma_covers_next(start);
            assert(b.passed().passed() == *b);
        }
        if moves == 0 {
            let mut nb: Board = *b;
            nb.pass();
            if nb.movable() == 0 {
                let v: i32 = final_score_discs(b) * FINISHED;
                proof {
                    rules.lemma_known(cuts, *b, d, low0, high0, v as int);
                }
                return Some(v);
            }
            if depth == 0 {
                let v: i32 = evaluator.eval_indices(b, indices);
                proof {
                    rules.lemma_known(cuts, *b, d, low0, high0, v as int);
                }
                return Some(v);
            }
            return match self.node(
                evaluator,
                &nb,
                indices,
                depth,
                -beta0,
                -alpha0,
                Ghost(rules),
                Ghost(key),
                Ghost(cap),
            ) {
                None => None,
                Some(raw) => {
                    proof {
                        rules.lemma_passed(cuts, *b, d, low0, high0, raw as int);
                    }
                    Some(-raw)
                },
            };
        }
        if depth == 0 {
            let v: i32 = evaluator.eval_indices(b, indices);
            proof {
                rules.lemma_known(cuts, *b, d, low0, high0, v as int);
            }
            return Some(v);
        }
        if depth == 1 && beta0 <= alpha0 + 1 {
            return Some(self.eval1_nws(evaluator, b, indices, alpha0, Ghost(rules)));
        }
        let hash: u64 = board_hash(b.player_bb(), b.opponent_bb());
        let mut alpha: i32 = alpha0;
        let mut beta: i32 = beta0;
        let t: TtEntry = self.tt.get(hash);
        let tt_move: u8 = t.best;
        let tt_move2: u8 = t.best2;
        let ghost (low, high) = (
            Fact { cuts, board: *b, depth: d, low: true, bound: 0 },
            Fact { cuts, board: *b, depth: d, low: false, bound: 0 },
        );
        proof {
            if t.used {
                if depth == cap + 1 && key == hash && old(self).near(key, cap) {
                    lemma_entry_near(*self, hash, cap);
                }
                lemma_entry_backed(rules, self.tt, hash);
            }
        }
        if t.used && t.depth as u32 >= depth && t.relax >= self.mpc_relax {
            let w: Window = narrowed(&t, alpha, beta);
            proof {
                if t.lower > -INF {
                    rules.lemma_from_table(Note::of(t, true), (Fact { bound: t.lower as int, ..low }));
                }
                if t.upper < INF {
                    rules.lemma_from_table(Note::of(t, false), (Fact { bound: t.upper as int, ..high }));
                }
            }
            match w {
                Window::Known(v) => {
                    return Some(v);
                },
                Window::Open(l, h) => {
                    alpha = l;
                    beta = h;
                },
            }
        }
        assert(alpha > alpha0 ==> rules.vouched(noted((Fact { bound: alpha as int, ..low })))
            && rules.shown((Fact { bound: alpha as int, ..low })));
        assert(beta < beta0 ==> rules.vouched(noted((Fact { bound: beta as int, ..high })))
            && rules.shown((Fact { bound: beta as int, ..high })));
        if self.mpc && depth >= self.mpc_min_depth && depth >= 3 && self.probcut_level
            < MPC_MAX_LEVEL && alpha > -INF && beta < INF && beta <= alpha + 1 {
            match self.probcut(
                evaluator,
                b,
                indices,
                depth,
                alpha,
                beta,
                Ghost(rules),
                Ghost(key),
                Ghost(cap),
            ) {
                Probe::Aborted => {
                    return None;
                },
                Probe::Cut(v) => {
                    return Some(v);
                },
                Probe::Open => {},
            }
        }
        let ghost alpha1 = alpha;
        let mut best: i32 = -INF;
        let mut best_move: u8 = NO_MOVE;
        let mut rest: u64 = moves;
        let mut first: bool = true;
        proof {
            lemma_moves(*b);
        }
        if tt_move < 64 && depth >= 2 && count_ones(moves) > 1 && test_bit(moves, tt_move) {
            let pos = Position(tt_move);
            match self.try_move(
                evaluator,
                b,
                indices,
                pos,
                depth,
                alpha,
                beta,
                Ghost(rules),
                Ghost(key),
                Ghost(cap),
            ) {
                None => {
                    return None;
                },
                Some(v) => {
                    best = v;
                },
            }
            best_move = tt_move;
            if best > alpha {
                alpha = best;
            }
            rest = moves & !pos.to_bit();
            first = false;
        }
        let ghost done = if first {
            -1int
        } else {
            best_move as int
        };
        proof {
            broadcast use group_bits;

            assert forall|s: int| 0 <= s < 64 implies #[trigger] bit(rest, s) == (b.legal(s) && s
                != done) by {
                if !first {
                    assert(bit(1u64 << (done as u64), s) == (s == done));
                    assert(bit(!(1u64 << (done as u64)), s) == (s != done));
                }
            }
        }
        let mut cut: bool = alpha >= beta;
        if !cut && rest != 0 {
            let kids: Vec<Kid> = self.line_up(
                evaluator,
                b,
                indices,
                depth,
                rest,
                beta <= alpha + 1,
                tt_move,
                tt_move2,
            );
            let mut i: usize = 0;
            while i < kids.len() && !cut
                invariant
                    self.wf(),
                    self.same_setting(*old(self)),
                    evaluator.valid(),
                    *evaluator == e,
                    b.wf(),
                    evaluator.tables().holds(*indices, b.black, b.white),
                    depth > 0,
                    d == depth,
                    b.can_move(),
                    cuts == old(self).cuts(),
                    self.keeps(e, rules),
                    !lowered(old(self).stop) ==> self.abort_countdown < old(self).abort_countdown,
                    start == (Fact { cuts, board: *b, depth: d, low: true, bound: 0 }),
                    rules.covers(start),
                    forall|s: int| 0 <= s < 64 ==> #[trigger] bit(rest, s) == (b.legal(s) && s != done),
                    depth <= cap + 1 && depth < 256 && old(self).near(key, cap) ==> self.near(key, cap),
                    kids_fit(kids@, *b, rest),
                    i <= kids@.len(),
                    -INF <= alpha0 <= alpha1 <= alpha <= INF,
                    alpha1 < beta <= beta0 <= INF,
                    -INF <= best <= INF,
                    best_move < 64 ==> b.legal(best_move as int),
                    alpha == if best > alpha1 {
                        best
                    } else {
                        alpha1
                    },
                    cut == (alpha >= beta),
                    !cut ==> forall|k: int|
                        0 <= k < i ==> told(
                            rules,
                            cuts,
                            *b,
                            d,
                            (#[trigger] kids@[k]).pos.0 as int,
                            false,
                            best as int,
                        ),
                    !cut && 0 <= done ==> b.legal(done) && told(
                        rules,
                        cuts,
                        *b,
                        d,
                        done,
                        false,
                        best as int,
                    ),
                    best > alpha1 ==> best_move < 64 && told(
                        rules,
                        cuts,
                        *b,
                        d,
                        best_move as int,
                        true,
                        best as int,
                    ),
                    done < 64,
                decreases kids@.len() - i,
            {
                let kid: Kid = kids[i];
                assert(kids@[i as int].pos.wf());
                let pos: Position = kid.pos;
                let ghost (sq, was) = (pos.0 as int, best as int);
                let ghost mut most: int = 0;
                let top: i32 = if first {
                    beta
                } else {
                    alpha + 1
                };
                let mut g: i32 = 0;
                match self.try_move(
                    evaluator,
                    b,
                    indices,
                    pos,
                    depth,
                    alpha,
                    top,
                    Ghost(rules),
                    Ghost(key),
                    Ghost(cap),
                ) {
                    None => {
                        return None;
                    },
                    Some(v) => {
                        g = v;
                    },
                }
                proof {
                    most = g as int;
                }
                if g > best {
                    best = g;
                    best_move = pos.0;
                }
                if !first && g > alpha && g < beta {
                    alpha = g;
                    match self.try_move(
                        evaluator,
                        b,
                        indices,
                        pos,
                        depth,
                        alpha,
                        beta,
                        Ghost(rules),
                        Ghost(key),
                        Ghost(cap),
                    ) {
                        None => {
                            return None;
                        },
                        Some(v) => {
                            proof {
                                most = v as int;
                            }
                            if v > best {
                                best = v;
                                best_move = pos.0;
                            }
                        },
                    }
                }
                if best > alpha {
                    alpha = best;
                }
                if alpha >= beta {
                    cut = true;
                }
                proof {
                    if !cut {
                        lemma_told_weaker(rules, cuts, *b, d, sq, false, most, best as int);
                        assert forall|k: int| 0 <= k < i + 1 implies told(
                            rules,
                            cuts,
                            *b,
                            d,
                            (#[trigger] kids@[k]).pos.0 as int,
                            false,
                            best as int,
                        ) by {
                            if k < i {
                                assert(kids@[k].pos.wf());
                                lemma_told_weaker(
                                    rules,
                                    cuts,
                                    *b,
                                    d,
                                    kids@[k].pos.0 as int,
                                    false,
                                    was,
                                    best as int,
                                );
                            }
                        }
                        if 0 <= done {
                            lemma_told_weaker(rules, cuts, *b, d, done, false, was, best as int);
                        }
                    }
                }
                first = false;
                i = i + 1;
            }
            proof {
                if !cut {
                    assert forall|s: int| 0 <= s < 64 && #[trigger] b.legal(s) implies told(
                        rules,
                        cuts,
                        *b,
                        d,
                        s,
                        false,
                        best as int,
                    ) by {
                        if s != done {
                            assert(bit(rest, s));
                            let k = choose|k: int|
                                0 <= k < kids@.len() && (#[trigger] kids@[k]).pos.0 == s;
                            assert(told(
                                rules,
                                cuts,
                                *b,
                                d,
                                kids@[k].pos.0 as int,
                                false,
                                best as int,
                            ));
                        }
                    }
                }
            }
        } else {
            proof {
                if !cut {
                    assert forall|s: int| 0 <= s < 64 && #[trigger] b.legal(s) implies told(
                        rules,
                        cuts,
                        *b,
                        d,
                        s,
                        false,
                        best as int,
                    ) by {
                        lemma_bit_zero(s);
                        assert(!bit(rest, s));
                        assert(s == done);
                    }
                }
            }
        }
        let f = Finding {
            hash,
            depth: depth as u8,
            relax: self.mpc_relax,
            alpha: alpha0,
            beta: beta0,
            value: best,
            best: best_move,
        };
        proof {
            let v = best as int;
            assert((depth as u8) <= depth) by (bit_vector);
            if best > alpha1 {
                lemma_told_low(rules, cuts, *b, d, best_move as int, v);
            } else if best > alpha0 {
                rules.lemma_note(
                    noted((Fact { bound: alpha1 as int, ..low })),
                    noted((Fact { bound: v, ..low })),
                );
            }
            if best < beta {
                assert(!cut);
                lemma_told_high(rules, cuts, *b, d, v);
            } else if best < beta0 {
                rules.lemma_note(
                    noted((Fact { bound: beta as int, ..high })),
                    noted((Fact { bound: v, ..high })),
                );
            }
            if best > alpha0 {
                rules.lemma_from_table(noted((Fact { bound: v, ..low })), (Fact { bound: v, ..low }));
                rules.lemma_note(noted((Fact { bound: v, ..low })), f.note(true));
            }
            if best < beta0 {
                rules.lemma_from_table(noted((Fact { bound: v, ..high })), (Fact { bound: v, ..high }));
                rules.lemma_note(noted((Fact { bound: v, ..high })), f.note(false));
            }
            if shallow {
                lemma_nn_reached(e, *b, 1);
                if best > alpha0 {
                    lemma_told_one(rules, cuts, *b, best_move as int, true, v);
                }
                if best < beta0 {
                    let s = choose|s: int|
                        0 <= s < 64 && #[trigger] b.legal(s) && nn_move(e, *b, 1, s) == truth;
                    lemma_told_one(rules, cuts, *b, s, false, v);
                }
            }
        }
        self.keep::<E>(f, Ghost(rules), Ghost(key), Ghost(cap));
        Some(best)
    }

    /// Search the position after a move with a window, as the mover sees it.
    fn try_move<E: LeafEval>(
        &mut self,
        evaluator: &E,
        b: &Board,
        indices: &PatternIndices,
        pos: Position,
        depth: u32,
        alpha: i32,
        beta: i32,
        Ghost(rules): Ghost<Rules<E>>,
        Ghost(key): Ghost<u64>,
        Ghost(cap): Ghost<int>,
    ) -> (r: Option<i32>)
        requires
            old(self).wf(),
            evaluator.valid(),
            b.wf(),
            evaluator.tables().holds(*indices, b.black, b.white),
            pos.wf(),
            b.legal(pos.0 as int),
            depth > 0,
            -INF <= alpha < beta <= INF,
            old(self).keeps(*evaluator, rules),
            rules.covers(
                (Fact {
                    cuts: old(self).cuts(),
                    board: *b,
                    depth: depth as int,
                    low: true,
                    bound: 0,
                }),
            ),
        ensures
            final(self).wf(),
            final(self).same_setting(*old(self)),
            rules.backs_all(final(self).tt.slots@),
            old(self).stop is None ==> r is Some,
            r is None ==> raised(old(self).stop),
            !lowered(old(self).stop) && r is Some ==> final(self).abort_countdown
                < old(self).abort_countdown,
            r matches Some(v) ==> -INF <= v <= INF,
            depth <= cap + 1 && depth < 256 && old(self).near(key, cap) ==> final(self).near(key, cap),
            r matches Some(v) ==> {
                let (cuts, d, s) = (old(self).cuts(), depth as int, pos.0 as int);
                &&& v > alpha ==> told(rules, cuts, *b, d, s, true, v as int)
                &&& v < beta ==> told(rules, cuts, *b, d, s, false, v as int)
            },
        decreases depth, 0int, 0int,
    {
        proof {
            lemma_wf_sides(*b);
            lemma_after_wf(*b, pos.0 as int);
        }
        let mut nb: Board = *b;
        let flipped: u64 = nb.make_move_bits(pos);
        let ix: PatternIndices = child_indices(evaluator.indexer(), b, indices, pos, flipped);
        let ghost f = Fact {
            cuts: self.cuts(),
            board: *b,
            depth: depth as int,
            low: true,
            bound: 0,
        };
        proof {
            rules.lemma_covers_next(f);
            assert(rules.covers(f.after(pos.0 as int)));
        }
        match self.node(
            evaluator,
            &nb,
            &ix,
            depth - 1,
            -beta,
            -alpha,
            Ghost(rules),
            Ghost(key),
            Ghost(cap),
        ) {
            None => None,
            Some(raw) => {
                proof {
                    reveal(told);
                    assert((Fact { bound: -raw, ..f }).after(pos.0 as int) == (Fact {
                        bound: raw as int,
                        ..f.after(pos.0 as int)
                    }));
                }
                Some(-raw)
            },
        }
    }

    /// The moves of a node in the order in which they are searched.
    fn line_up<E: LeafEval>(
        &self,
        evaluator: &E,
        b: &Board,
        indices: &PatternIndices,
        depth: u32,
        moves: u64,
        null_window: bool,
        tt_move: u8,
        tt_move2: u8,
    ) -> (v: Vec<Kid>)
        requires
            evaluator.valid(),
            b.wf(),
            evaluator.tables().holds(*indices, b.black, b.white),
            forall|s: int| 0 <= s < 64 && #[trigger] bit(moves, s) ==> b.legal(s),
        ensures
            kids_fit(v@, *b, moves),
            v@.len() == squares(moves).len(),
            depth >= 2 && count(moves) > 1 ==> forall|i: int, j: int|
                0 <= i < j < v@.len() ==> v@[i].key >= v@[j].key,
            depth < 2 ==> forall|i: int| 0 <= i < v@.len() && (#[trigger] v@[i]).pos.0 == tt_move ==> v@[0].pos.0 == tt_move,
    {
        if depth >= 2 && count_ones(moves) > 1 {
            let o = MoveOrder {
                by_value: depth >= self.eval_order_depth,
                null_window,
                tt_move: NO_MOVE,
                tt_move2,
            };
            return ordered_into(evaluator, b, indices, moves, &o);
        }
        let mut v: Vec<Kid> = listed_kids(b, moves);
        let ghost before = v@;
        let n: usize = v.len();
        let mut i: usize = 0;
        while i < n
            invariant
                v@ == before,
                kids_fit(before, *b, moves),
                before.len() == squares(moves).len(),
                depth < 2 || count(moves) <= 1,
                n == v@.len(),
                i <= n,
                forall|k: int| 0 <= k < i ==> (#[trigger] v@[k]).pos.0 != tt_move,
            decreases n - i,
        {
            if v[i].pos.0 == tt_move {
                let a: Kid = v[0];
                let c: Kid = v[i];
                v.set(0, c);
                v.set(i, a);
                proof {
                    assert forall|s: int| 0 <= s < 64 && #[trigger] bit(moves, s) implies exists|
                        k: int,
                    |
                        0 <= k < v@.len() && (#[trigger] v@[k]).pos.0 == s by {
                        let k = choose|k: int|
                            0 <= k < before.len() && (#[trigger] before[k]).pos.0 == s;
                        if k == 0 {
                            assert(v@[i as int].pos.0 == s);
                        } else if k == i {
                            assert(v@[0].pos.0 == s);
                        } else {
                            assert(v@[k].pos.0 == s);
                        }
                    }
                    assert forall|k: int| 0 <= k < v@.len() implies (#[trigger] v@[k]).pos.wf()
                        && bit(moves, v@[k].pos.0 as int) && b.legal(v@[k].pos.0 as int)
                        && v@[k].flipped == b.flips(v@[k].pos.0 as int) by {
                        assert(before[k].pos.wf());
                        assert(before[0].pos.wf());
                        assert(before[i as int].pos.wf());
                    }
                }
                return v;
            }
            i = i + 1;
        }
        v
    }
}

/// The rules vouch for what the table says of a position.
proof fn lemma_entry_backed<E: LeafEval>(r: Rules<E>, tt: SharedTt, hash: u64)
    requires
        tt.wf(),
        r.backs_all(tt.slots@),
    ensures
        tt.entry(hash).used ==> r.backs(tt.entry(hash)),
        tt.entry(hash).used ==> tt.entry(hash).key == hash,
{
    let bucket = tt.bucket(hash);
    let mask = tt.mask;
    lemma_masked(hash, mask);
    lemma_slot_for(bucket, hash, 0);
    let i = slot_for(bucket, hash, 0);
    if i < 4 {
        assert(bucket[i] == tt.slots@[tt.base(hash) + i]);
    }
}

/// What the table says of a position was not searched deeper than what is kept
/// where its key belongs.
proof fn lemma_entry_near(s: NnueSearch, hash: u64, cap: int)
    requires
        s.tt.wf(),
        s.near(hash, cap),
        s.tt.entry(hash).used,
    ensures
        s.tt.entry(hash).depth <= cap,
{
    let tt = s.tt;
    let bucket = tt.bucket(hash);
    let mask = tt.mask;
    lemma_masked(hash, mask);
    lemma_slot_for(bucket, hash, 0);
    let i = slot_for(bucket, hash, 0);
    if i < 4 {
        assert(bucket[i] == tt.slots@[tt.base(hash) + i]);
    }
}

/// How deep the positions were searched that are kept where a key belongs.
proof fn lemma_deepest(s: NnueSearch, key: u64)
    ensures
        s.deepest(key) >= 0,
        forall|cap: int| cap >= s.deepest(key) ==> #[trigger] s.near(key, cap),
{
    let n = s.tt.base(key);
    assert forall|cap: int| cap >= s.deepest(key) implies #[trigger] s.near(key, cap) by {
        assert forall|i: int| n <= i < n + 4 && (#[trigger] s.tt.slots@[i]).used implies s.tt.slots@[i].depth
            <= cap by {
            assert(i == n || i == n + 1 || i == n + 2 || i == n + 3);
        }
    }
}

/// A finding keeps the depths below a cap that is not below its own.
proof fn lemma_table_near(before: NnueSearch, after: NnueSearch, f: Finding, key: u64, cap: int)
    requires
        before.tt.wf(),
        after.tt.wf(),
        after.tt.mask == before.tt.mask,
        after.tt.bucket(f.hash) == put_in(before.tt.bucket(f.hash), f),
        forall|k: int|
            0 <= k < before.tt.slots@.len() && !(before.tt.base(f.hash) <= k < before.tt.base(
                f.hash,
            ) + 4) ==> #[trigger] after.tt.slots@[k] == before.tt.slots@[k],
        f.depth <= cap,
        before.near(key, cap),
    ensures
        after.near(key, cap),
{
    let base = before.tt.base(f.hash);
    let mask = before.tt.mask;
    lemma_masked(f.hash, mask);
    lemma_masked(key, mask);
    let old_bucket = before.tt.bucket(f.hash);
    let new_bucket = after.tt.bucket(f.hash);
    let at = after.tt.base(key);
    assert forall|k: int|
        at <= k < at + 4 && (
        #[trigger] after.tt.slots@[k]).used implies after.tt.slots@[k].depth <= cap by {
        if base <= k < base + 4 {
            lemma_put_slots(old_bucket, f, k - base);
            assert(new_bucket[k - base] == after.tt.slots@[k]);
            assert(old_bucket[k - base] == before.tt.slots@[k]);
        } else {
            assert(after.tt.slots@[k] == before.tt.slots@[k]);
        }
    }
}

/// What an iterated search came to.
#[derive(Clone, Copy, Debug)]
pub struct Deepened {
    pub best_move: Option<Position>,
    /// The value of the last iteration that was finished.
    pub value: Option<i32>,
    /// Its depth; 0 where none was finished.
    pub depth: u32,
}

/// A later horizon asks less of the table and more of the positions.
proof fn lemma_horizons<E: LeafEval>(slots: Seq<TtEntry>, set: Set<Board>, e: E, h: int, k: int)
    requires
        h <= k,
    ensures
        ground(set, e, k) ==> ground(set, e, h),
        h < k && slots_right(slots, set, e, h) ==> slots_right(slots, set, e, k),
{
    if h < k && slots_right(slots, set, e, h) {
        assert forall|i: int| 0 <= i < slots.len() implies (#[trigger] slots[i]).right(
            set,
            e,
            k,
        ) by {
            assert(slots[i].right(set, e, h));
        }
    }
}

/// A set of positions by which a search of `b` to `depth` is exact.
pub open spec fn settles<E: LeafEval>(
    s: NnueSearch,
    set: Set<Board>,
    e: E,
    b: Board,
    depth: int,
) -> bool {
    s.exact(set, e, discs(b) + depth, b, depth) && knows_end(set, e, discs(b) + depth)
}

/// A set of positions by which iteration `depth` of a search of `b` is exact:
/// nothing that the table held of them at the start was searched beyond `b`.
pub open spec fn settles_iteration<E: LeafEval>(
    s: NnueSearch,
    set: Set<Board>,
    e: E,
    b: Board,
    depth: int,
) -> bool {
    &&& s.unreduced(depth)
    &&& ground(set, e, discs(b) + depth)
    &&& set.contains(b)
    &&& slots_right(s.tt.slots@, set, e, discs(b) as int)
    &&& knows_end(set, e, discs(b) + depth)
}

/// Iteration `depth` of a search of `b` is exact.
pub open spec fn settled<E: LeafEval>(s: NnueSearch, e: E, b: Board, depth: int) -> bool {
    exists|set: Set<Board>| #[trigger] settles_iteration(s, set, e, b, depth)
}

/// What an iteration says of `b` is backed by what the search may say: by
/// evaluations, by the table as it was, and by reduced searches that cleared
/// their margins.
pub open spec fn backed_value<E: LeafEval>(s: NnueSearch, e: E, b: Board, depth: int, v: int) -> bool {
    s.rules(e, b, discs(b) + depth).backed(s.cuts(), b, depth, -INF as int, INF as int, v)
}

/// The move tells that `b` is worth `v` at least.
pub open spec fn backed_move<E: LeafEval>(
    s: NnueSearch,
    e: E,
    b: Board,
    depth: int,
    v: int,
    m: int,
) -> bool {
    s.rules(e, b, discs(b) + depth).shown(
        (Fact { cuts: s.cuts(), board: b, depth, low: true, bound: v }).after(m),
    )
}

/// What an iterated search of `b` to `depth` comes to, from the state `s`: a
/// legal move where there is one, and the value of the last iteration that was
/// finished; the last one of all, unless the search can be stopped.
///
/// The value is backed by what the search may say, and so is the move, unless
/// something that was searched as deep is kept where the position belongs in the
/// table. An iteration of one ply is exact then in any case. Without reduced
/// searches the value is the exact one for its depth, and the move reaches it, if
/// some set of positions settles the iteration.
pub open spec fn found<E: LeafEval>(s: NnueSearch, e: E, b: Board, depth: u32, r: Deepened) -> bool {
    let fresh = s.deepest(view_hash(b)) < r.depth < 256;
    &&& r.best_move is Some == b.can_move()
    &&& r.best_move matches Some(p) ==> p.wf() && b.legal(p.0 as int)
    &&& r.value matches Some(v) ==> -INF <= v <= INF
    &&& !b.can_move() ==> r.value is None && r.depth == 0
    &&& r.value is Some == (r.depth > 0)
    &&& r.depth <= depth
    &&& b.can_move() && s.stop is None ==> r.depth == depth
    &&& b.can_move() && r.depth < depth ==> raised(s.stop)
    &&& r.depth > 0 ==> lowered(s.stop)
    &&& r.value matches Some(v) ==> backed_value(s, e, b, r.depth as int, v as int)
    &&& fresh ==> (r.value matches Some(v) ==> v > -INF ==> (r.best_move matches Some(p)
        && backed_move(s, e, b, r.depth as int, v as int, p.0 as int)))
    &&& r.depth > 0 && settled(s, e, b, r.depth as int) ==> r.value == Some(
        nn_value(e, b, r.depth as nat) as i32,
    )
    &&& r.depth > 0 && fresh && settled(s, e, b, r.depth as int) ==> (r.best_move matches Some(p)
        && nn_move(e, b, r.depth as nat, p.0 as int) == nn_value(e, b, r.depth as nat))
    &&& r.depth == 1 && fresh ==> r.value == Some(nn_value(e, b, 1) as i32) && (
    r.best_move matches Some(p) && nn_move(e, b, 1, p.0 as int) == nn_value(e, b, 1))
}

/// A search goes to the depth that was asked for and comes to a value and a legal
/// move, whatever the depth, unless the flag was seen up; one during which it was
/// never seen down finished no iteration.
pub proof fn law_unstopped_search_is_whole<E: LeafEval>(
    s: NnueSearch,
    e: E,
    b: Board,
    depth: u32,
    r: Deepened,
)
    requires
        found(s, e, b, depth, r),
        b.can_move(),
    ensures
        !raised(s.stop) ==> r.depth == depth,
        !raised(s.stop) && depth > 0 ==> r.value is Some,
        !lowered(s.stop) ==> r.depth == 0 && r.value is None,
        r.best_move matches Some(p) && b.legal(p.0 as int),
{
}

/// The value of a search is backed from both sides, reduced searches or not: the search
/// may say that the position is worth as much at least, and that it is worth no more.
/// The move is backed as well, where nothing searched as deep was known of the
/// position: after it the other side is worth no more than that, the other way round.
pub proof fn law_search_value_is_backed<E: LeafEval>(
    s: NnueSearch,
    e: E,
    b: Board,
    depth: u32,
    r: Deepened,
)
    requires
        found(s, e, b, depth, r),
    ensures
        r.value matches Some(v) ==> {
            let rules = s.rules(e, b, discs(b) + r.depth);
            &&& v > -INF ==> rules.shown(
                Fact { cuts: s.cuts(), board: b, depth: r.depth as int, low: true, bound: v as int },
            )
            &&& v < INF ==> rules.shown(
                Fact { cuts: s.cuts(), board: b, depth: r.depth as int, low: false, bound: v as int },
            )
            &&& v > -INF && s.deepest(view_hash(b)) < r.depth < 256 ==> (r.best_move matches Some(p)
                && rules.shown(
                Fact {
                    cuts: s.cuts(),
                    board: b.after(p.0 as int),
                    depth: r.depth - 1,
                    low: false,
                    bound: -v,
                },
            ))
        },
        r.depth == 1 && s.deepest(view_hash(b)) == 0 ==> r.value == Some(nn_value(e, b, 1) as i32),
{
    if let Some(v) = r.value {
        if let Some(p) = r.best_move {
            let f = Fact { cuts: s.cuts(), board: b, depth: r.depth as int, low: true, bound: v as int };
            assert(f.after(p.0 as int) == (Fact {
                cuts: s.cuts(),
                board: b.after(p.0 as int),
                depth: r.depth - 1,
                low: false,
                bound: -v,
            }));
        }
    }
}

/// An unstopped search that some set of positions settles finds what the best move
/// is worth: no move is worth more, and the one that it names is worth as much,
/// where nothing searched as deep was known of the position.
pub proof fn law_settled_search_finds_the_best<E: LeafEval>(
    s: NnueSearch,
    e: E,
    b: Board,
    depth: u32,
    r: Deepened,
)
    requires
        e.valid(),
        b.wf(),
        found(s, e, b, depth, r),
        b.can_move(),
        !raised(s.stop),
        0 < depth,
        settled(s, e, b, depth as int),
    ensures
        r.value matches Some(v) && {
            &&& forall|m: int|
                0 <= m < 64 && #[trigger] b.legal(m) ==> -nn_value(
                    e,
                    b.after(m),
                    (depth - 1) as nat,
                ) <= v
            &&& exists|m: int|
                0 <= m < 64 && #[trigger] b.legal(m) && -nn_value(
                    e,
                    b.after(m),
                    (depth - 1) as nat,
                ) == v
            &&& s.deepest(view_hash(b)) < depth < 256 ==> (r.best_move matches Some(p)
                && b.legal(p.0 as int) && -nn_value(e, b.after(p.0 as int), (depth - 1) as nat)
                == v)
        },
{
    law_midgame_value_is_the_best_move(e, b, depth as nat);
    lemma_nn_bound(e, b, depth as nat);
}

impl NnueSearch {
    /// Search a position to `depth` with a window. There is no result when the
    /// search was stopped. The result is backed by what the search may say: by
    /// evaluations and finished games, by the table as it was, and by reduced
    /// searches that cleared their margins. Without reduced searches it is exact
    /// inside the window and a bound outside it, if some set of positions settles
    /// the search: the keys tell its positions apart, and the table is right
    /// about them. A search of no ply is exact in any case, and one of a single
    /// ply where the window is wider than one unit and the table knows nothing of
    /// the position. Table bounds that cross are left out of the window: it would
    /// be empty, and the value of one move would stand for all.
    pub fn negamax<E: LeafEval>(
        &mut self,
        evaluator: &E,
        b: &Board,
        indices: &PatternIndices,
        depth: u32,
        alpha: i32,
        beta: i32,
    ) -> (r: Option<i32>)
        requires
            old(self).wf(),
            evaluator.valid(),
            b.wf(),
            evaluator.tables().holds(*indices, b.black, b.white),
            -INF <= alpha < beta <= INF,
        ensures
            final(self).wf(),
            final(self).same_setting(*old(self)),
            old(self).stop is None ==> r is Some,
            r is None ==> raised(old(self).stop),
            !lowered(old(self).stop) && r is Some ==> final(self).abort_countdown
                < old(self).abort_countdown,
            r matches Some(v) ==> -INF <= v <= INF,
            r matches Some(v) ==> old(self).rules(*evaluator, *b, discs(*b) + depth).backed(
                old(self).cuts(),
                *b,
                depth as int,
                alpha as int,
                beta as int,
                v as int,
            ),
            (exists|set: Set<Board>| #[trigger]
                settles(*old(self), set, *evaluator, *b, depth as int)) ==> (r matches Some(v)
                ==> fits_window(
                v as int,
                nn_value(*evaluator, *b, depth as nat),
                alpha as int,
                beta as int,
            )),
            depth == 0 ==> (r matches Some(v) ==> v == nn_value(*evaluator, *b, 0)),
            depth == 1 && alpha + 1 < beta && old(self).unseen(*b)
                ==> (r matches Some(v) ==> fits_window(
                v as int,
                nn_value(*evaluator, *b, 1),
                alpha as int,
                beta as int,
            )),
    {
        let ghost set = choose|set: Set<Board>| #[trigger]
            settles(*old(self), set, *evaluator, *b, depth as int);
        let ghost h = discs(*b) + depth;
        let ghost rules = self.rules(*evaluator, *b, h);
        let ghost cuts = self.cuts();
        proof {
            rules.lemma_start();
            lemma_comes_next(*b, *b);
        }
        let r: Option<i32> = self.node(
            evaluator,
            b,
            indices,
            depth,
            alpha,
            beta,
            Ghost(rules),
            Ghost(0),
            Ghost(0),
        );
        proof {
            if r is Some && (exists|set: Set<Board>| #[trigger]
                settles(*old(self), set, *evaluator, *b, depth as int)) {
                lemma_right_result(
                    rules,
                    set,
                    *b,
                    cuts,
                    alpha as int,
                    beta as int,
                    r.unwrap() as int,
                );
            }
        }
        r
    }

    /// The move has the highest key of all.
    pub open spec fn leads<E: LeafEval>(self, e: E, b: Board, m: int) -> bool {
        let o = MoveOrder {
            by_value: 1 >= self.eval_order_depth,
            null_window: false,
            tt_move: NO_MOVE,
            tt_move2: NO_MOVE,
        };
        forall|s: int|
            0 <= s < 64 && #[trigger] b.legal(s) ==> order_key(e, b, s, o) <= order_key(e, b, m, o)
    }

    /// The move is the one that the table holds of the position, if it is one
    /// there, else the first in order.
    pub open spec fn picks<E: LeafEval>(self, e: E, b: Board, m: Option<Position>) -> bool {
        let best = self.tt.entry(view_hash(b)).best;
        if best < 64 && b.legal(best as int) {
            m == Some(Position(best))
        } else {
            m matches Some(p) ==> self.leads(e, b, p.0 as int)
        }
    }

    /// The move that the table holds of a position, if it is one there, else the
    /// first in order.
    fn root_best<E: LeafEval>(&self, evaluator: &E, b: &Board, indices: &PatternIndices) -> (m:
        Option<Position>)
        requires
            self.wf(),
            evaluator.valid(),
            b.wf(),
            evaluator.tables().holds(*indices, b.black, b.white),
        ensures
            m is Some == b.can_move(),
            m matches Some(p) ==> p.wf() && b.legal(p.0 as int),
            self.picks(*evaluator, *b, m),
    {
        let hash: u64 = board_hash(b.player_bb(), b.opponent_bb());
        let t: TtEntry = self.tt.get(hash);
        let moves: u64 = b.movable();
        proof {
            lemma_moves(*b);
        }
        if t.best < 64 && test_bit(moves, t.best) {
            return Some(Position(t.best));
        }
        let o = MoveOrder {
            by_value: 1 >= self.eval_order_depth,
            null_window: false,
            tt_move: NO_MOVE,
            tt_move2: NO_MOVE,
        };
        let kids: Vec<Kid> = ordered_into(evaluator, b, indices, moves, &o);
        if kids.len() > 0 {
            assert(kids@[0].pos.wf());
            proof {
                let m = kids@[0].pos.0 as int;
                assert forall|s: int| 0 <= s < 64 && #[trigger] b.legal(s) implies order_key(
                    *evaluator,
                    *b,
                    s,
                    o,
                ) <= order_key(*evaluator, *b, m, o) by {
                    assert(bit(moves, s));
                    let k = choose|k: int| 0 <= k < kids@.len() && (#[trigger] kids@[k]).pos.0 == s;
                    assert(kids@[0].key >= kids@[k].key);
                    assert(kids@[k].key == order_key(*evaluator, *b, s, o));
                    assert(kids@[0].key == order_key(*evaluator, *b, m, o));
                }
            }
            Some(kids[0].pos)
        } else {
            proof {
                if b.can_move() {
                    let s = choose|s: int| 0 <= s < 64 && #[trigger] b.legal(s);
                    assert(bit(moves, s));
                }
            }
            None
        }
    }

    /// One iteration: the position searched to `depth` with the full window.
    /// There is no value when the search was stopped.
    pub fn pass_at<E: LeafEval>(&mut self, evaluator: &E, b: &Board, depth: u32) -> (r: (
        Option<Position>,
        Option<i32>,
    ))
        requires
            old(self).wf(),
            evaluator.valid(),
            b.wf(),
        ensures
            final(self).wf(),
            final(self).same_setting(*old(self)),
            old(self).stop is None ==> r.1 is Some,
            r.1 is None ==> raised(old(self).stop),
            !lowered(old(self).stop) && r.1 is Some ==> final(self).abort_countdown
                < old(self).abort_countdown,
            r.0 is Some == b.can_move(),
            r.0 matches Some(p) ==> p.wf() && b.legal(p.0 as int),
            final(self).picks(*evaluator, *b, r.0),
            r.1 matches Some(v) ==> -INF <= v <= INF,
            r.1 matches Some(v) ==> backed_value(
                *old(self),
                *evaluator,
                *b,
                depth as int,
                v as int,
            ),
            0 < depth && old(self).deepest(view_hash(*b)) < depth < 256 && b.can_move() ==> (
            r.1 matches Some(v) ==> v > -INF ==> (r.0 matches Some(p) && backed_move(
                *old(self),
                *evaluator,
                *b,
                depth as int,
                v as int,
                p.0 as int,
            ))),
            (exists|set: Set<Board>| #[trigger]
                settles(*old(self), set, *evaluator, *b, depth as int)) ==> (r.1 matches Some(v)
                ==> v == nn_value(*evaluator, *b, depth as nat)),
    {
        let indices: PatternIndices = evaluator.indexer().init(b.black, b.white);
        let ghost set = choose|set: Set<Board>| #[trigger]
            settles(*old(self), set, *evaluator, *b, depth as int);
        let ghost rules = self.rules(*evaluator, *b, discs(*b) + depth);
        let ghost cuts = self.cuts();
        let ghost key = view_hash(*b);
        proof {
            lemma_nn_bound(*evaluator, *b, depth as nat);
            rules.lemma_start();
            lemma_comes_next(*b, *b);
            lemma_deepest(*self, key);
            assert(self.deepest(key) < depth ==> self.near(key, depth - 1));
        }
        let v: Option<i32> = self.node(
            evaluator,
            b,
            &indices,
            depth,
            -INF,
            INF,
            Ghost(rules),
            Ghost(key),
            Ghost(depth - 1),
        );
        proof {
            reveal(told);
            if v is Some && (exists|set: Set<Board>| #[trigger]
                settles(*old(self), set, *evaluator, *b, depth as int)) {
                lemma_right_result(rules, set, *b, cuts, -INF as int, INF as int, v.unwrap() as int);
            }
        }
        (self.root_best(evaluator, b, &indices), v)
    }

    /// The best move of a position, by iterative deepening.
    pub fn best_move<E: LeafEval>(&mut self, evaluator: &E, b: &Board, depth: u32) -> (m: Option<
        Position,
    >)
        requires
            old(self).wf(),
            evaluator.valid(),
            b.wf(),
        ensures
            final(self).wf(),
            final(self).same_setting(*old(self)),
            m is Some == b.can_move(),
            m matches Some(p) ==> p.wf() && b.legal(p.0 as int),
            exists|r: Deepened| #[trigger]
                found(*old(self), *evaluator, *b, depth, r) && m == r.best_move,
            !raised(old(self).stop) ==> final(self).picks(*evaluator, *b, m),
    {
        self.best_move_valued(evaluator, b, depth).best_move
    }

    /// The best move of a position and its value, by iterative deepening: what
    /// one iteration finds orders the moves of the next. A search that is
    /// stopped keeps what its last finished iteration found; only a flag that was
    /// seen up stops it.
    ///
    /// The value is backed by what the search may say. Without reduced searches it
    /// is the exact one for the depth, if some set of positions settles the last
    /// iteration.
    pub fn best_move_valued<E: LeafEval>(&mut self, evaluator: &E, b: &Board, depth: u32) -> (r:
        Deepened)
        requires
            old(self).wf(),
            evaluator.valid(),
            b.wf(),
        ensures
            final(self).wf(),
            final(self).same_setting(*old(self)),
            found(*old(self), *evaluator, *b, depth, r),
            r.depth == depth || r.depth == 0 ==> final(self).picks(*evaluator, *b, r.best_move),
    {
        if b.movable() == 0 {
            return Deepened { best_move: None, value: None, depth: 0 };
        }
        let indices: PatternIndices = evaluator.indexer().init(b.black, b.white);
        let ghost e = *evaluator;
        let ghost start = *old(self);
        let ghost key = view_hash(*b);
        let ghost cuts = start.cuts();
        let ghost deep = start.deepest(key);
        proof {
            lemma_deepest(start, key);
            assert(start.near(key, larger(deep, 0)));
            start.rules(e, *b, discs(*b) as int).lemma_start();
            lemma_comes_next(*b, *b);
        }
        let mut best: Option<Position> = None;
        let mut value: Option<i32> = None;
        let mut reached: u32 = 0;
        let mut d: u32 = 0;
        let mut stopped: bool = false;
        while d < depth && !stopped
            invariant
                self.wf(),
                self.same_setting(*old(self)),
                evaluator.valid(),
                *evaluator == e,
                b.wf(),
                b.can_move(),
                evaluator.tables().holds(indices, b.black, b.white),
                d <= depth,
                reached <= d,
                !stopped ==> reached == d,
                old(self).stop is None ==> !stopped,
                stopped ==> raised(old(self).stop),
                reached > 0 ==> lowered(old(self).stop),
                start == *old(self),
                key == view_hash(*b),
                cuts == start.cuts(),
                0 <= deep == start.deepest(key),
                comes_from(*b, *b),
                start.rules(e, *b, discs(*b) + d).backs_all(self.tt.slots@),
                d < 256 ==> self.near(key, larger(deep, d as int)),
                d == 0 ==> self.tt == start.tt,
                value is Some == (reached > 0),
                best is Some == (reached > 0),
                best matches Some(p) ==> p.wf() && b.legal(p.0 as int),
                best is Some && !stopped ==> self.picks(e, *b, best),
                stopped ==> reached < d,
                value matches Some(v) ==> -INF <= v <= INF,
                value matches Some(v) ==> backed_value(start, e, *b, reached as int, v as int),
                deep < reached < 256 ==> (value matches Some(v) ==> v > -INF ==> (
                best matches Some(p) && told(
                    start.rules(e, *b, discs(*b) + reached),
                    cuts,
                    *b,
                    reached as int,
                    p.0 as int,
                    true,
                    v as int,
                ))),
                reached == 1 && deep == 0 ==> value == Some(nn_value(e, *b, 1) as i32),
            decreases depth - d,
        {
            let ghost before = start.rules(e, *b, discs(*b) + d);
            d = d + 1;
            let ghost rules = start.rules(e, *b, discs(*b) + d);
            proof {
                lemma_nn_bound(e, *b, d as nat);
                if deep == 0 && d == 1 && start.tt.entry(key).used {
                    lemma_entry_near(start, key, 0);
                }
                rules.lemma_start();
                before.lemma_under(rules, self.tt.slots@);
            }
            match self.node(
                evaluator,
                b,
                &indices,
                d,
                -INF,
                INF,
                Ghost(rules),
                Ghost(key),
                Ghost(larger(deep, d - 1)),
            ) {
                None => {
                    stopped = true;
                },
                Some(v) => {
                    let up: bool = match &self.stop {
                        Some(s) => s.is_stopped(),
                        None => false,
                    };
                    if up {
                        stopped = true;
                    } else {
                        best = self.root_best(evaluator, b, &indices);
                        value = Some(v);
                        reached = d;
                    }
                },
            }
        }
        if best.is_none() {
            best = self.root_best(evaluator, b, &indices);
        }
        proof {
            if value is Some {
                let (v, n) = (value.unwrap() as int, reached as int);
                let h = discs(*b) + n;
                let rules = start.rules(e, *b, h);
                lemma_nn_bound(e, *b, n as nat);
                lemma_nn_reached(e, *b, n as nat);
                let p = best.unwrap().0 as int;
                let f = Fact { cuts, board: *b, depth: n, low: true, bound: v };
                let backing = deep < reached < 256 && v > -INF;
                if backing {
                    reveal(told);
                    assert(rules.shown(f.after(p)));
                    rules.lemma_covers_next(f);
                }
                if settled(start, e, *b, n) {
                    let set = choose|set: Set<Board>| #[trigger]
                        settles_iteration(start, set, e, *b, n);
                    lemma_horizons(start.tt.slots@, set, e, discs(*b) as int, h);
                    lemma_right_result(rules, set, *b, cuts, -INF as int, INF as int, v);
                    if backing {
                        lemma_wf_sides(*b);
                        lemma_after_wf(*b, p);
                        rules.law_shown_is_right(set, f.after(p));
                    }
                }
            }
        }
        Deepened { best_move: best, value, depth: reached }
    }
}

} // verus!
