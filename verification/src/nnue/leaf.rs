//! The networks as evaluations for the search, in hundredths of a disc.

use vstd::prelude::*;

use crate::bits::{count, lemma_bit_ext};
use crate::board::{Board, lemma_moves};
use crate::evaluator::{Evaluator, STAGE_COUNT, stage_of};
use crate::pattern_index::{PatternIndexer, PatternIndices};
use crate::search::{LEAF_LIMIT, LeafEval};
use super::kernels::{gate_sum, gated, lane_dot, law_dense_weight, law_gate_weight, law_readout_weight, readout};
use super::model::MLP_H2;
use super::quantized::{HALF, MLP_H1, QuantNnue, Reading, head_lane};
use super::stack_q::{OUT_IN, StackQ, first_layer, out_inputs, second_layer, stack_inputs};
use super::{H, MOB_BUCKETS, NUM_TABLE_SIZE, mob_index, num_index};

verus! {

/// Steps for one hundredth of a disc.
pub const STEPS: i128 = 16_777_216;

/// A value kept within the limits of the search.
pub open spec fn within_limits(x: int) -> int {
    if x >= LEAF_LIMIT {
        LEAF_LIMIT - 1
    } else if x <= -LEAF_LIMIT {
        1 - LEAF_LIMIT
    } else {
        x
    }
}

/// A quotient rounded down.
fn floored(x: i128, d: i128) -> (q: i128)
    requires
        0 < d <= 0x1_0000_0000_0000_0000,
        -0x4000_0000_0000_0000_0000_0000_0000_0000 < x < 0x4000_0000_0000_0000_0000_0000_0000_0000,
    ensures
        q == x as int / d as int,
{
    if x >= 0 {
        x / d
    } else {
        let y: i128 = -x + (d - 1);
        let q: i128 = y / d;
        proof {
            let (yy, dd, qq, xx) = (y as int, d as int, q as int, x as int);
            assert(qq * dd <= yy && yy < qq * dd + dd && 0 <= qq && qq <= yy) by (nonlinear_arith)
                requires
                    qq == yy / dd,
                    0 < dd,
                    0 <= yy,
            ;
            assert(xx / dd == -qq) by (nonlinear_arith)
                requires
                    qq * dd <= yy,
                    yy < qq * dd + dd,
                    yy == -xx + (dd - 1),
                    0 < dd,
            ;
        }
        -q
    }
}

/// A value kept within the limits of the search.
fn limited(x: i128) -> (v: i32)
    ensures
        v == within_limits(x as int),
        -LEAF_LIMIT < v < LEAF_LIMIT,
{
    if x >= LEAF_LIMIT as i128 {
        LEAF_LIMIT - 1
    } else if x <= -(LEAF_LIMIT as i128) {
        1 - LEAF_LIMIT
    } else {
        x as i32
    }
}

/// The greatest weights of the head in fixed point.
pub const HEAD_WEIGHT: i64 = 0x40_0000;

/// The greatest bias of the head's first layer in fixed point.
pub const HEAD_BIAS: i64 = 0x0800_0000_0000_0000;

/// The greatest step of the head's first layer in fixed point.
pub const HEAD_STEP: i64 = 0x1000_0000;

/// What the head's fixed point is to be divided by to give steps.
pub const HEAD_UNIT: i128 = 0x100_0000_0000;

/// The head behind its first layer, in fixed point: lanes of the first layer in
/// units of 2^-32, weights in units of 2^-16.
#[derive(Debug)]
pub struct Head {
    /// Biases of the first layer, in units of 2^-32.
    pub b1: Vec<i64>,
    /// What a unit of the first layer's sums counts, in units of 2^-32.
    pub step: i64,
    /// Weights of the second layer, output by output.
    pub w2: Vec<i64>,
    /// Biases of the second layer, in units of 2^-48.
    pub b2: Vec<i64>,
    /// Read-out weights by stage.
    pub out: Vec<i64>,
}

/// A lane cut off below zero.
pub open spec fn lit(x: int) -> int {
    if x > 0 {
        x
    } else {
        0
    }
}

/// The products of lanes with the weights from `at` on, added up over the first
/// `n`.
pub open spec fn weighted(w: Seq<i64>, at: int, x: Seq<int>, n: int) -> int
    decreases n,
{
    if n <= 0 {
        0
    } else {
        weighted(w, at, x, n - 1) + w[at + n - 1] * x[n - 1]
    }
}

/// No number is larger than the limit.
pub open spec fn within(v: Seq<i64>, limit: int) -> bool {
    forall|i: int| 0 <= i < v.len() ==> -limit <= #[trigger] v[i] <= limit
}

/// No number is larger than the limit.
fn all_within(v: &Vec<i64>, limit: i64) -> (yes: bool)
    requires
        limit >= 0,
    ensures
        yes == within(v@, limit as int),
{
    let mut i: usize = 0;
    while i < v.len()
        invariant
            limit >= 0,
            i <= v@.len(),
            forall|k: int| 0 <= k < i ==> -limit <= #[trigger] v@[k] <= limit,
        decreases v@.len() - i,
    {
        if v[i] < -limit || v[i] > limit {
            return false;
        }
        i = i + 1;
    }
    true
}

impl Head {
    /// The tables belong together, and their numbers leave room for sums.
    pub open spec fn wf(self) -> bool {
        &&& self.b1@.len() == MLP_H1
        &&& self.w2@.len() == MLP_H2 * MLP_H1
        &&& self.b2@.len() == MLP_H2
        &&& self.out@.len() == STAGE_COUNT * MLP_H2
        &&& within(self.b1@, HEAD_BIAS as int)
        &&& -HEAD_STEP <= self.step <= HEAD_STEP
        &&& within(self.w2@, HEAD_WEIGHT as int)
        &&& within(self.out@, HEAD_WEIGHT as int)
    }

    /// The tables belong together, and their numbers leave room for sums.
    pub fn is_sound(&self) -> (yes: bool)
        ensures
            yes == self.wf(),
    {
        self.b1.len() == MLP_H1 && self.w2.len() == MLP_H2 * MLP_H1 && self.b2.len() == MLP_H2
            && self.out.len() == STAGE_COUNT * MLP_H2 && all_within(&self.b1, HEAD_BIAS) && -HEAD_STEP
            <= self.step && self.step <= HEAD_STEP && all_within(&self.w2, HEAD_WEIGHT)
            && all_within(&self.out, HEAD_WEIGHT)
    }

    /// The lanes of the first layer, from its sums.
    pub open spec fn first(self, sums: Seq<int>) -> Seq<int> {
        Seq::new(MLP_H1 as nat, |i: int| lit(self.b1@[i] + sums[i] * self.step))
    }

    /// The lanes of the second layer.
    pub open spec fn second(self, x: Seq<int>) -> Seq<int> {
        Seq::new(
            MLP_H2 as nat,
            |j: int| lit(self.b2@[j] + weighted(self.w2@, j * MLP_H1, x, MLP_H1 as int)),
        )
    }

    /// What the head adds to a value, in steps.
    pub open spec fn steps(self, sums: Seq<int>, stage: int) -> int {
        weighted(
            self.out@,
            stage * MLP_H2,
            self.second(self.first(sums)),
            MLP_H2 as int,
        ) * 100 / HEAD_UNIT as int
    }

    /// What the head adds to a value, in steps.
    fn term(&self, sums: &Vec<i32>, stage: usize) -> (v: i128)
        requires
            self.wf(),
            sums@.len() == MLP_H1,
            stage < STAGE_COUNT,
        ensures
            v == self.steps(Seq::new(MLP_H1 as nat, |i: int| sums@[i] as int), stage as int),
            -0x200_0000_0000_0000_0000_0000_0000_0000 < v < 0x200_0000_0000_0000_0000_0000_0000_0000,
    {
        let ghost meant = Seq::new(MLP_H1 as nat, |i: int| sums@[i] as int);
        let mut x1: Vec<i128> = Vec::new();
        let mut i: usize = 0;
        while i < MLP_H1
            invariant
                self.wf(),
                sums@.len() == MLP_H1,
                meant == Seq::new(MLP_H1 as nat, |i: int| sums@[i] as int),
                i <= MLP_H1,
                x1@.len() == i,
                forall|k: int|
                    0 <= k < i ==> #[trigger] x1@[k] == self.first(meant)[k] && 0 <= x1@[k]
                        <= 0x1000_0000_0000_0000,
            decreases MLP_H1 - i,
        {
            let (a, d): (i128, i128) = (sums[i] as i128, self.step as i128);
            assert(-0x800_0000_0000_0000 <= a * d <= 0x800_0000_0000_0000) by (nonlinear_arith)
                requires
                    -0x8000_0000 <= a <= 0x8000_0000,
                    -0x1000_0000 <= d <= 0x1000_0000,
            ;
            assert(-HEAD_BIAS <= self.b1@[i as int] <= HEAD_BIAS);
            let s: i128 = self.b1[i] as i128 + a * d;
            x1.push(
                if s > 0 {
                    s
                } else {
                    0
                },
            );
            i = i + 1;
        }
        let ghost first = self.first(meant);
        assert forall|k: int| 0 <= k < MLP_H1 implies #[trigger] first[k] == x1@[k] by {}
        let mut x2: Vec<i128> = Vec::new();
        let mut j: usize = 0;
        while j < MLP_H2
            invariant
                self.wf(),
                first == self.first(meant),
                x1@.len() == MLP_H1,
                forall|k: int|
                    0 <= k < MLP_H1 ==> #[trigger] x1@[k] == first[k] && 0 <= x1@[k]
                        <= 0x1000_0000_0000_0000,
                j <= MLP_H2,
                x2@.len() == j,
                forall|k: int|
                    0 <= k < j ==> #[trigger] x2@[k] == self.second(first)[k] && 0 <= x2@[k]
                        <= 0x80_0000_0000_0000_0000_0000,
            decreases MLP_H2 - j,
        {
            let s: i128 = self.b2[j] as i128 + weigh(
                &self.w2,
                j * MLP_H1,
                &x1,
                Ghost(first),
                Ghost(0x1000_0000_0000_0000),
            );
            x2.push(
                if s > 0 {
                    s
                } else {
                    0
                },
            );
            j = j + 1;
        }
        let ghost second = self.second(first);
        let out: i128 = weigh(
            &self.out,
            stage * MLP_H2,
            &x2,
            Ghost(second),
            Ghost(0x80_0000_0000_0000_0000_0000),
        );
        floored(out * 100, HEAD_UNIT)
    }
}

/// The products of lanes with the weights from `at` on, added up.
fn weigh(
    w: &Vec<i64>,
    at: usize,
    x: &Vec<i128>,
    Ghost(lanes): Ghost<Seq<int>>,
    Ghost(most): Ghost<int>,
) -> (sum: i128)
    requires
        x@.len() == 16,
        at + 16 <= w@.len(),
        within(w@, HEAD_WEIGHT as int),
        0 <= most <= 0x80_0000_0000_0000_0000_0000,
        forall|k: int| 0 <= k < 16 ==> #[trigger] x@[k] == lanes[k] && 0 <= x@[k] <= most,
    ensures
        sum == weighted(w@, at as int, lanes, 16),
        -16 * (HEAD_WEIGHT * most) <= sum <= 16 * (HEAD_WEIGHT * most),
{
    let len: usize = w.len();
    let mut sum: i128 = 0;
    let mut k: usize = 0;
    let ghost step = HEAD_WEIGHT * most;
    assert(0 <= step <= HEAD_WEIGHT * 0x80_0000_0000_0000_0000_0000) by (nonlinear_arith)
        requires
            step == HEAD_WEIGHT * most,
            0 <= most <= 0x80_0000_0000_0000_0000_0000,
            HEAD_WEIGHT == 0x40_0000,
    ;
    while k < 16
        invariant
            x@.len() == 16,
            len == w@.len(),
            at + 16 <= len,
            within(w@, HEAD_WEIGHT as int),
            0 <= step <= HEAD_WEIGHT * 0x80_0000_0000_0000_0000_0000,
            step == HEAD_WEIGHT * most,
            forall|k: int| 0 <= k < 16 ==> #[trigger] x@[k] == lanes[k] && 0 <= x@[k] <= most,
            k <= 16,
            sum == weighted(w@, at as int, lanes, k as int),
            -(k * step) <= sum <= k * step,
        decreases 16 - k,
    {
        let (a, y): (i128, i128) = (w[at + k] as i128, x[k]);
        assert(-HEAD_WEIGHT <= w@[at + k] <= HEAD_WEIGHT);
        assert(x@[k as int] == lanes[k as int]);
        assert(-step <= a * y <= step) by (nonlinear_arith)
            requires
                -HEAD_WEIGHT <= a <= HEAD_WEIGHT,
                0 <= y <= most,
                step == HEAD_WEIGHT * most,
        ;
        assert((k + 1) * step == k * step + step && 0 <= k * step <= 16 * step)
            by (nonlinear_arith)
            requires
                0 <= k <= 16,
                0 <= step,
        ;
        sum = sum + a * y;
        k = k + 1;
    }
    sum
}

/// The network with its tables and factors in steps.
#[derive(Debug)]
pub struct ScaledNnue {
    pub net: QuantNnue,
    /// By stage.
    pub out_b: Vec<i64>,
    /// By stage and disc count.
    pub num_w: Vec<i64>,
    /// By stage and mobility.
    pub mob_w: Vec<i64>,
    /// Steps for one unit of the read-out.
    pub out_step: i64,
    /// Steps for one unit of the product gate.
    pub prod_step: i64,
    /// The head behind its first layer, where the model has one.
    pub head: Option<Head>,
}

impl ScaledNnue {
    /// The tables belong together.
    pub open spec fn wf(self) -> bool {
        &&& self.net.wf()
        &&& self.out_b@.len() == STAGE_COUNT
        &&& self.num_w@.len() == STAGE_COUNT * NUM_TABLE_SIZE
        &&& self.mob_w@.len() == STAGE_COUNT * MOB_BUCKETS
        &&& self.head matches Some(head) ==> head.wf()
    }

    /// The tables belong together.
    pub fn is_sound(&self) -> (yes: bool)
        requires
            self.net.wf(),
        ensures
            yes == self.wf(),
    {
        let head: bool = match &self.head {
            Some(head) => head.is_sound(),
            None => true,
        };
        self.out_b.len() == STAGE_COUNT && self.num_w.len() == STAGE_COUNT * NUM_TABLE_SIZE
            && self.mob_w.len() == STAGE_COUNT * MOB_BUCKETS && head
    }

    /// The sums of the head's first layer for a position.
    pub open spec fn head_sums(self, b: Board) -> Seq<int> {
        let s = stage_of(b);
        let n = self.net.numbers;
        let fb = n.ft_bias@.subrange(s * H, s * H + H);
        let lanes = self.net.lanes(b);
        let x = Seq::new(H as nat, |h: int| head_lane(lanes[h], fb[h], n.act_shift as nat));
        Seq::new(MLP_H1 as nat, |i: int| lane_dot(n.l1_w@, i * H, x, H as int))
    }

    /// What the head adds to the value of a position, in steps.
    pub open spec fn head_steps(self, b: Board) -> int {
        match self.head {
            Some(head) => head.steps(self.head_sums(b), stage_of(b)),
            None => 0,
        }
    }

    /// The value of a position in steps.
    pub open spec fn steps(self, b: Board) -> int {
        let s = stage_of(b);
        let n = self.net.numbers;
        let moves = count(b.moves()) as int;
        let mob = if moves < MOB_BUCKETS {
            moves
        } else {
            MOB_BUCKETS - 1
        };
        let fb = n.ft_bias@.subrange(s * H, s * H + H);
        let lanes = self.net.lanes(b);
        self.out_b@[s] + self.num_w@[s * NUM_TABLE_SIZE + count(b.own())] + self.mob_w@[s
            * MOB_BUCKETS + mob] + readout(
            lanes,
            fb,
            n.out_w@.subrange(s * H, s * H + H),
            H as int,
        ) * self.out_step + gate_sum(
            lanes,
            fb,
            n.pw@.subrange(s * HALF, s * HALF + HALF),
            n.prod_clamp as int,
            HALF as int,
        ) * self.prod_step + self.head_steps(b)
    }
}

/// Positions that look alike have the same moves.
proof fn lemma_same_moves(a: Board, b: Board)
    requires
        a.own() == b.own(),
        a.opp() == b.opp(),
    ensures
        a.moves() == b.moves(),
{
    assert forall|s: int| #[trigger] a.legal(s) == b.legal(s) by {}
    lemma_moves(a);
    lemma_moves(b);
    lemma_bit_ext(a.moves(), b.moves());
}

impl LeafEval for ScaledNnue {
    open spec fn valid(&self) -> bool {
        self.wf()
    }

    open spec fn tables(&self) -> PatternIndexer {
        self.net.features.indexer
    }

    open spec fn leaf(&self, b: Board) -> int {
        within_limits(self.steps(b) / STEPS as int)
    }

    fn indexer(&self) -> (ix: &PatternIndexer) {
        &self.net.features.indexer
    }

    fn eval_indices(&self, b: &Board, indices: &PatternIndices) -> (v: i32) {
        let s: usize = Evaluator::stage(b);
        let acc: Vec<i16> = self.net.accumulate(indices, b);
        let r: Reading = self.net.read(&acc, s);
        let base: i128 = self.out_b[s] as i128 + self.num_w[s * NUM_TABLE_SIZE + num_index(b)] as i128
            + self.mob_w[s * MOB_BUCKETS + mob_index(b)] as i128;
        let x: i128 = r.readout as i128;
        let y: i128 = r.product as i128;
        let a: i128 = self.out_step as i128;
        let c: i128 = self.prod_step as i128;
        assert(-0x1000_0000_0000_0000_0000_0000_0000_0000 < x * a
            < 0x1000_0000_0000_0000_0000_0000_0000_0000) by (nonlinear_arith)
            requires
                -0x1_0000_0000_0000 <= x <= 0x1_0000_0000_0000,
                -0x8000_0000_0000_0000 <= a <= 0x8000_0000_0000_0000,
        ;
        assert(-0x1000_0000_0000_0000_0000_0000_0000_0000 < y * c
            < 0x1000_0000_0000_0000_0000_0000_0000_0000) by (nonlinear_arith)
            requires
                -0x10_0000_0000_0000 <= y <= 0x10_0000_0000_0000,
                -0x8000_0000_0000_0000 <= c <= 0x8000_0000_0000_0000,
        ;
        let z: i128 = match &self.head {
            Some(head) => {
                let v: i128 = head.term(&r.head, s);
                proof {
                    let seen = Seq::new(MLP_H1 as nat, |i: int| r.head@[i] as int);
                    assert(seen =~= self.head_sums(*b));
                }
                v
            },
            None => 0,
        };
        let total: i128 = base + x * a + y * c + z;
        limited(floored(total, STEPS))
    }

    proof fn leaf_bounded(&self, b: Board) {
    }

    proof fn leaf_goes_by_view(&self, a: Board, b: Board) {
        lemma_same_moves(a, b);
    }

    fn eval_order(&self, b: &Board, indices: &PatternIndices) -> (key: i64) {
        self.eval_indices(b, indices) as i64
    }
}

impl LeafEval for StackQ {
    open spec fn valid(&self) -> bool {
        &&& self.wf()
        &&& self.buckets * self.features.rows <= usize::MAX
    }

    open spec fn tables(&self) -> PatternIndexer {
        self.features.indexer
    }

    open spec fn leaf(&self, b: Board) -> int {
        within_limits(self.output(b) * 100 / self.numbers.per_disc as int)
    }

    fn indexer(&self) -> (ix: &PatternIndexer) {
        &self.features.indexer
    }

    fn eval_indices(&self, b: &Board, indices: &PatternIndices) -> (v: i32) {
        let sum: i64 = self.eval(indices, b);
        limited(floored(sum as i128 * 100, self.numbers.per_disc as i128))
    }

    proof fn leaf_bounded(&self, b: Board) {
    }

    proof fn leaf_goes_by_view(&self, a: Board, b: Board) {
        lemma_same_moves(a, b);
    }

    fn eval_order(&self, b: &Board, indices: &PatternIndices) -> (key: i64) {
        self.eval_indices(b, indices) as i64
    }
}

/// The number of moves as far as the networks tell numbers apart.
pub open spec fn shown_mobility(b: Board) -> int {
    let moves = count(b.moves()) as int;
    if moves < MOB_BUCKETS {
        moves
    } else {
        MOB_BUCKETS - 1
    }
}

/// What the tables of a network give a position: its stage's own amount, that of
/// the side's number of discs and that of its number of moves.
pub open spec fn table_steps(n: ScaledNnue, b: Board) -> int {
    let s = stage_of(b);
    n.out_b@[s] + n.num_w@[s * NUM_TABLE_SIZE + count(b.own())] + n.mob_w@[s * MOB_BUCKETS
        + shown_mobility(b)]
}

/// The networks differ in their tables alone.
pub open spec fn same_but_tables(m: ScaledNnue, n: ScaledNnue) -> bool {
    &&& m.net == n.net
    &&& m.out_step == n.out_step
    &&& m.prod_step == n.prod_step
    &&& m.head == n.head
}

/// The table entries for a position's stage, for the number of discs of the side
/// to move and for its number of moves count in full, for either colour: a whole
/// hundredth more in them is a hundredth more in the value, and no other entry
/// matters.
pub proof fn law_tables_count_in_full(m: ScaledNnue, n: ScaledNnue, b: Board, k: int)
    requires
        same_but_tables(m, n),
        table_steps(n, b) == table_steps(m, b) + k * STEPS,
    ensures
        1 - LEAF_LIMIT < m.leaf(b) < LEAF_LIMIT - 1 && 1 - LEAF_LIMIT < n.leaf(b) < LEAF_LIMIT - 1 ==> n.leaf(b) == m.leaf(b) + k,
        k >= 0 ==> n.leaf(b) >= m.leaf(b),
{
}

/// A network that gives nothing but its stage's amount values a position by that
/// amount, in hundredths rounded down, whichever colour is to move.
pub proof fn law_stage_amount_alone(n: ScaledNnue, b: Board)
    requires
        n.out_step == 0,
        n.prod_step == 0,
        n.head is None,
        table_steps(n, b) == n.out_b@[stage_of(b)],
        -(LEAF_LIMIT - 1) * STEPS < n.out_b@[stage_of(b)] < (LEAF_LIMIT - 1) * STEPS,
    ensures
        n.leaf(b) * STEPS <= n.out_b@[stage_of(b)] < n.leaf(b) * STEPS + STEPS,
{
}

/// The factors of the read-out and of the product gate work in proportion: equal
/// rises of a factor raise the value, in steps, by equal amounts.
pub proof fn law_factors_work_in_proportion(l: ScaledNnue, m: ScaledNnue, n: ScaledNnue, b: Board)
    requires
        l.net == m.net && m.net == n.net,
        l.head == m.head && m.head == n.head,
        table_steps(l, b) == table_steps(m, b) == table_steps(n, b),
        n.out_step - m.out_step == m.out_step - l.out_step,
        n.prod_step - m.prod_step == m.prod_step - l.prod_step,
    ensures
        n.steps(b) - m.steps(b) == m.steps(b) - l.steps(b),
{
    let s = stage_of(b);
    let w = n.net.numbers;
    let fb = w.ft_bias@.subrange(s * H, s * H + H);
    let lanes = n.net.lanes(b);
    let x = readout(lanes, fb, w.out_w@.subrange(s * H, s * H + H), H as int);
    let y = gate_sum(
        lanes,
        fb,
        w.pw@.subrange(s * HALF, s * HALF + HALF),
        w.prod_clamp as int,
        HALF as int,
    );
    let (p, q, r) = (l.out_step as int, m.out_step as int, n.out_step as int);
    let (f, g, h) = (l.prod_step as int, m.prod_step as int, n.prod_step as int);
    assert(x * r - x * q == x * q - x * p) by (nonlinear_arith)
        requires
            r - q == q - p,
    ;
    assert(y * h - y * g == y * g - y * f) by (nonlinear_arith)
        requires
            h - g == g - f,
    ;
}

/// The output's bias counts in full, for either colour: one disc more in the bias
/// of the stack that a position reads is a hundred hundredths more in the value.
pub proof fn law_output_bias_counts_in_full(m: StackQ, n: StackQ, b: Board, k: int)
    requires
        m.features == n.features,
        m.numbers.ft == n.numbers.ft,
        m.numbers.ft_bias == n.numbers.ft_bias,
        m.numbers.pa == n.numbers.pa,
        m.numbers.pa_bias == n.numbers.pa_bias,
        m.numbers.l1_w == n.numbers.l1_w,
        m.numbers.l1_b == n.numbers.l1_b,
        m.numbers.l2_w == n.numbers.l2_w,
        m.numbers.l2_b == n.numbers.l2_b,
        m.numbers.out_w == n.numbers.out_w,
        m.numbers.stack_of == n.numbers.stack_of,
        m.numbers.bucket_of == n.numbers.bucket_of,
        m.numbers.per_disc == n.numbers.per_disc,
        m.numbers.per_disc > 0,
        ({
            let st = m.numbers.stack_of@[stage_of(b)] as int;
            n.numbers.out_b@[st] == m.numbers.out_b@[st] + k * m.numbers.per_disc
        }),
    ensures
        1 - LEAF_LIMIT < m.leaf(b) < LEAF_LIMIT - 1 && 1 - LEAF_LIMIT < n.leaf(b) < LEAF_LIMIT - 1
            ==> n.leaf(b) == m.leaf(b) + 100 * k,
{
    let st = m.numbers.stack_of@[stage_of(b)] as int;
    let x = stack_inputs(m.lanes(b), m.phase_lanes(b), shown_mobility(b));
    let first = first_layer(m.numbers, st, x);
    assert(first =~= first_layer(n.numbers, st, x));
    assert(second_layer(m.numbers, st, first) =~= second_layer(n.numbers, st, first));
    let (p, d) = (m.output(b), m.numbers.per_disc as int);
    assert(n.output(b) == p + k * d);
    assert((p + k * d) * 100 == p * 100 + (100 * k) * d) by (nonlinear_arith);
    assert((p * 100 + (100 * k) * d) / d == p * 100 / d + 100 * k) by (nonlinear_arith)
        requires
            d > 0,
    ;
}

/// A read-out weight of a position's stage counts its own lane, at every stage and
/// for either colour: `k` more of it are `k` times the factor times what the lane
/// shows more, in steps. So does a weight of the product gate with its pair of
/// lanes.
pub proof fn law_weights_count_their_lanes(m: ScaledNnue, n: ScaledNnue, b: Board, h: int, k: int, g: int, l: int)
    requires
        table_steps(m, b) == table_steps(n, b),
        m.out_step == n.out_step,
        m.prod_step == n.prod_step,
        m.net.lanes(b) == n.net.lanes(b),
        m.head_steps(b) == n.head_steps(b),
        m.net.numbers.ft_bias == n.net.numbers.ft_bias,
        m.net.numbers.prod_clamp == n.net.numbers.prod_clamp,
        0 <= h < H,
        0 <= g < HALF,
        m.net.numbers.out_w@.len() == n.net.numbers.out_w@.len() == STAGE_COUNT * H,
        m.net.numbers.pw@.len() == n.net.numbers.pw@.len() == STAGE_COUNT * HALF,
        b.empty_count <= 64,
        forall|i: int|
            0 <= i < H ==> n.net.numbers.out_w@[stage_of(b) * H + i] == #[trigger] m.net.numbers.out_w@[stage_of(
                b,
            ) * H + i] + if i == h {
                k
            } else {
                0
            },
        forall|i: int|
            0 <= i < HALF ==> n.net.numbers.pw@[stage_of(b) * HALF + i] == #[trigger] m.net.numbers.pw@[stage_of(
                b,
            ) * HALF + i] + if i == g {
                l
            } else {
                0
            },
    ensures
        ({
            let lanes = m.net.lanes(b);
            let fb = m.net.numbers.ft_bias@.subrange(stage_of(b) * H, stage_of(b) * H + H);
            let cap = m.net.numbers.prod_clamp as int;
            n.steps(b) - m.steps(b) == (k * super::kernels::lit(lanes[h], fb[h])) * m.out_step + (l * (gated(
                lanes[g],
                fb[g],
                cap,
            ) * gated(lanes[HALF + g], fb[HALF + g], cap))) * m.prod_step
        }),
{
    let s = stage_of(b);
    let (a, c) = (m.net.numbers, n.net.numbers);
    let lanes = m.net.lanes(b);
    let fb = a.ft_bias@.subrange(s * H, s * H + H);
    let (w, v) = (a.out_w@.subrange(s * H, s * H + H), c.out_w@.subrange(s * H, s * H + H));
    assert forall|i: int| 0 <= i < H implies #[trigger] v[i] == w[i] + if i == h {
        k
    } else {
        0
    } by {
        assert(v[i] == c.out_w@[s * H + i] && w[i] == a.out_w@[s * H + i]);
    }
    law_readout_weight(lanes, fb, w, v, H as int, h, k);
    let (p, q) = (
        a.pw@.subrange(s * HALF, s * HALF + HALF),
        c.pw@.subrange(s * HALF, s * HALF + HALF),
    );
    assert forall|i: int| 0 <= i < HALF implies #[trigger] q[i] == p[i] + if i == g {
        l
    } else {
        0
    } by {
        assert(q[i] == c.pw@[s * HALF + i] && p[i] == a.pw@[s * HALF + i]);
    }
    law_gate_weight(lanes, fb, p, q, a.prod_clamp as int, HALF as int, g, l);
    let (x, y) = (readout(lanes, fb, w, H as int), k * super::kernels::lit(lanes[h], fb[h]));
    let (u, z) = (
        gate_sum(lanes, fb, p, a.prod_clamp as int, HALF as int),
        l * (gated(lanes[g], fb[g], a.prod_clamp as int) * gated(
            lanes[HALF + g],
            fb[HALF + g],
            a.prod_clamp as int,
        )),
    );
    let (f, e) = (m.out_step as int, m.prod_step as int);
    assert((x + y) * f == x * f + y * f) by (nonlinear_arith);
    assert((u + z) * e == u * e + z * e) by (nonlinear_arith);
}

/// A head whose read-out weights at a stage are nothing adds nothing there; one whose
/// weights there are not below zero takes nothing away.
pub proof fn law_head_follows_its_weights(head: Head, sums: Seq<int>, stage: int)
    ensures
        (forall|j: int| 0 <= j < MLP_H2 ==> #[trigger] head.out@[stage * MLP_H2 + j] == 0) ==> head.steps(
            sums,
            stage,
        ) == 0,
        (forall|j: int| 0 <= j < MLP_H2 ==> #[trigger] head.out@[stage * MLP_H2 + j] >= 0) ==> head.steps(
            sums,
            stage,
        ) >= 0,
        (forall|j: int| 0 <= j < MLP_H2 ==> #[trigger] head.out@[stage * MLP_H2 + j] <= 0) ==> head.steps(
            sums,
            stage,
        ) <= 0,
{
    lemma_weighted_sign(
        head.out@,
        stage * MLP_H2,
        head.second(head.first(sums)),
        MLP_H2 as int,
    );
}

proof fn lemma_weighted_sign(w: Seq<i64>, at: int, x: Seq<int>, n: int)
    requires
        forall|j: int| 0 <= j < n ==> #[trigger] x[j] >= 0,
    ensures
        (forall|j: int| 0 <= j < n ==> #[trigger] w[at + j] == 0) ==> weighted(w, at, x, n) == 0,
        (forall|j: int| 0 <= j < n ==> #[trigger] w[at + j] >= 0) ==> weighted(w, at, x, n) >= 0,
        (forall|j: int| 0 <= j < n ==> #[trigger] w[at + j] <= 0) ==> weighted(w, at, x, n) <= 0,
    decreases n,
{
    if n > 0 {
        lemma_weighted_sign(w, at, x, n - 1);
        let (a, y) = (w[at + (n - 1)] as int, x[n - 1]);
        assert(a >= 0 ==> a * y >= 0) by (nonlinear_arith)
            requires
                y >= 0,
        ;
        assert(a <= 0 ==> a * y <= 0) by (nonlinear_arith)
            requires
                y >= 0,
        ;
    }
}

/// A read-out weight of the stack that a position reads counts its own input, for
/// either colour: `k` more of it are `k` times the input more in the output.
pub proof fn law_output_weights_count_their_inputs(m: StackQ, n: StackQ, b: Board, h: int, k: int)
    requires
        m.features == n.features,
        m.numbers.ft == n.numbers.ft,
        m.numbers.ft_bias == n.numbers.ft_bias,
        m.numbers.pa == n.numbers.pa,
        m.numbers.pa_bias == n.numbers.pa_bias,
        m.numbers.l1_w == n.numbers.l1_w,
        m.numbers.l1_b == n.numbers.l1_b,
        m.numbers.l2_w == n.numbers.l2_w,
        m.numbers.l2_b == n.numbers.l2_b,
        m.numbers.out_b == n.numbers.out_b,
        m.numbers.stack_of == n.numbers.stack_of,
        m.numbers.bucket_of == n.numbers.bucket_of,
        0 <= h < OUT_IN,
        ({
            let st = m.numbers.stack_of@[stage_of(b)] as int;
            forall|i: int|
                0 <= i < OUT_IN ==> (#[trigger] n.numbers.out_w@[st * OUT_IN + i]) == m.numbers.out_w@[st
                    * OUT_IN + i] + if i == h {
                    k
                } else {
                    0
                }
        }),
    ensures
        n.output(b) == m.output(b) + k * out_inputs(
            m.numbers,
            m.numbers.stack_of@[stage_of(b)] as int,
            stack_inputs(m.lanes(b), m.phase_lanes(b), shown_mobility(b)),
        )[h],
{
    let st = m.numbers.stack_of@[stage_of(b)] as int;
    let x = stack_inputs(m.lanes(b), m.phase_lanes(b), shown_mobility(b));
    let first = first_layer(m.numbers, st, x);
    assert(first =~= first_layer(n.numbers, st, x));
    assert(second_layer(m.numbers, st, first) =~= second_layer(n.numbers, st, first));
    let y = out_inputs(m.numbers, st, x);
    law_dense_weight(m.numbers.out_w@, n.numbers.out_w@, st * OUT_IN, y, OUT_IN as int, h, k);
}

} // verus!
