//! The stacked read-out in integers.
//!
//! Row lanes are in steps of 1/512, activations in steps of 1/256, the weights
//! of the dense layers in steps of 1/64. Activations are held moved down by 128
//! so that they fit a byte with a sign; each row's weight sum, times 128, is
//! folded into its bias to make up for that.

use vstd::prelude::*;

use crate::board::Board;
use crate::evaluator::{Evaluator, STAGE_COUNT, stage_of};
use crate::layout::{is_other_view, other_view, row_count};
use crate::pattern::Pattern;
use crate::pattern_index::{PatternIndices, indexable};
use super::kernels::{Lane, lane_dot, lane_sum, lane_values, law_moved_lanes, law_row_order, row_sum, wrap16};
use super::{Features, mob_index, own_rows, side_lanes};

verus! {

/// Pairs of lanes of the base layer.
pub const HALF_DIMS: usize = 128;

/// Lanes of the base layer.
pub const ACC_DIMS: usize = 256;

/// Lanes of the layer that depends on the part of the game.
pub const PA_DIMS: usize = 128;

/// Inputs that the output layer reads past the two dense layers.
pub const SO_SKIP: usize = 256;

/// Inputs of the first dense layer.
pub const SO_L1_IN: usize = 257;

/// Outputs of the first dense layer.
pub const SO_L1: usize = 16;

/// Inputs of the second dense layer: the outputs of the first, squared and plain.
pub const L2_IN: usize = 32;

/// Outputs of the second dense layer.
pub const SO_L2: usize = 64;

/// Inputs of the output layer.
pub const OUT_IN: usize = 320;

/// Inputs of the first dense layer as they are packed.
pub const L1_IN: usize = 264;

/// Where a row lane is cut off.
pub const ROW_CLAMP: i16 = 510;

/// The numbers of a stacked read-out.
#[derive(Debug)]
pub struct StackNumbers {
    /// Feature rows as Black reads them.
    pub ft: Vec<i16>,
    pub ft_bias: Vec<i16>,
    /// Feature rows of each part of the game, as Black reads them.
    pub pa: Vec<i16>,
    pub pa_bias: Vec<i16>,
    /// The dense layers of each stack, row by row.
    pub l1_w: Vec<i8>,
    pub l1_b: Vec<i32>,
    pub l2_w: Vec<i8>,
    pub l2_b: Vec<i32>,
    pub out_w: Vec<i16>,
    pub out_b: Vec<i32>,
    /// Which stack a stage reads.
    pub stack_of: Vec<usize>,
    /// Which part of the game a stage belongs to.
    pub bucket_of: Vec<usize>,
    /// Steps of the output for one disc.
    pub per_disc: u32,
}

impl StackNumbers {
    /// How many stacks there are.
    pub open spec fn stacks(self) -> int {
        self.out_b@.len() as int
    }

    /// The tables have the sizes that belong together.
    pub open spec fn fit(self, rows: int, buckets: int) -> bool {
        &&& self.ft@.len() == rows * ACC_DIMS
        &&& self.ft_bias@.len() == ACC_DIMS
        &&& 0 < buckets <= 64
        &&& self.pa@.len() == buckets * rows * PA_DIMS
        &&& self.pa_bias@.len() == buckets * PA_DIMS
        &&& self.stacks() <= 1024
        &&& self.l1_w@.len() == self.stacks() * SO_L1 * SO_L1_IN
        &&& self.l1_b@.len() == self.stacks() * SO_L1
        &&& self.l2_w@.len() == self.stacks() * SO_L2 * L2_IN
        &&& self.l2_b@.len() == self.stacks() * SO_L2
        &&& self.out_w@.len() == self.stacks() * OUT_IN
        &&& self.stack_of@.len() == STAGE_COUNT
        &&& forall|s: int| 0 <= s < STAGE_COUNT ==> #[trigger] self.stack_of@[s] < self.stacks()
        &&& self.bucket_of@.len() == STAGE_COUNT
        &&& forall|s: int| 0 <= s < STAGE_COUNT ==> #[trigger] self.bucket_of@[s] < buckets
        &&& 0 < self.per_disc
    }
}

/// A number kept between two others.
pub open spec fn kept(x: int, low: int, high: int) -> int {
    if x < low {
        low
    } else if x > high {
        high
    } else {
        x
    }
}

/// The activation of a pair of lanes: the first cut off below zero and above
/// the limit, the second above the limit, multiplied.
pub open spec fn pair_value(lo: int, hi: int) -> int {
    let h = if hi > ROW_CLAMP {
        ROW_CLAMP as int
    } else {
        hi
    };
    kept(32 * kept(lo, 0, ROW_CLAMP as int) * h / 32768, 0, 255)
}

/// The activation of a lane by itself: cut off and squared.
pub open spec fn square_value(v: int) -> int {
    pair_value(v, v)
}

/// The activation of the mobility.
pub open spec fn mob_value(mob: int) -> int {
    kept(7 * mob, 0, 255)
}

/// The inputs of the dense layers.
pub open spec fn stack_inputs(acc: Seq<i16>, pacc: Seq<i16>, mob: int) -> Seq<int> {
    Seq::new(
        SO_L1_IN as nat,
        |k: int|
            if k < HALF_DIMS {
                pair_value(acc[k] as int, acc[k + HALF_DIMS] as int)
            } else if k < SO_SKIP {
                square_value(pacc[k - HALF_DIMS] as int)
            } else {
                mob_value(mob)
            },
    )
}

/// Output `o` of the first dense layer before its activation.
pub open spec fn first_sum(n: StackNumbers, st: int, x: Seq<int>, o: int) -> int {
    kept(
        n.l1_b@[st * SO_L1 + o] + lane_dot(
            n.l1_w@,
            (st * SO_L1 + o) * SO_L1_IN,
            x,
            SO_L1_IN as int,
        ),
        -32768,
        32767,
    )
}

/// The outputs of the first dense layer: squared, then plain.
pub open spec fn first_layer(n: StackNumbers, st: int, x: Seq<int>) -> Seq<int> {
    Seq::new(
        L2_IN as nat,
        |k: int|
            if k < SO_L1 {
                squared(first_sum(n, st, x, k))
            } else {
                kept(first_sum(n, st, x, k - SO_L1) / 64, 0, 255)
            },
    )
}

/// The square of a number, scaled down and cut off.
pub open spec fn squared(s: int) -> int {
    kept(s * s / 1_048_576, 0, 255)
}

/// The outputs of the second dense layer.
pub open spec fn second_layer(n: StackNumbers, st: int, a: Seq<int>) -> Seq<int> {
    Seq::new(
        SO_L2 as nat,
        |o: int|
            squared(
                kept(
                    n.l2_b@[st * SO_L2 + o] + lane_dot(
                        n.l2_w@,
                        (st * SO_L2 + o) * L2_IN,
                        a,
                        L2_IN as int,
                    ),
                    0,
                    16320,
                ),
            ),
    )
}

/// The inputs of the output layer: the second layer's outputs, then the
/// activations of the lanes.
pub open spec fn out_inputs(n: StackNumbers, st: int, x: Seq<int>) -> Seq<int> {
    second_layer(n, st, first_layer(n, st, x)) + x.take(SO_SKIP as int)
}

/// The output of a stack.
pub open spec fn stack_output(n: StackNumbers, st: int, x: Seq<int>) -> int {
    n.out_b@[st] + lane_dot(n.out_w@, st * OUT_IN, out_inputs(n, st, x), OUT_IN as int)
}

/// Where the weight of output `out` for input `inp` stands among the packed
/// weights of one stack: four inputs of each output side by side.
pub fn packed_index(out: usize, inp: usize, n_out: usize) -> (i: usize)
    requires
        out < n_out <= 64,
        inp < 1024,
    ensures
        i == (inp as int / 4 * n_out + out) * 4 + inp as int % 4,
{
    assert(inp as int / 4 * n_out <= 255 * 64) by (nonlinear_arith)
        requires
            inp < 1024,
            n_out <= 64,
    ;
    (inp / 4 * n_out + out) * 4 + inp % 4
}

/// What stands at place `t` of the packed weights of the first dense layers.
pub open spec fn l1_slot(w: Seq<i8>, t: int) -> int {
    let r = t % 4224;
    let k = r / 64 * 4 + r % 4;
    if k < SO_L1_IN {
        w[(t / 4224 * 16 + r / 4 % 16) * SO_L1_IN + k] as int
    } else {
        0
    }
}

/// What stands at place `t` of the packed weights of the second dense layers.
pub open spec fn l2_slot(w: Seq<i8>, t: int) -> int {
    let r = t % 2048;
    w[(t / 2048 * 64 + r / 4 % 64) * L2_IN + (r / 256 * 4 + r % 4)] as int
}

/// The place of a weight of the first dense layer.
proof fn lemma_l1_slot(w: Seq<i8>, st: int, o: int, k: int)
    requires
        0 <= st,
        0 <= o < 16,
        0 <= k < L1_IN,
    ensures
        ({
            let t = st * 4224 + (k / 4 * 16 + o) * 4 + k % 4;
            &&& st * 4224 <= t < st * 4224 + 4224
            &&& l1_slot(w, t) == if k < SO_L1_IN {
                w[(st * 16 + o) * SO_L1_IN + k] as int
            } else {
                0
            }
        }),
{
    let t = st * 4224 + (k / 4 * 16 + o) * 4 + k % 4;
    let r = (k / 4 * 16 + o) * 4 + k % 4;
    assert(t / 4224 == st && t % 4224 == r);
    assert(r / 64 == k / 4 && r % 4 == k % 4 && r / 4 % 16 == o);
}

/// The place of a weight of the second dense layer.
proof fn lemma_l2_slot(w: Seq<i8>, st: int, o: int, k: int)
    requires
        0 <= st,
        0 <= o < 64,
        0 <= k < L2_IN,
    ensures
        ({
            let t = st * 2048 + (k / 4 * 64 + o) * 4 + k % 4;
            &&& st * 2048 <= t < st * 2048 + 2048
            &&& l2_slot(w, t) == w[(st * 64 + o) * L2_IN + k]
        }),
{
    let t = st * 2048 + (k / 4 * 64 + o) * 4 + k % 4;
    let r = (k / 4 * 64 + o) * 4 + k % 4;
    assert(t / 2048 == st && t % 2048 == r);
    assert(r / 256 == k / 4 && r % 4 == k % 4 && r / 4 % 64 == o);
}

/// The weights of the first dense layers, packed.
fn pack_l1(w: &Vec<i8>, stacks: usize) -> (v: Vec<i8>)
    requires
        stacks <= 1024,
        w@.len() == stacks * SO_L1 * SO_L1_IN,
    ensures
        v@.len() == stacks * 4224,
        forall|t: int| 0 <= t < v@.len() ==> #[trigger] v@[t] == l1_slot(w@, t),
{
    let mut v: Vec<i8> = Vec::new();
    let total: usize = stacks * 4224;
    let mut t: usize = 0;
    while t < total
        invariant
            stacks <= 1024,
            w@.len() == stacks * SO_L1 * SO_L1_IN,
            total == stacks * 4224,
            t <= total,
            v@.len() == t,
            forall|q: int| 0 <= q < t ==> #[trigger] v@[q] == l1_slot(w@, q),
        decreases total - t,
    {
        let st: usize = t / 4224;
        let r: usize = t % 4224;
        let o: usize = r / 4 % 16;
        let k: usize = r / 64 * 4 + r % 4;
        let x: i8 = if k < SO_L1_IN {
            w[(st * 16 + o) * SO_L1_IN + k]
        } else {
            0
        };
        v.push(x);
        t = t + 1;
    }
    v
}

/// The weights of the second dense layers, packed.
fn pack_l2(w: &Vec<i8>, stacks: usize) -> (v: Vec<i8>)
    requires
        stacks <= 1024,
        w@.len() == stacks * SO_L2 * L2_IN,
    ensures
        v@.len() == stacks * 2048,
        forall|t: int| 0 <= t < v@.len() ==> #[trigger] v@[t] == l2_slot(w@, t),
{
    let mut v: Vec<i8> = Vec::new();
    let total: usize = stacks * 2048;
    let mut t: usize = 0;
    while t < total
        invariant
            stacks <= 1024,
            w@.len() == stacks * SO_L2 * L2_IN,
            total == stacks * 2048,
            t <= total,
            v@.len() == t,
            forall|q: int| 0 <= q < t ==> #[trigger] v@[q] == l2_slot(w@, q),
        decreases total - t,
    {
        let st: usize = t / 2048;
        let r: usize = t % 2048;
        let o: usize = r / 4 % 64;
        let k: usize = r / 256 * 4 + r % 4;
        v.push(w[(st * 64 + o) * L2_IN + k]);
        t = t + 1;
    }
    v
}

/// The biases with 128 times the weight sum of their rows.
fn fold_biases<T: Lane>(b: &Vec<i32>, w: &Vec<T>, width: usize) -> (v: Vec<i64>)
    requires
        w@.len() == b@.len() * width,
        0 < width <= 1024,
        b@.len() <= 1_048_576,
    ensures
        v@.len() == b@.len(),
        forall|i: int|
            0 <= i < b@.len() ==> #[trigger] v@[i] == b@[i] + 128 * row_sum(
                w@,
                i * width,
                width as int,
            ),
        forall|i: int|
            0 <= i < b@.len() ==> -8_589_934_592 <= #[trigger] v@[i] <= 8_589_934_592,
{
    let mut v: Vec<i64> = Vec::new();
    let n: usize = b.len();
    let total: usize = w.len();
    let mut i: usize = 0;
    while i < n
        invariant
            n == b@.len(),
            total == w@.len(),
            total == n * width,
            0 < width <= 1024,
            n <= 1_048_576,
            i <= n,
            v@.len() == i,
            forall|q: int|
                0 <= q < i ==> #[trigger] v@[q] == b@[q] + 128 * row_sum(
                    w@,
                    q * width,
                    width as int,
                ),
            forall|q: int| 0 <= q < i ==> -8_589_934_592 <= #[trigger] v@[q] <= 8_589_934_592,
        decreases n - i,
    {
        assert(i * width + width <= total) by (nonlinear_arith)
            requires
                i < n,
                total == n * width,
                0 < width,
        ;
        let at: usize = i * width;
        let mut sum: i64 = 0;
        let mut k: usize = 0;
        while k < width
            invariant
                total == w@.len(),
                at + width <= total,
                width <= 1024,
                k <= width,
                sum == row_sum(w@, at as int, k as int),
                -32768 * k <= sum <= 32768 * k,
            decreases width - k,
        {
            let x: i16 = w[at + k].wide();
            sum = sum + x as i64;
            k = k + 1;
        }
        v.push(b[i] as i64 + 128 * sum);
        i = i + 1;
    }
    v
}

/// The activation of a pair of lanes.
fn pair_act(lo: i16, hi: i16) -> (x: u8)
    ensures
        x == pair_value(lo as int, hi as int),
{
    let a: i32 = if lo < 0 {
        0
    } else if lo > ROW_CLAMP {
        ROW_CLAMP as i32
    } else {
        lo as i32
    };
    let h: i32 = if hi > ROW_CLAMP {
        ROW_CLAMP as i32
    } else {
        hi as i32
    };
    if h <= 0 {
        assert(32 * (a as int) * (h as int) <= 0) by (nonlinear_arith)
            requires
                0 <= a,
                h <= 0,
        ;
        0
    } else {
        assert(0 <= 32 * (a as int) * (h as int) <= 8_323_200) by (nonlinear_arith)
            requires
                0 <= a <= 510,
                0 <= h <= 510,
        ;
        (32 * a * h / 32768) as u8
    }
}

/// The square of a number, scaled down and cut off.
fn square_act(s: i64) -> (x: u8)
    requires
        -32768 <= s <= 32767,
    ensures
        x == squared(s as int),
{
    assert(0 <= s as int * s as int <= 1_073_741_824) by (nonlinear_arith)
        requires
            -32768 <= s <= 32767,
    ;
    let q: i64 = s * s / 1_048_576;
    if q > 255 {
        255
    } else {
        q as u8
    }
}

/// The stacked read-out, laid out for evaluation.
#[derive(Debug)]
pub struct StackQ {
    pub features: Features,
    pub numbers: StackNumbers,
    /// How many parts of the game have rows of their own.
    pub buckets: usize,
    /// The rows as White reads them.
    pub ft_white: Vec<i16>,
    pub pa_white: Vec<i16>,
    /// The packed weights, and the biases with the weight sums folded in.
    pub l1_packed: Vec<i8>,
    pub l1_folded: Vec<i64>,
    pub l2_packed: Vec<i8>,
    pub l2_folded: Vec<i64>,
    pub out_folded: Vec<i64>,
}

/// Activations are held moved down by 128.
pub open spec fn moved_down(x: Seq<i8>, lanes: Seq<int>) -> bool {
    &&& x.len() >= lanes.len()
    &&& forall|k: int| 0 <= k < lanes.len() ==> #[trigger] x[k] == lanes[k] - 128
}

impl StackQ {
    /// The tables belong together.
    pub open spec fn wf(self) -> bool {
        let n = self.numbers;
        let rows = self.features.rows as int;
        &&& self.features.wf()
        &&& n.fit(rows, self.buckets as int)
        &&& is_other_view(
            self.features.indexer.patterns@,
            n.ft@,
            self.ft_white@,
            1 * rows,
            ACC_DIMS as int,
        )
        &&& is_other_view(
            self.features.indexer.patterns@,
            n.pa@,
            self.pa_white@,
            self.buckets * rows,
            PA_DIMS as int,
        )
        &&& self.l1_packed@.len() == n.stacks() * 4224
        &&& forall|t: int|
            0 <= t < self.l1_packed@.len() ==> #[trigger] self.l1_packed@[t] == l1_slot(
                n.l1_w@,
                t,
            )
        &&& self.l2_packed@.len() == n.stacks() * 2048
        &&& forall|t: int|
            0 <= t < self.l2_packed@.len() ==> #[trigger] self.l2_packed@[t] == l2_slot(
                n.l2_w@,
                t,
            )
        &&& folded(n.l1_b@, n.l1_w@, SO_L1_IN as int, self.l1_folded@)
        &&& folded(n.l2_b@, n.l2_w@, L2_IN as int, self.l2_folded@)
        &&& folded(n.out_b@, n.out_w@, OUT_IN as int, self.out_folded@)
    }

    /// Lay the numbers out for evaluation.
    pub fn build(patterns: Vec<Pattern>, numbers: StackNumbers, buckets: usize) -> (q: StackQ)
        requires
            indexable(patterns@),
            patterns@.len() > 0,
            numbers.fit(row_count(patterns@), buckets as int),
            buckets * row_count(patterns@) <= usize::MAX,
        ensures
            q.wf(),
            q.numbers == numbers,
            q.buckets == buckets,
            q.features.indexer.patterns == patterns,
    {
        let features: Features = Features::new(patterns);
        let stacks: usize = numbers.out_b.len();
        let ft_white: Vec<i16> = other_view(
            &features.indexer.patterns,
            &numbers.ft,
            1,
            ACC_DIMS,
        );
        let pa_white: Vec<i16> = other_view(
            &features.indexer.patterns,
            &numbers.pa,
            buckets,
            PA_DIMS,
        );
        let l1_packed: Vec<i8> = pack_l1(&numbers.l1_w, stacks);
        let l2_packed: Vec<i8> = pack_l2(&numbers.l2_w, stacks);
        let l1_folded: Vec<i64> = fold_biases(&numbers.l1_b, &numbers.l1_w, SO_L1_IN);
        let l2_folded: Vec<i64> = fold_biases(&numbers.l2_b, &numbers.l2_w, L2_IN);
        let out_folded: Vec<i64> = fold_biases(&numbers.out_b, &numbers.out_w, OUT_IN);
        StackQ {
            features,
            numbers,
            buckets,
            ft_white,
            pa_white,
            l1_packed,
            l1_folded,
            l2_packed,
            l2_folded,
            out_folded,
        }
    }

    /// One output of the first dense layer before its activation.
    fn first(&self, st: usize, x: &Vec<i8>, o: usize, Ghost(lanes): Ghost<Seq<int>>) -> (s: i64)
        requires
            self.wf(),
            st < self.numbers.stacks(),
            o < SO_L1,
            x@.len() == L1_IN,
            lanes.len() == SO_L1_IN,
            moved_down(x@, lanes),
        ensures
            s == first_sum(self.numbers, st as int, lanes, o as int),
            -32768 <= s <= 32767,
    {
        let ghost w = self.numbers.l1_w@;
        let ghost at = (st * 16 + o) * SO_L1_IN;
        let ghost xs = super::kernels::bytes_of(x@);
        let base: usize = st * 4224;
        let mut s: i64 = self.l1_folded[st * 16 + o];
        let ghost bias = s as int;
        let mut k: usize = 0;
        while k < L1_IN
            invariant
                self.wf(),
                st < self.numbers.stacks(),
                o < SO_L1,
                x@.len() == L1_IN,
                w == self.numbers.l1_w@,
                at == (st * 16 + o) * SO_L1_IN,
                xs == super::kernels::bytes_of(x@),
                base == st * 4224,
                -8_589_934_592 <= bias <= 8_589_934_592,
                k <= L1_IN,
                s == bias + lane_dot(
                    w,
                    at,
                    xs,
                    if k < SO_L1_IN {
                        k as int
                    } else {
                        SO_L1_IN as int
                    },
                ),
                -16384 * k <= s - bias <= 16384 * k,
            decreases L1_IN - k,
        {
            proof {
                lemma_l1_slot(w, st as int, o as int, k as int);
            }
            let i: usize = packed_index(o, k, SO_L1);
            let a: i8 = self.l1_packed[base + i];
            let b: i8 = x[k];
            assert(-16384 <= a as int * b as int <= 16384) by (nonlinear_arith)
                requires
                    -128 <= a <= 127,
                    -128 <= b <= 127,
            ;
            assert(k >= SO_L1_IN ==> a as int * b as int == 0) by (nonlinear_arith)
                requires
                    k >= SO_L1_IN ==> a == 0,
            ;
            s = s + a as i64 * b as i64;
            k = k + 1;
        }
        proof {
            law_moved_lanes(w, at, xs, lanes, SO_L1_IN as int);
        }
        if s < -32768 {
            -32768
        } else if s > 32767 {
            32767
        } else {
            s
        }
    }

    /// The first dense layer.
    fn first_activations(&self, st: usize, x: &Vec<i8>, Ghost(lanes): Ghost<Seq<int>>) -> (a: Vec<
        i8,
    >)
        requires
            self.wf(),
            st < self.numbers.stacks(),
            x@.len() == L1_IN,
            lanes.len() == SO_L1_IN,
            moved_down(x@, lanes),
        ensures
            a@.len() == L2_IN,
            moved_down(a@, first_layer(self.numbers, st as int, lanes)),
    {
        let ghost meant = first_layer(self.numbers, st as int, lanes);
        let mut a: Vec<i8> = Vec::new();
        let mut k: usize = 0;
        while k < L2_IN
            invariant
                self.wf(),
                st < self.numbers.stacks(),
                x@.len() == L1_IN,
                lanes.len() == SO_L1_IN,
                moved_down(x@, lanes),
                meant == first_layer(self.numbers, st as int, lanes),
                k <= L2_IN,
                a@.len() == k,
                forall|q: int| 0 <= q < k ==> #[trigger] a@[q] == meant[q] - 128,
            decreases L2_IN - k,
        {
            let v: u8 = if k < SO_L1 {
                square_act(self.first(st, x, k, Ghost(lanes)))
            } else {
                let s: i64 = self.first(st, x, k - SO_L1, Ghost(lanes));
                if s <= 0 {
                    0
                } else if s / 64 > 255 {
                    255
                } else {
                    (s / 64) as u8
                }
            };
            a.push((v as i16 - 128) as i8);
            k = k + 1;
        }
        a
    }

    /// The second dense layer.
    fn second_activations(&self, st: usize, x: &Vec<i8>, Ghost(lanes): Ghost<Seq<int>>) -> (a: Vec<
        i8,
    >)
        requires
            self.wf(),
            st < self.numbers.stacks(),
            x@.len() == L2_IN,
            lanes.len() == L2_IN,
            moved_down(x@, lanes),
        ensures
            a@.len() == SO_L2,
            moved_down(a@, second_layer(self.numbers, st as int, lanes)),
    {
        let ghost meant = second_layer(self.numbers, st as int, lanes);
        let ghost w = self.numbers.l2_w@;
        let ghost xs = super::kernels::bytes_of(x@);
        let base: usize = st * 2048;
        let mut a: Vec<i8> = Vec::new();
        let mut o: usize = 0;
        while o < SO_L2
            invariant
                self.wf(),
                st < self.numbers.stacks(),
                x@.len() == L2_IN,
                lanes.len() == L2_IN,
                moved_down(x@, lanes),
                meant == second_layer(self.numbers, st as int, lanes),
                w == self.numbers.l2_w@,
                xs == super::kernels::bytes_of(x@),
                base == st * 2048,
                o <= SO_L2,
                a@.len() == o,
                forall|q: int| 0 <= q < o ==> #[trigger] a@[q] == meant[q] - 128,
            decreases SO_L2 - o,
        {
            let ghost at = (st * 64 + o) * L2_IN;
            let mut s: i64 = self.l2_folded[st * 64 + o];
            let ghost bias = s as int;
            let mut k: usize = 0;
            while k < L2_IN
                invariant
                    self.wf(),
                    st < self.numbers.stacks(),
                    o < SO_L2,
                    x@.len() == L2_IN,
                    w == self.numbers.l2_w@,
                    at == (st * 64 + o) * L2_IN,
                    xs == super::kernels::bytes_of(x@),
                    base == st * 2048,
                    -8_589_934_592 <= bias <= 8_589_934_592,
                    k <= L2_IN,
                    s == bias + lane_dot(w, at, xs, k as int),
                    -16384 * k <= s - bias <= 16384 * k,
                decreases L2_IN - k,
            {
                proof {
                    lemma_l2_slot(w, st as int, o as int, k as int);
                }
                let i: usize = packed_index(o, k, SO_L2);
                let p: i8 = self.l2_packed[base + i];
                let q: i8 = x[k];
                assert(-16384 <= p as int * q as int <= 16384) by (nonlinear_arith)
                    requires
                        -128 <= p <= 127,
                        -128 <= q <= 127,
                ;
                s = s + p as i64 * q as i64;
                k = k + 1;
            }
            proof {
                law_moved_lanes(w, at, xs, lanes, L2_IN as int);
            }
            let v: i64 = if s < 0 {
                0
            } else if s > 16320 {
                16320
            } else {
                s
            };
            a.push((square_act(v) as i16 - 128) as i8);
            o = o + 1;
        }
        a
    }

    /// The output of a stack for the given lanes.
    pub fn eval_scalar(&self, acc: &Vec<i16>, pacc: &Vec<i16>, st: usize, mob: usize) -> (sum: i64)
        requires
            self.wf(),
            acc@.len() == ACC_DIMS,
            pacc@.len() == PA_DIMS,
            st < self.numbers.stacks(),
        ensures
            sum == stack_output(
                self.numbers,
                st as int,
                stack_inputs(acc@, pacc@, mob as int),
            ),
            -20_000_000_000 <= sum <= 20_000_000_000,
    {
        let ghost lanes = stack_inputs(acc@, pacc@, mob as int);
        let mut x: Vec<i8> = Vec::new();
        let mut k: usize = 0;
        while k < L1_IN
            invariant
                acc@.len() == ACC_DIMS,
                pacc@.len() == PA_DIMS,
                lanes == stack_inputs(acc@, pacc@, mob as int),
                k <= L1_IN,
                x@.len() == k,
                forall|q: int| 0 <= q < k && q < SO_L1_IN ==> #[trigger] x@[q] == lanes[q] - 128,
            decreases L1_IN - k,
        {
            let v: i16 = if k < HALF_DIMS {
                pair_act(acc[k], acc[k + HALF_DIMS]) as i16
            } else if k < SO_SKIP {
                pair_act(pacc[k - HALF_DIMS], pacc[k - HALF_DIMS]) as i16
            } else if k == SO_SKIP {
                if mob > 36 {
                    255
                } else {
                    (7 * mob) as i16
                }
            } else {
                128
            };
            x.push((v - 128) as i8);
            k = k + 1;
        }
        let a: Vec<i8> = self.first_activations(st, &x, Ghost(lanes));
        let ghost first = first_layer(self.numbers, st as int, lanes);
        let c: Vec<i8> = self.second_activations(st, &a, Ghost(first));
        let ghost second = second_layer(self.numbers, st as int, first);
        let ghost ins = out_inputs(self.numbers, st as int, lanes);
        let mut y: Vec<i8> = Vec::new();
        let mut i: usize = 0;
        while i < OUT_IN
            invariant
                x@.len() == L1_IN,
                c@.len() == SO_L2,
                lanes.len() == SO_L1_IN,
                second.len() == SO_L2,
                moved_down(x@, lanes),
                moved_down(c@, second),
                ins == second + lanes.take(SO_SKIP as int),
                i <= OUT_IN,
                y@.len() == i,
                forall|q: int| 0 <= q < i ==> #[trigger] y@[q] == ins[q] - 128,
            decreases OUT_IN - i,
        {
            let v: i8 = if i < SO_L2 {
                c[i]
            } else {
                x[i - SO_L2]
            };
            y.push(v);
            i = i + 1;
        }
        let ghost ys = super::kernels::bytes_of(y@);
        let ghost w = self.numbers.out_w@;
        let at: usize = st * OUT_IN;
        let mut sum: i64 = self.out_folded[st];
        let ghost bias = sum as int;
        let mut q: usize = 0;
        while q < OUT_IN
            invariant
                self.wf(),
                st < self.numbers.stacks(),
                y@.len() == OUT_IN,
                ys == super::kernels::bytes_of(y@),
                w == self.numbers.out_w@,
                at == st * OUT_IN,
                -8_589_934_592 <= bias <= 8_589_934_592,
                q <= OUT_IN,
                sum == bias + lane_dot(w, at as int, ys, q as int),
                -4_194_304 * q <= sum - bias <= 4_194_304 * q,
            decreases OUT_IN - q,
        {
            let p: i16 = self.numbers.out_w[at + q];
            let r: i8 = y[q];
            assert(-4_194_304 <= p as int * r as int <= 4_194_304) by (nonlinear_arith)
                requires
                    -32768 <= p <= 32767,
                    -128 <= r <= 127,
            ;
            sum = sum + p as i64 * r as i64;
            q = q + 1;
        }
        proof {
            law_moved_lanes(w, at as int, ys, ins, OUT_IN as int);
        }
        sum
    }

    /// The lanes of the base layer of a position, from the side to move.
    pub open spec fn lanes(self, b: Board) -> Seq<i16> {
        summed(
            self.numbers.ft@,
            self.numbers.ft_bias@,
            0,
            own_rows(self.features.indexer.patterns@, 0, b.own(), b.opp()),
            ACC_DIMS as int,
        )
    }

    /// The lanes of the layer that depends on the part of the game.
    pub open spec fn phase_lanes(self, b: Board) -> Seq<i16> {
        let k = self.numbers.bucket_of@[stage_of(b)] as int;
        summed(
            self.numbers.pa@,
            self.numbers.pa_bias@,
            k * PA_DIMS,
            own_rows(
                self.features.indexer.patterns@,
                k * self.features.rows,
                b.own(),
                b.opp(),
            ),
            PA_DIMS as int,
        )
    }

    /// The output for a position.
    pub open spec fn output(self, b: Board) -> int {
        let moves = crate::bits::count(b.moves()) as int;
        let mob = if moves < super::MOB_BUCKETS {
            moves
        } else {
            super::MOB_BUCKETS - 1
        };
        stack_output(
            self.numbers,
            self.numbers.stack_of@[stage_of(b)] as int,
            stack_inputs(self.lanes(b), self.phase_lanes(b), mob),
        )
    }

    /// The output for a position whose indices the caller keeps.
    pub fn eval(&self, indices: &PatternIndices, b: &Board) -> (sum: i64)
        requires
            self.wf(),
            b.wf(),
            self.features.indexer.holds(*indices, b.black, b.white),
            self.buckets * self.features.rows <= usize::MAX,
        ensures
            sum == self.output(*b),
            -20_000_000_000 <= sum <= 20_000_000_000,
    {
        let stage: usize = Evaluator::stage(b);
        let k: usize = self.numbers.bucket_of[stage];
        assert(0 * self.features.rows == 0);
        let acc: Vec<i16> = side_lanes(
            &self.features,
            &self.numbers.ft,
            &self.ft_white,
            0,
            1,
            ACC_DIMS,
            &self.numbers.ft_bias,
            0,
            indices,
            b,
        );
        let pacc: Vec<i16> = side_lanes(
            &self.features,
            &self.numbers.pa,
            &self.pa_white,
            k,
            self.buckets,
            PA_DIMS,
            &self.numbers.pa_bias,
            k * PA_DIMS,
            indices,
            b,
        );
        assert(acc@ =~= self.lanes(*b));
        assert(pacc@ =~= self.phase_lanes(*b));
        self.eval_scalar(&acc, &pacc, self.numbers.stack_of[stage], mob_index(b))
    }
}

/// The lanes that rows add up to, with the biases from `at` on.
pub open spec fn summed(
    table: Seq<i16>,
    bias: Seq<i16>,
    at: int,
    rows: Seq<int>,
    width: int,
) -> Seq<i16> {
    Seq::new(
        width as nat,
        |h: int| wrap16(bias[at + h] + lane_sum(table, rows, width, h)) as i16,
    )
}

/// The rows with these numbers further on.
pub open spec fn further(rows: Seq<int>, by: int) -> Seq<int> {
    Seq::new(rows.len(), |i: int| rows[i] + by)
}

/// The rows of a part of the game are those of the first, further on.
pub proof fn law_phase_rows(patterns: Seq<Pattern>, base: int, own: u64, opp: u64)
    ensures
        own_rows(patterns, base, own, opp) == further(own_rows(patterns, 0, own, opp), base),
{
    assert(own_rows(patterns, base, own, opp) =~= further(own_rows(patterns, 0, own, opp), base));
}

/// Rows further on are lanes further on.
proof fn lemma_further(table: Seq<i16>, rows: Seq<int>, width: int, h: int, by: int)
    ensures
        lane_sum(table, further(rows, by), width, h) == lane_sum(table, rows, width, h + by * width),
{
    let (x, y) = (
        lane_values(table, further(rows, by), width, h),
        lane_values(table, rows, width, h + by * width),
    );
    assert forall|i: int| 0 <= i < rows.len() implies #[trigger] x[i] == y[i] by {
        let r = rows[i];
        assert((r + by) * width + h == r * width + (h + by * width)) by (nonlinear_arith);
    }
    assert(x =~= y);
}

/// What a stack gives depends neither on the order of the rows, nor on rows
/// behind the first `n`, nor on how far the mobility lies beyond its cap. The
/// rows of the second layer are `by` further on, where its part of the game
/// begins.
pub proof fn law_rows_and_cap(
    q: StackQ,
    st: int,
    at: int,
    by: int,
    a: Seq<int>,
    c: Seq<int>,
    n: int,
    mob: int,
    other: int,
)
    requires
        0 <= n <= a.len(),
        n <= c.len(),
        a.take(n).to_multiset() == c.take(n).to_multiset(),
        mob == other || mob >= 37 && other >= 37,
    ensures
        stack_output(
            q.numbers,
            st,
            stack_inputs(
                summed(q.numbers.ft@, q.numbers.ft_bias@, 0, a.take(n), ACC_DIMS as int),
                summed(q.numbers.pa@, q.numbers.pa_bias@, at, further(a.take(n), by), PA_DIMS as int),
                mob,
            ),
        ) == stack_output(
            q.numbers,
            st,
            stack_inputs(
                summed(q.numbers.ft@, q.numbers.ft_bias@, 0, c.take(n), ACC_DIMS as int),
                summed(q.numbers.pa@, q.numbers.pa_bias@, at, further(c.take(n), by), PA_DIMS as int),
                other,
            ),
        ),
{
    let (ft, pa) = (q.numbers.ft@, q.numbers.pa@);
    let (x, y) = (a.take(n), c.take(n));
    assert forall|h: int| true implies #[trigger] lane_sum(ft, x, ACC_DIMS as int, h) == lane_sum(
        ft,
        y,
        ACC_DIMS as int,
        h,
    ) by {
        law_row_order(ft, x, y, ACC_DIMS as int, h);
    }
    let (fx, fy) = (further(x, by), further(y, by));
    assert forall|h: int| true implies #[trigger] lane_sum(pa, fx, PA_DIMS as int, h) == lane_sum(
        pa,
        fy,
        PA_DIMS as int,
        h,
    ) by {
        lemma_further(pa, x, PA_DIMS as int, h, by);
        lemma_further(pa, y, PA_DIMS as int, h, by);
        law_row_order(pa, x, y, PA_DIMS as int, h + by * PA_DIMS);
    }
    assert(summed(ft, q.numbers.ft_bias@, 0, x, ACC_DIMS as int) =~= summed(
        ft,
        q.numbers.ft_bias@,
        0,
        y,
        ACC_DIMS as int,
    ));
    assert(summed(pa, q.numbers.pa_bias@, at, fx, PA_DIMS as int) =~= summed(
        pa,
        q.numbers.pa_bias@,
        at,
        fy,
        PA_DIMS as int,
    ));
    assert(mob_value(mob) == mob_value(other));
    let (u, v) = (
        summed(ft, q.numbers.ft_bias@, 0, x, ACC_DIMS as int),
        summed(pa, q.numbers.pa_bias@, at, fx, PA_DIMS as int),
    );
    assert(stack_inputs(u, v, mob) =~= stack_inputs(u, v, other));
}

/// The folded biases belong to their rows.
pub open spec fn folded<T: Lane>(b: Seq<i32>, w: Seq<T>, width: int, v: Seq<i64>) -> bool {
    &&& v.len() == b.len()
    &&& forall|i: int|
        0 <= i < b.len() ==> #[trigger] v[i] == b[i] + 128 * row_sum(w, i * width, width)
    &&& forall|i: int|
        0 <= i < b.len() ==> -8_589_934_592 <= #[trigger] v[i] <= 8_589_934_592
}

/// The activations are bytes. A pair of lanes gives nothing unless both are above zero,
/// their product scaled down where both are within the limit, and never less for more.
/// Squares do not tell the sign. A move more counts seven.
pub proof fn law_activations(lo: int, hi: int, more: int, s: int, mob: int)
    requires
        more >= 0,
        mob >= 0,
    ensures
        0 <= pair_value(lo, hi) <= 255,
        lo <= 0 || hi <= 0 ==> pair_value(lo, hi) == 0,
        0 <= lo <= ROW_CLAMP && 0 <= hi <= ROW_CLAMP && lo * hi * 32 / 32768 <= 255 ==> pair_value(lo, hi)
            == lo * hi * 32 / 32768,
        0 <= hi ==> pair_value(lo, hi) <= pair_value(lo + more, hi),
        pair_value(lo, hi) <= pair_value(lo, hi + more),
        squared(s) == squared(-s),
        0 <= squared(s) <= 255,
        mob <= 36 ==> mob_value(mob) == 7 * mob,
        mob > 36 ==> mob_value(mob) == 255,
{
    let c = ROW_CLAMP as int;
    let (a, b) = (kept(lo, 0, c), kept(lo + more, 0, c));
    let h = if hi > c {
        c
    } else {
        hi
    };
    let g = if hi + more > c {
        c
    } else {
        hi + more
    };
    if hi >= 0 {
        assert(32 * a * h <= 32 * b * h) by (nonlinear_arith)
            requires
                0 <= a <= b,
                h >= 0,
        ;
    }
    assert(32 * a * h <= 32 * a * g) by (nonlinear_arith)
        requires
            0 <= a,
            h <= g,
    ;
    assert(h <= 0 ==> 32 * a * h <= 0) by (nonlinear_arith)
        requires
            0 <= a,
    ;
    assert(a == 0 ==> 32 * a * h == 0) by (nonlinear_arith);
    assert(32 * lo * hi == lo * hi * 32) by (nonlinear_arith);
    assert(0 <= lo && 0 <= hi ==> lo * hi >= 0) by (nonlinear_arith);
    assert((-s) * (-s) == s * s && s * s >= 0) by (nonlinear_arith);
}

} // verus!
