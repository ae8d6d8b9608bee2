//! The network in integers: rows of bytes, sums of sixteen bits.

use vstd::prelude::*;

use crate::board::Board;
use crate::color::Color;
use crate::evaluator::{Evaluator, STAGE_COUNT, stage_of};
use crate::layout::{is_other_view, other_view};
use crate::pattern::{Pattern, flat_masks, mask_value, sum_first};
use crate::pattern_index::{MAX_MASKS, PatternIndices, law_apply_tracks, law_undo_restores};
use crate::position::Position;
use super::kernels::{acc_row_addsub, accumulate_rows, activations_i8, bytes_of, gate_sum, lane_dot, lane_sum, lane_values, layer_one, lemma_wrap16, numbers, packed_lane, prod_sum_q, readout, readout_dot, row_sum, rows_fit, weight_sum, wrap16};
use super::{FT_BUCKETS, Features, H, lemma_view_row, own_rows, side_lanes};

verus! {

/// Lanes of both sides together.
pub const H2: usize = 64;

/// Half the lanes.
pub const HALF: usize = 16;

/// Outputs of the head's first layer.
pub const MLP_H1: usize = 16;

/// The numbers from which the integer network is built.
#[derive(Debug)]
pub struct Numbers {
    /// Feature rows as Black reads them, `H` lanes each.
    pub ft: Vec<i8>,
    /// Biases by stage, `H` lanes each.
    pub ft_bias: Vec<i16>,
    /// Read-out weights by stage, `H` lanes each.
    pub out_w: Vec<i16>,
    /// Weights of the product gate by stage, half the lanes each.
    pub pw: Vec<i16>,
    /// Where the product gate cuts a lane off.
    pub prod_clamp: i32,
    /// The head's first layer, `H` weights for each output.
    pub l1_w: Vec<i8>,
    /// By how many bits a lane is scaled down for the head.
    pub act_shift: u8,
}

impl Numbers {
    /// The numbers fit a library with the given number of rows.
    pub open spec fn fit(self, rows: int) -> bool {
        &&& self.ft@.len() == FT_BUCKETS * rows * H
        &&& self.ft_bias@.len() == STAGE_COUNT * H
        &&& self.out_w@.len() == STAGE_COUNT * H
        &&& self.pw@.len() == STAGE_COUNT * HALF
        &&& 0 <= self.prod_clamp <= 32767
        &&& self.l1_w@.len() == MLP_H1 * H
        &&& self.act_shift <= 15
    }
}

/// The network in integers.
#[derive(Debug)]
pub struct QuantNnue {
    pub features: Features,
    pub numbers: Numbers,
    /// Feature rows as White reads them.
    pub ft_white: Vec<i8>,
    /// Both sides' rows side by side: Black's lanes, then White's.
    pub ft_both: Vec<i16>,
    /// For each output of the head's first layer the sum of its weights.
    pub l1_rowsum: Vec<i32>,
}

/// What the network reads off an accumulator.
#[derive(Debug)]
pub struct Reading {
    /// The read-out of the lanes.
    pub readout: i64,
    /// The sum of the product gate.
    pub product: i64,
    /// The outputs of the head's first layer before their biases.
    pub head: Vec<i32>,
}

/// The sums of the rows that a position selects, kept up to date over moves.
#[derive(Debug)]
pub struct Accumulator {
    pub indices: PatternIndices,
    /// Black's lanes, then White's.
    pub acc: Vec<i16>,
}

/// The rows that the indices select, as a side reads them.
pub open spec fn side_rows(f: Features, indices: PatternIndices, player: Color) -> Seq<int> {
    Seq::new(f.indexer.masks@.len(), |m: int| f.row(indices, m, player))
}

/// What the head's first layer reads of a lane, before it is moved down.
pub open spec fn head_lane(a: i16, b: i16, shift: nat) -> int {
    packed_lane(a, b, shift) + 128
}

/// What is read off an accumulator at a stage.
pub open spec fn reads(n: QuantNnue, acc: Seq<i16>, stage: int, r: Reading) -> bool {
    let fb = n.numbers.ft_bias@.subrange(stage * H, stage * H + H);
    &&& r.readout == readout(
        acc,
        fb,
        n.numbers.out_w@.subrange(stage * H, stage * H + H),
        H as int,
    )
    &&& r.product == gate_sum(
        acc,
        fb,
        n.numbers.pw@.subrange(stage * HALF, stage * HALF + HALF),
        n.numbers.prod_clamp as int,
        HALF as int,
    )
    &&& r.head@.len() == MLP_H1
    &&& forall|i: int|
        0 <= i < MLP_H1 ==> #[trigger] r.head@[i] == lane_dot(
            n.numbers.l1_w@,
            i * H,
            Seq::new(
                H as nat,
                |h: int| head_lane(acc[h], fb[h], n.numbers.act_shift as nat),
            ),
            H as int,
        )
}

impl QuantNnue {
    /// The tables belong together.
    pub open spec fn wf(self) -> bool {
        let rows = self.features.rows as int;
        &&& self.features.wf()
        &&& self.numbers.fit(rows)
        &&& is_other_view(
            self.features.indexer.patterns@,
            self.numbers.ft@,
            self.ft_white@,
            FT_BUCKETS * rows,
            H as int,
        )
        &&& self.ft_both@.len() == rows * H2
        &&& forall|r: int, h: int|
            0 <= r < rows && 0 <= h < H ==> #[trigger] self.ft_both@[r * H2 + h]
                == self.numbers.ft@[r * H + h]
        &&& forall|r: int, h: int|
            0 <= r < rows && 0 <= h < H ==> #[trigger] self.ft_both@[r * H2 + (H + h)]
                == self.ft_white@[r * H + h]
        &&& self.l1_rowsum@.len() == MLP_H1
        &&& forall|i: int|
            0 <= i < MLP_H1 ==> #[trigger] self.l1_rowsum@[i] == row_sum(
                self.numbers.l1_w@,
                i * H,
                H as int,
            )
    }

    /// The network of the given numbers.
    pub fn new(patterns: Vec<Pattern>, numbers: Numbers) -> (n: QuantNnue)
        requires
            crate::pattern_index::indexable(patterns@),
            patterns@.len() > 0,
            numbers.fit(crate::layout::row_count(patterns@)),
        ensures
            n.wf(),
            n.features.indexer.patterns == patterns,
            n.numbers == numbers,
    {
        let features: Features = Features::new(patterns);
        let rows: usize = features.rows;
        let ft_white: Vec<i8> = other_view(&features.indexer.patterns, &numbers.ft, FT_BUCKETS, H);
        let ft_both: Vec<i16> = side_by_side(&numbers.ft, &ft_white, rows);
        let mut l1_rowsum: Vec<i32> = Vec::new();
        let mut i: usize = 0;
        while i < MLP_H1
            invariant
                numbers.l1_w@.len() == MLP_H1 * H,
                i <= MLP_H1,
                l1_rowsum@.len() == i,
                forall|j: int|
                    0 <= j < i ==> #[trigger] l1_rowsum@[j] == row_sum(
                        numbers.l1_w@,
                        j * H,
                        H as int,
                    ),
            decreases MLP_H1 - i,
        {
            l1_rowsum.push(weight_sum(&numbers.l1_w, i * H, H));
            i = i + 1;
        }
        QuantNnue { features, numbers, ft_white, ft_both, l1_rowsum }
    }

    /// The lanes that a position's rows add up to, from the side to move.
    pub open spec fn lanes(self, b: Board) -> Seq<i16> {
        Seq::new(
            H as nat,
            |h: int|
                wrap16(
                    lane_sum(
                        self.numbers.ft@,
                        own_rows(self.features.indexer.patterns@, 0, b.own(), b.opp()),
                        H as int,
                        h,
                    ),
                ) as i16,
        )
    }

    /// Rows of the tables lie within them.
    proof fn lemma_rows_fit(self, indices: PatternIndices, width: int)
        requires
            self.wf(),
            self.features.fits(indices),
            width > 0,
        ensures
            rows_fit(
                self.features.rows * width,
                side_rows(self.features, indices, Color::Black),
                width,
            ),
    {
        let rows = self.features.rows as int;
        let ids = side_rows(self.features, indices, Color::Black);
        assert forall|m: int| 0 <= m < ids.len() implies 0 <= #[trigger] ids[m] && ids[m] * width
            + width <= rows * width by {
            self.features.lemma_row(indices, m, Color::Black);
            let r = ids[m];
            assert(r * width + width <= rows * width) by (nonlinear_arith)
                requires
                    0 <= r < rows,
                    width > 0,
            ;
        }
    }

    /// White's rows where Black's indices point are Black's rows where White's
    /// indices point.
    proof fn lemma_white_lane(self, indices: PatternIndices, h: int)
        requires
            self.wf(),
            self.features.fits(indices),
            0 <= h < H,
        ensures
            lane_sum(
                self.ft_white@,
                side_rows(self.features, indices, Color::Black),
                H as int,
                h,
            ) == lane_sum(
                self.numbers.ft@,
                side_rows(self.features, indices, Color::White),
                H as int,
                h,
            ),
    {
        let f = self.features;
        let a = lane_values(self.ft_white@, side_rows(f, indices, Color::Black), H as int, h);
        let c = lane_values(self.numbers.ft@, side_rows(f, indices, Color::White), H as int, h);
        assert forall|m: int| 0 <= m < a.len() implies a[m] == c[m] by {
            lemma_view_row(
                f,
                self.numbers.ft@,
                self.ft_white@,
                0,
                FT_BUCKETS as int,
                H as int,
                indices,
                m,
                h,
            );
            assert(0 * f.rows == 0);
        }
        assert(a =~= c);
    }

    /// The rows of the side to move.
    proof fn lemma_own_rows(self, b: Board, indices: PatternIndices)
        requires
            self.wf(),
            b.wf(),
            self.features.indexer.holds(indices, b.black, b.white),
        ensures
            side_rows(self.features, indices, b.player) == own_rows(
                self.features.indexer.patterns@,
                0,
                b.own(),
                b.opp(),
            ),
    {
        let f = self.features;
        let a = side_rows(f, indices, b.player);
        let c = own_rows(f.indexer.patterns@, 0, b.own(), b.opp());
        assert forall|m: int| 0 <= m < a.len() implies a[m] == c[m] by {
            f.lemma_own_row(b, indices, m);
        }
        assert(a =~= c);
    }

    /// The lanes of a position, added up row by row.
    pub fn accumulate(&self, indices: &PatternIndices, b: &Board) -> (acc: Vec<i16>)
        requires
            self.wf(),
            b.wf(),
            self.features.indexer.holds(*indices, b.black, b.white),
        ensures
            acc@ == self.lanes(*b),
    {
        let zero: Vec<i16> = zeros(H);
        let acc: Vec<i16> = side_lanes(
            &self.features,
            &self.numbers.ft,
            &self.ft_white,
            0,
            FT_BUCKETS,
            H,
            &zero,
            0,
            indices,
            b,
        );
        proof {
            assert forall|h: int| 0 <= h < H implies acc@[h] == self.lanes(*b)[h] by {
                let x = lane_sum(
                    self.numbers.ft@,
                    own_rows(self.features.indexer.patterns@, 0, b.own(), b.opp()),
                    H as int,
                    h,
                );
                assert(acc@[h] == wrap16(0 + x));
                lemma_wrap16(x, 0);
            }
            assert(acc@ =~= self.lanes(*b));
        }
        acc
    }

    /// What the network reads off the lanes at a stage.
    pub fn read(&self, acc: &Vec<i16>, stage: usize) -> (r: Reading)
        requires
            self.wf(),
            acc@.len() == H,
            stage < STAGE_COUNT,
        ensures
            reads(*self, acc@, stage as int, r),
            -0x1_0000_0000_0000 <= r.readout <= 0x1_0000_0000_0000,
            -0x10_0000_0000_0000 <= r.product <= 0x10_0000_0000_0000,
    {
        let at: usize = stage * H;
        let from: usize = stage * HALF;
        let sum: i64 = readout_dot(acc, &self.numbers.ft_bias, &self.numbers.out_w, at);
        let product: i64 = prod_sum_q(
            acc,
            &self.numbers.ft_bias,
            at,
            &self.numbers.pw,
            from,
            self.numbers.prod_clamp,
        );
        let x: Vec<i8> = activations_i8(acc, &self.numbers.ft_bias, at, self.numbers.act_shift);
        let ghost lanes = Seq::new(
            H as nat,
            |h: int|
                head_lane(
                    acc@[h],
                    self.numbers.ft_bias@.subrange(stage * H, stage * H + H)[h],
                    self.numbers.act_shift as nat,
                ),
        );
        let mut head: Vec<i32> = Vec::new();
        let mut i: usize = 0;
        while i < MLP_H1
            invariant
                self.wf(),
                x@.len() == H,
                lanes.len() == H,
                forall|h: int| 0 <= h < H ==> #[trigger] x@[h] == lanes[h] - 128,
                i <= MLP_H1,
                head@.len() == i,
                forall|j: int|
                    0 <= j < i ==> #[trigger] head@[j] == lane_dot(
                        self.numbers.l1_w@,
                        j * H,
                        lanes,
                        H as int,
                    ),
            decreases MLP_H1 - i,
        {
            let d: i32 = layer_one(&self.numbers.l1_w, i * H, &x, self.l1_rowsum[i]);
            proof {
                super::kernels::law_moved_lanes(
                    self.numbers.l1_w@,
                    i * H,
                    bytes_of(x@),
                    lanes,
                    H as int,
                );
            }
            head.push(d);
            i = i + 1;
        }
        Reading { readout: sum, product, head }
    }

    /// What the network reads of a position whose indices the caller keeps.
    pub fn eval_from_indices(&self, indices: &PatternIndices, b: &Board) -> (r: Reading)
        requires
            self.wf(),
            b.wf(),
            self.features.indexer.holds(*indices, b.black, b.white),
        ensures
            reads(*self, self.lanes(*b), stage_of(*b), r),
    {
        let acc: Vec<i16> = self.accumulate(indices, b);
        self.read(&acc, Evaluator::stage(b))
    }

    /// The accumulator holds the sums of the rows that its indices select.
    pub open spec fn counts(self, acc: Accumulator) -> bool {
        &&& self.features.fits(acc.indices)
        &&& acc.acc@.len() == H2
        &&& forall|i: int|
            0 <= i < H2 ==> #[trigger] acc.acc@[i] == wrap16(
                lane_sum(
                    self.ft_both@,
                    side_rows(self.features, acc.indices, Color::Black),
                    H2 as int,
                    i,
                ),
            )
    }

    /// The accumulator holds the sums of a position.
    pub open spec fn tracks(self, acc: Accumulator, black: u64, white: u64) -> bool {
        &&& self.counts(acc)
        &&& self.features.indexer.holds(acc.indices, black, white)
    }

    /// The accumulator of a position.
    pub fn accumulator(&self, b: &Board) -> (acc: Accumulator)
        requires
            self.wf(),
        ensures
            self.tracks(acc, b.black, b.white),
    {
        let indices: PatternIndices = self.features.indices(b.black, b.white);
        proof {
            self.lemma_rows_fit(indices, H2 as int);
        }
        let rows: Vec<usize> = self.features.features_black(&indices, 0);
        assert(numbers(rows@) =~= side_rows(self.features, indices, Color::Black));
        let zero: Vec<i16> = zeros(H2);
        let acc: Vec<i16> = accumulate_rows(&self.ft_both, &rows, H2, &zero, 0);
        Accumulator { indices, acc }
    }

    /// Bring the sums from the rows of the old indices to those of the new.
    fn acc_follow(&self, acc: &mut Accumulator, from: &PatternIndices)
        requires
            self.wf(),
            self.features.fits(*from),
            self.features.fits(old(acc).indices),
            self.counts((Accumulator { indices: *from, acc: old(acc).acc })),
        ensures
            final(acc).indices == old(acc).indices,
            self.counts(*final(acc)),
    {
        let n: usize = self.features.mask_off.len();
        let ghost f = self.features;
        let ghost was = side_rows(f, *from, Color::Black);
        let ghost now = side_rows(f, acc.indices, Color::Black);
        let ghost start = acc.acc@;
        proof {
            assert forall|i: int| 0 <= i < H2 implies #[trigger] start[i] == wrap16(
                start[i] + step_sum(self.ft_both@, was, now, i, 0),
            ) by {
                lemma_wrap16(start[i] as int, 0);
            }
        }
        let mut m: usize = 0;
        while m < n
            invariant
                self.wf(),
                f == self.features,
                n == self.features.mask_off@.len(),
                f.fits(*from),
                f.fits(acc.indices),
                acc.indices == old(acc).indices,
                was == side_rows(f, *from, Color::Black),
                now == side_rows(f, acc.indices, Color::Black),
                m <= n,
                acc.acc@.len() == H2,
                start.len() == H2,
                forall|i: int|
                    0 <= i < H2 ==> #[trigger] acc.acc@[i] == wrap16(
                        start[i] + step_sum(self.ft_both@, was, now, i, m as int),
                    ),
            decreases n - m,
        {
            let old_idx: u16 = from.idx[m];
            let new_idx: u16 = acc.indices.idx[m];
            let ghost before = acc.acc@;
            proof {
                f.lemma_row(*from, m as int, Color::Black);
                f.lemma_row(acc.indices, m as int, Color::Black);
                self.lemma_rows_fit(*from, H2 as int);
                self.lemma_rows_fit(acc.indices, H2 as int);
                assert(was[m as int] * H2 + H2 <= f.rows * H2);
                assert(now[m as int] * H2 + H2 <= f.rows * H2);
            }
            if old_idx != new_idx {
                let base: usize = self.features.mask_off[m] as usize;
                acc_row_addsub(
                    &mut acc.acc,
                    &self.ft_both,
                    (base + new_idx as usize) * H2,
                    (base + old_idx as usize) * H2,
                );
            }
            proof {
                assert forall|i: int| 0 <= i < H2 implies #[trigger] acc.acc@[i] == wrap16(
                    start[i] + step_sum(self.ft_both@, was, now, i, m + 1),
                ) by {
                    let x = start[i] + step_sum(self.ft_both@, was, now, i, m as int);
                    let d = self.ft_both@[now[m as int] * H2 + i] - self.ft_both@[was[m as int] * H2
                        + i];
                    assert(before[i] == wrap16(x));
                    lemma_wrap16(x, d);
                }
            }
            m = m + 1;
        }
        proof {
            assert forall|i: int| 0 <= i < H2 implies #[trigger] acc.acc@[i] == wrap16(
                lane_sum(self.ft_both@, now, H2 as int, i),
            ) by {
                lemma_step_sum(self.ft_both@, was, now, i, n as int);
                let a = lane_sum(self.ft_both@, was, H2 as int, i);
                let d = step_sum(self.ft_both@, was, now, i, n as int);
                assert(start[i] == wrap16(a));
                lemma_wrap16(a, d);
            }
        }
    }

    /// A position in which `mover` can place a disc on `pos` and turn `flipped`.
    pub open spec fn starts(b: Board, pos: Position, flipped: u64, mover: Color) -> bool {
        &&& b.wf()
        &&& b.player == mover
        &&& b.vacant(pos.0 as int)
        &&& flipped & b.opp() == flipped
    }

    /// The accumulator after `mover` has placed a disc on `pos` and turned
    /// `flipped`.
    pub fn acc_apply(&self, acc: &mut Accumulator, pos: Position, flipped: u64, mover: Color)
        requires
            self.wf(),
            pos.wf(),
            exists|b: Board|
                #[trigger] Self::starts(b, pos, flipped, mover) && self.tracks(
                    *old(acc),
                    b.black,
                    b.white,
                ),
        ensures
            forall|b: Board|
                #[trigger] Self::starts(b, pos, flipped, mover) && self.tracks(
                    *old(acc),
                    b.black,
                    b.white,
                ) ==> self.tracks(
                    *final(acc),
                    b.placed(pos.0 as int, flipped).black,
                    b.placed(pos.0 as int, flipped).white,
                ),
            forall|m: int|
                self.features.indexer.masks@.len() <= m < MAX_MASKS
                    ==> #[trigger] final(acc).indices.idx@[m] == old(acc).indices.idx@[m],
    {
        let from: PatternIndices = acc.indices;
        let ghost was = *acc;
        let ghost ix = self.features.indexer;
        self.features.indexer.apply(&mut acc.indices, pos, flipped, mover);
        let ghost now = acc.indices;
        proof {
            assert forall|b: Board|
                #[trigger] Self::starts(b, pos, flipped, mover) && self.tracks(
                    was,
                    b.black,
                    b.white,
                ) implies ix.holds(
                now,
                b.placed(pos.0 as int, flipped).black,
                b.placed(pos.0 as int, flipped).white,
            ) by {
                let c = b.placed(pos.0 as int, flipped);
                assert forall|m: int| 0 <= m < ix.masks@.len() implies #[trigger] now.idx@[m]
                    == mask_value(ix.masks@[m]@, c.black, c.white) by {
                    law_apply_tracks(ix, b, pos, flipped, m);
                    assert(was.indices.idx@[m] == mask_value(ix.masks@[m]@, b.black, b.white));
                }
            }
            let b = choose|b: Board|
                #[trigger] Self::starts(b, pos, flipped, mover) && self.tracks(
                    was,
                    b.black,
                    b.white,
                );
            let c = b.placed(pos.0 as int, flipped);
            self.features.lemma_fits(now, c.black, c.white);
        }
        self.acc_follow(acc, &from);
    }

    /// The accumulator before `mover` placed a disc on `pos` and turned
    /// `flipped`.
    pub fn acc_undo(&self, acc: &mut Accumulator, pos: Position, flipped: u64, mover: Color)
        requires
            self.wf(),
            pos.wf(),
            exists|b: Board|
                #[trigger] Self::starts(b, pos, flipped, mover) && self.tracks(
                    *old(acc),
                    b.placed(pos.0 as int, flipped).black,
                    b.placed(pos.0 as int, flipped).white,
                ),
        ensures
            forall|b: Board|
                #[trigger] Self::starts(b, pos, flipped, mover) && self.tracks(
                    *old(acc),
                    b.placed(pos.0 as int, flipped).black,
                    b.placed(pos.0 as int, flipped).white,
                ) ==> self.tracks(*final(acc), b.black, b.white),
            forall|m: int|
                self.features.indexer.masks@.len() <= m < MAX_MASKS
                    ==> #[trigger] final(acc).indices.idx@[m] == old(acc).indices.idx@[m],
    {
        let from: PatternIndices = acc.indices;
        let ghost was = *acc;
        let ghost ix = self.features.indexer;
        self.features.indexer.undo(&mut acc.indices, pos, flipped, mover);
        let ghost now = acc.indices;
        proof {
            assert forall|b: Board|
                #[trigger] Self::starts(b, pos, flipped, mover) && self.tracks(
                    was,
                    b.placed(pos.0 as int, flipped).black,
                    b.placed(pos.0 as int, flipped).white,
                ) implies ix.holds(now, b.black, b.white) by {
                let c = b.placed(pos.0 as int, flipped);
                assert forall|m: int| 0 <= m < ix.masks@.len() implies #[trigger] now.idx@[m]
                    == mask_value(ix.masks@[m]@, b.black, b.white) by {
                    law_apply_tracks(ix, b, pos, flipped, m);
                    assert(was.indices.idx@[m] == mask_value(ix.masks@[m]@, c.black, c.white));
                    let x = mask_value(ix.masks@[m]@, b.black, b.white);
                    crate::pattern_index::lemma_masks_ok(ix.patterns@, m);
                    assert(ix.masks@[m]@ == flat_masks(ix.patterns@)[m]);
                    crate::pattern::lemma_mask_value_bound(ix.masks@[m]@, b.black, b.white);
                    crate::pattern::lemma_pow3_mono(ix.masks@[m]@.len(), 10);
                    crate::pattern::lemma_pow3_values();
                    law_undo_restores(x as u16, ix.change(m, pos, flipped, b.player));
                }
            }
            let b = choose|b: Board|
                #[trigger] Self::starts(b, pos, flipped, mover) && self.tracks(
                    was,
                    b.placed(pos.0 as int, flipped).black,
                    b.placed(pos.0 as int, flipped).white,
                );
            self.features.lemma_fits(now, b.black, b.white);
        }
        self.acc_follow(acc, &from);
    }

    /// What the network reads of a position whose accumulator the caller keeps.
    pub fn eval_acc(&self, acc: &Accumulator, b: &Board) -> (r: Reading)
        requires
            self.wf(),
            b.wf(),
            self.tracks(*acc, b.black, b.white),
        ensures
            reads(*self, self.lanes(*b), stage_of(*b), r),
    {
        let at: usize = match b.player {
            Color::Black => 0,
            Color::White => H,
        };
        let mut v: Vec<i16> = Vec::new();
        let mut h: usize = 0;
        while h < H
            invariant
                h <= H,
                at <= H,
                acc.acc@.len() == H2,
                v@.len() == h,
                forall|k: int| 0 <= k < h ==> #[trigger] v@[k] == acc.acc@[at + k],
            decreases H - h,
        {
            v.push(acc.acc[at + h]);
            h = h + 1;
        }
        proof {
            law_accumulator_lanes(*self, *acc, *b);
            assert(v@ =~= self.lanes(*b));
        }
        self.read(&v, Evaluator::stage(b))
    }
}

/// How much the first `n` changed rows add to a lane.
pub open spec fn step_sum(table: Seq<i16>, was: Seq<int>, now: Seq<int>, i: int, n: int) -> int
    decreases n,
{
    if n <= 0 {
        0
    } else {
        step_sum(table, was, now, i, n - 1) + table[now[n - 1] * H2 + i] - table[was[n - 1] * H2
            + i]
    }
}

proof fn lemma_step_sum(table: Seq<i16>, was: Seq<int>, now: Seq<int>, i: int, n: int)
    requires
        0 <= n <= was.len(),
        was.len() == now.len(),
    ensures
        sum_first(lane_values(table, now, H2 as int, i), n) == sum_first(
            lane_values(table, was, H2 as int, i),
            n,
        ) + step_sum(table, was, now, i, n),
    decreases n,
{
    if n > 0 {
        lemma_step_sum(table, was, now, i, n - 1);
    }
}

/// An accumulator that was kept up to date over moves holds, for the side to
/// move, the lanes that adding up the rows anew gives.
pub proof fn law_accumulator_lanes(n: QuantNnue, acc: Accumulator, b: Board)
    requires
        n.wf(),
        b.wf(),
        n.tracks(acc, b.black, b.white),
    ensures
        b.player == Color::Black ==> acc.acc@.subrange(0, H as int) == n.lanes(b),
        b.player == Color::White ==> acc.acc@.subrange(H as int, H2 as int) == n.lanes(b),
{
    let f = n.features;
    let rows = side_rows(f, acc.indices, Color::Black);
    n.lemma_own_rows(b, acc.indices);
    n.lemma_rows_fit(acc.indices, H2 as int);
    assert forall|h: int| 0 <= h < H implies #[trigger] lane_sum(n.ft_both@, rows, H2 as int, h)
        == lane_sum(n.numbers.ft@, rows, H as int, h) by {
        let x = lane_values(n.ft_both@, rows, H2 as int, h);
        let y = lane_values(n.numbers.ft@, rows, H as int, h);
        assert forall|m: int| 0 <= m < x.len() implies x[m] == y[m] by {
            f.lemma_row(acc.indices, m, Color::Black);
            assert(n.ft_both@[rows[m] * H2 + h] == n.numbers.ft@[rows[m] * H + h]);
        }
        assert(x =~= y);
    }
    assert forall|h: int| 0 <= h < H implies lane_sum(n.ft_both@, rows, H2 as int, #[trigger] (H + h))
        == lane_sum(n.ft_white@, rows, H as int, h) by {
        let x = lane_values(n.ft_both@, rows, H2 as int, H + h);
        let y = lane_values(n.ft_white@, rows, H as int, h);
        assert forall|m: int| 0 <= m < x.len() implies x[m] == y[m] by {
            f.lemma_row(acc.indices, m, Color::Black);
            assert(n.ft_both@[rows[m] * H2 + (H + h)] == n.ft_white@[rows[m] * H + h]);
        }
        assert(x =~= y);
    }
    if b.player == Color::Black {
        assert forall|h: int| 0 <= h < H implies acc.acc@.subrange(0, H as int)[h] == n.lanes(b)[h] by {
            assert(acc.acc@[h] == wrap16(lane_sum(n.ft_both@, rows, H2 as int, h)));
        }
        assert(acc.acc@.subrange(0, H as int) =~= n.lanes(b));
    } else {
        let part = acc.acc@.subrange(H as int, H2 as int);
        assert forall|h: int| 0 <= h < H implies part[h] == n.lanes(b)[h] by {
            assert(acc.acc@[H + h] == wrap16(lane_sum(n.ft_both@, rows, H2 as int, H + h)));
            n.lemma_white_lane(acc.indices, h);
        }
        assert(part =~= n.lanes(b));
    }
}

/// Two accumulators of one position hold the same sums: taking a move back
/// gives the sums before it.
pub proof fn law_accumulators_agree(n: QuantNnue, a: Accumulator, c: Accumulator, black: u64, white: u64)
    requires
        n.wf(),
        n.tracks(a, black, white),
        n.tracks(c, black, white),
    ensures
        a.acc@ == c.acc@,
        forall|m: int|
            0 <= m < n.features.indexer.masks@.len() ==> #[trigger] a.indices.idx@[m]
                == c.indices.idx@[m],
{
    let f = n.features;
    assert forall|m: int| 0 <= m < f.indexer.masks@.len() implies #[trigger] a.indices.idx@[m]
        == c.indices.idx@[m] by {
        assert(a.indices.idx@[m] == mask_value(f.indexer.masks@[m]@, black, white));
        assert(c.indices.idx@[m] == mask_value(f.indexer.masks@[m]@, black, white));
    }
    let x = side_rows(f, a.indices, Color::Black);
    let y = side_rows(f, c.indices, Color::Black);
    assert forall|m: int| 0 <= m < x.len() implies x[m] == y[m] by {
        assert(a.indices.idx@[m] == c.indices.idx@[m]);
    }
    assert(x =~= y);
    assert forall|i: int| 0 <= i < H2 implies a.acc@[i] == c.acc@[i] by {
        assert(a.acc@[i] == wrap16(lane_sum(n.ft_both@, x, H2 as int, i)));
        assert(c.acc@[i] == wrap16(lane_sum(n.ft_both@, x, H2 as int, i)));
    }
    assert(a.acc@ =~= c.acc@);
}

/// A row of zeros.
fn zeros(n: usize) -> (v: Vec<i16>)
    ensures
        v@.len() == n,
        forall|h: int| 0 <= h < n ==> #[trigger] v@[h] == 0,
{
    let mut v: Vec<i16> = Vec::new();
    while v.len() < n
        invariant
            v@.len() <= n,
            forall|h: int| 0 <= h < v@.len() ==> #[trigger] v@[h] == 0,
        decreases n - v@.len(),
    {
        v.push(0);
    }
    v
}

/// Black's and White's rows side by side.
fn side_by_side(black: &Vec<i8>, white: &Vec<i8>, rows: usize) -> (v: Vec<i16>)
    requires
        black@.len() == rows * H,
        white@.len() == rows * H,
        rows <= 59049 * 256,
    ensures
        v@.len() == rows * H2,
        forall|r: int, h: int|
            0 <= r < rows && 0 <= h < H ==> #[trigger] v@[r * H2 + h] == black@[r * H + h],
        forall|r: int, h: int|
            0 <= r < rows && 0 <= h < H ==> #[trigger] v@[r * H2 + (H + h)] == white@[r * H + h],
{
    let mut v: Vec<i16> = Vec::new();
    let mut r: usize = 0;
    while r < rows
        invariant
            black@.len() == rows * H,
            white@.len() == rows * H,
            rows <= 59049 * 256,
            r <= rows,
            v@.len() == r * H2,
            forall|q: int, h: int|
                0 <= q < r && 0 <= h < H ==> #[trigger] v@[q * H2 + h] == black@[q * H + h],
            forall|q: int, h: int|
                0 <= q < r && 0 <= h < H ==> #[trigger] v@[q * H2 + (H + h)] == white@[q * H + h],
        decreases rows - r,
    {
        let ghost before = v@;
        let mut h: usize = 0;
        while h < H2
            invariant
                black@.len() == rows * H,
                white@.len() == rows * H,
                rows <= 59049 * 256,
                r < rows,
                h <= H2,
                before.len() == r * H2,
                v@.len() == r * H2 + h,
                forall|k: int| 0 <= k < before.len() ==> #[trigger] v@[k] == before[k],
                forall|k: int|
                    0 <= k < h ==> #[trigger] v@[r * H2 + k] == if k < H {
                        black@[r * H + k]
                    } else {
                        white@[r * H + (k - H)]
                    },
            decreases H2 - h,
        {
            let x: i8 = if h < H {
                black[r * H + h]
            } else {
                white[r * H + (h - H)]
            };
            v.push(x as i16);
            h = h + 1;
        }
        proof {
            assert forall|q: int, h: int| 0 <= q < r + 1 && 0 <= h < H implies #[trigger] v@[q * H2
                + h] == black@[q * H + h] by {
                if q < r {
                    assert(before[q * H2 + h] == black@[q * H + h]);
                }
            }
            assert forall|q: int, h: int| 0 <= q < r + 1 && 0 <= h < H implies #[trigger] v@[q * H2
                + (H + h)] == white@[q * H + h] by {
                if q < r {
                    assert(before[q * H2 + (H + h)] == white@[q * H + h]);
                } else {
                    assert(v@[r * H2 + (H + h)] == white@[r * H + ((H + h) - H)]);
                }
            }
        }
        r = r + 1;
    }
    v
}

} // verus!
