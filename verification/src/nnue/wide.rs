//! The network with sums of thirty-two bits, for comparison: its rows are finer,
//! and its sums never wrap.

use vstd::prelude::*;

use crate::board::Board;
use crate::color::Color;
use crate::evaluator::{Evaluator, STAGE_COUNT, stage_of};
use crate::layout::{copied_other_row, is_other_view, lemma_copied_other_row, other_view, row_count};
use crate::pattern::{Pattern, flat_masks, lemma_mask_value_bound, lemma_pow3_mono, lemma_pow3_values, library_wf, mask_value, sum_first};
use crate::pattern_index::{MAX_MASKS, PatternIndices, indexable, law_apply_tracks, law_undo_restores, lemma_masks_ok};
use crate::position::Position;
use super::quantized::{H2, QuantNnue, side_rows};
use super::{FT_BUCKETS, Features, H, lemma_view_row, own_rows};

verus! {

/// The greatest number of a feature row.
pub const ROW_LIMIT: i32 = 2048;

/// The greatest bias.
pub const BIAS_LIMIT: i32 = 0x4000_0000;

/// The greatest read-out weight.
pub const WEIGHT_LIMIT: i32 = 262_144;

/// The numbers from which the network is built.
#[derive(Debug)]
pub struct WideNumbers {
    /// Feature rows as Black reads them, `H` lanes each.
    pub ft: Vec<i32>,
    /// Biases by stage, `H` lanes each.
    pub ft_bias: Vec<i32>,
    /// Read-out weights by stage, `H` lanes each.
    pub out_w: Vec<i32>,
}

/// No number is larger than the limit.
pub open spec fn within(v: Seq<i32>, limit: int) -> bool {
    forall|i: int| 0 <= i < v.len() ==> -limit <= #[trigger] v[i] <= limit
}

impl WideNumbers {
    /// The numbers fit a library with the given number of rows.
    pub open spec fn fit(self, rows: int) -> bool {
        &&& self.ft@.len() == FT_BUCKETS * rows * H
        &&& self.ft_bias@.len() == STAGE_COUNT * H
        &&& self.out_w@.len() == STAGE_COUNT * H
        &&& within(self.ft@, ROW_LIMIT as int)
        &&& within(self.ft_bias@, BIAS_LIMIT as int)
        &&& within(self.out_w@, WEIGHT_LIMIT as int)
    }
}

/// The network.
#[derive(Debug)]
pub struct WideNnue {
    pub features: Features,
    pub numbers: WideNumbers,
    /// Feature rows as White reads them.
    pub ft_white: Vec<i32>,
}

/// The sums of the rows that a position selects, kept up to date over moves.
#[derive(Debug)]
pub struct Accumulator32 {
    pub indices: PatternIndices,
    /// Black's lanes, then White's.
    pub acc: Vec<i32>,
}

/// What rows hold in a lane.
pub open spec fn lane_of(table: Seq<i32>, rows: Seq<int>, h: int) -> Seq<int> {
    Seq::new(rows.len(), |m: int| table[rows[m] * H + h] as int)
}

/// The lanes with their biases, cut off below zero, times their weights, added
/// up over the first `n`.
pub open spec fn wide_readout(lanes: Seq<int>, b: Seq<i32>, w: Seq<i32>, n: int) -> int
    decreases n,
{
    if n <= 0 {
        0
    } else {
        wide_readout(lanes, b, w, n - 1) + (if lanes[n - 1] + b[n - 1] > 0 {
            (lanes[n - 1] + b[n - 1]) * w[n - 1]
        } else {
            0
        })
    }
}

/// Sums of numbers within a limit.
proof fn lemma_sum_bound(v: Seq<int>, limit: int, m: int, n: int)
    requires
        0 <= m <= n <= v.len(),
        forall|i: int| 0 <= i < v.len() ==> -limit <= #[trigger] v[i] <= limit,
    ensures
        -limit * (n - m) <= sum_first(v, n) - sum_first(v, m) <= limit * (n - m),
    decreases n,
{
    if m < n {
        lemma_sum_bound(v, limit, m, n - 1);
        assert(-limit <= v[n - 1] <= limit);
        assert(limit * (n - m) == limit * (n - 1 - m) + limit) by (nonlinear_arith);
        assert(-limit * (n - m) == -limit * (n - 1 - m) - limit) by (nonlinear_arith);
    } else {
        assert(limit * (n - m) == 0 && -limit * (n - m) == 0) by (nonlinear_arith)
            requires
                n == m,
        ;
    }
}

impl WideNnue {
    /// The tables belong together.
    pub open spec fn wf(self) -> bool {
        let rows = self.features.rows as int;
        &&& self.features.wf()
        &&& self.numbers.fit(rows)
        &&& is_other_view(
            self.features.indexer.patterns@,
            self.numbers.ft@,
            self.ft_white@,
            FT_BUCKETS * rows,
            H as int,
        )
        &&& within(self.ft_white@, ROW_LIMIT as int)
    }

    /// The network of the given numbers.
    pub fn new(patterns: Vec<Pattern>, numbers: WideNumbers) -> (n: WideNnue)
        requires
            indexable(patterns@),
            patterns@.len() > 0,
            numbers.fit(row_count(patterns@)),
        ensures
            n.wf(),
            n.features.indexer.patterns == patterns,
            n.numbers == numbers,
    {
        let features: Features = Features::new(patterns);
        let ft_white: Vec<i32> = other_view(&features.indexer.patterns, &numbers.ft, FT_BUCKETS, H);
        proof {
            lemma_view_within(features.indexer.patterns@, numbers.ft@, ft_white@);
        }
        WideNnue { features, numbers, ft_white }
    }

    /// The table that holds a lane of the accumulator, and the lane there.
    pub open spec fn table(self, i: int) -> Seq<i32> {
        if i < H {
            self.numbers.ft@
        } else {
            self.ft_white@
        }
    }

    /// What rows hold in a lane of the accumulator.
    pub open spec fn values(self, rows: Seq<int>, i: int) -> Seq<int> {
        lane_of(
            self.table(i),
            rows,
            if i < H {
                i
            } else {
                i - H
            },
        )
    }

    /// The lanes that a position's rows add up to, from the side to move.
    pub open spec fn lanes(self, b: Board) -> Seq<int> {
        let rows = own_rows(self.features.indexer.patterns@, 0, b.own(), b.opp());
        Seq::new(
            H as nat,
            |h: int| sum_first(lane_of(self.numbers.ft@, rows, h), rows.len() as int),
        )
    }

    /// The accumulator holds the sums of the rows that its indices select.
    pub open spec fn counts(self, acc: Accumulator32) -> bool {
        let rows = side_rows(self.features, acc.indices, Color::Black);
        &&& self.features.fits(acc.indices)
        &&& acc.acc@.len() == H2
        &&& forall|i: int|
            0 <= i < H2 ==> #[trigger] acc.acc@[i] == sum_first(
                self.values(rows, i),
                rows.len() as int,
            )
    }

    /// The accumulator holds the sums of a position.
    pub open spec fn tracks(self, acc: Accumulator32, black: u64, white: u64) -> bool {
        &&& self.counts(acc)
        &&& self.features.indexer.holds(acc.indices, black, white)
    }

    /// Rows of the tables lie within them, and their numbers within the limit.
    proof fn lemma_values(self, indices: PatternIndices, i: int)
        requires
            self.wf(),
            self.features.fits(indices),
            0 <= i < H2,
        ensures
            ({
                let rows = side_rows(self.features, indices, Color::Black);
                let v = self.values(rows, i);
                &&& v.len() == rows.len()
                &&& forall|m: int|
                    0 <= m < v.len() ==> -ROW_LIMIT <= #[trigger] v[m] <= ROW_LIMIT
            }),
    {
        let rows = side_rows(self.features, indices, Color::Black);
        let v = self.values(rows, i);
        let h = if i < H {
            i
        } else {
            i - H
        };
        assert forall|m: int| 0 <= m < v.len() implies -ROW_LIMIT <= #[trigger] v[m] <= ROW_LIMIT by {
            self.features.lemma_row(indices, m, Color::Black);
            assert(0 <= rows[m] * H + h < self.features.rows * H);
            assert(v[m] == self.table(i)[rows[m] * H + h]);
        }
    }

    /// One number of the tables.
    fn cell(&self, row: usize, i: usize) -> (x: i32)
        requires
            self.wf(),
            row < self.features.rows,
            i < H2,
        ensures
            x == self.table(i as int)[row * H + (if i < H {
                i as int
            } else {
                i - H
            })],
    {
        if i < H {
            self.numbers.ft[row * H + i]
        } else {
            self.ft_white[row * H + (i - H)]
        }
    }

    /// The accumulator of a position.
    pub fn accumulator_i32(&self, b: &Board) -> (acc: Accumulator32)
        requires
            self.wf(),
        ensures
            self.tracks(acc, b.black, b.white),
    {
        let indices: PatternIndices = self.features.indices(b.black, b.white);
        let ghost rows = side_rows(self.features, indices, Color::Black);
        let ids: Vec<usize> = self.features.features_black(&indices, 0);
        assert forall|m: int| 0 <= m < ids@.len() implies #[trigger] ids@[m] == rows[m] by {}
        let n: usize = ids.len();
        let mut acc: Vec<i32> = Vec::new();
        let mut i: usize = 0;
        while i < H2
            invariant
                self.wf(),
                self.features.fits(indices),
                rows == side_rows(self.features, indices, Color::Black),
                n == ids@.len(),
                n == rows.len(),
                n <= MAX_MASKS,
                forall|m: int| 0 <= m < n ==> #[trigger] ids@[m] == rows[m],
                i <= H2,
                acc@.len() == i,
                forall|k: int|
                    0 <= k < i ==> #[trigger] acc@[k] == sum_first(self.values(rows, k), n as int),
            decreases H2 - i,
        {
            let ghost v = self.values(rows, i as int);
            proof {
                self.lemma_values(indices, i as int);
            }
            let mut sum: i32 = 0;
            let mut m: usize = 0;
            while m < n
                invariant
                    self.wf(),
                    self.features.fits(indices),
                    rows == side_rows(self.features, indices, Color::Black),
                    i < H2,
                    v == self.values(rows, i as int),
                    v.len() == n,
                    forall|m: int| 0 <= m < n ==> -ROW_LIMIT <= #[trigger] v[m] <= ROW_LIMIT,
                    n == ids@.len(),
                    n == rows.len(),
                    n <= MAX_MASKS,
                    forall|m: int| 0 <= m < n ==> #[trigger] ids@[m] == rows[m],
                    m <= n,
                    sum == sum_first(v, m as int),
                decreases n - m,
            {
                proof {
                    self.features.lemma_row(indices, m as int, Color::Black);
                    lemma_sum_bound(v, ROW_LIMIT as int, 0, m as int);
                    assert(ids@[m as int] == rows[m as int]);
                    assert(-ROW_LIMIT <= v[m as int] <= ROW_LIMIT);
                }
                sum = sum + self.cell(ids[m], i);
                m = m + 1;
            }
            acc.push(sum);
            i = i + 1;
        }
        Accumulator32 { indices, acc }
    }

    /// Bring the sums from the rows of the old indices to those of the new.
    fn follow(&self, acc: &mut Accumulator32, from: &PatternIndices)
        requires
            self.wf(),
            self.features.fits(*from),
            self.features.fits(old(acc).indices),
            self.counts((Accumulator32 { indices: *from, acc: old(acc).acc })),
        ensures
            final(acc).indices == old(acc).indices,
            self.counts(*final(acc)),
    {
        let n: usize = self.features.mask_off.len();
        let ghost f = self.features;
        let ghost was = side_rows(f, *from, Color::Black);
        let ghost now = side_rows(f, acc.indices, Color::Black);
        let mut m: usize = 0;
        while m < n
            invariant
                self.wf(),
                f == self.features,
                n == self.features.mask_off@.len(),
                n <= MAX_MASKS,
                f.fits(*from),
                f.fits(acc.indices),
                acc.indices == old(acc).indices,
                was == side_rows(f, *from, Color::Black),
                now == side_rows(f, acc.indices, Color::Black),
                m <= n,
                acc.acc@.len() == H2,
                forall|i: int|
                    0 <= i < H2 ==> #[trigger] acc.acc@[i] == self.half_way(was, now, i, m as int),
            decreases n - m,
        {
            proof {
                f.lemma_row(*from, m as int, Color::Black);
                f.lemma_row(acc.indices, m as int, Color::Black);
            }
            let base: usize = self.features.mask_off[m] as usize;
            let old_row: usize = base + from.idx[m] as usize;
            let new_row: usize = base + acc.indices.idx[m] as usize;
            assert(old_row == was[m as int]);
            assert(new_row == now[m as int]);
            let ghost before = acc.acc@;
            let mut i: usize = 0;
            while i < H2
                invariant
                    self.wf(),
                    f == self.features,
                    n == self.features.mask_off@.len(),
                    n <= MAX_MASKS,
                    f.fits(*from),
                    f.fits(acc.indices),
                    acc.indices == old(acc).indices,
                    was == side_rows(f, *from, Color::Black),
                    now == side_rows(f, acc.indices, Color::Black),
                    m < n,
                    old_row == was[m as int],
                    new_row == now[m as int],
                    old_row < f.rows,
                    new_row < f.rows,
                    i <= H2,
                    acc.acc@.len() == H2,
                    before.len() == H2,
                    forall|i: int|
                        0 <= i < H2 ==> #[trigger] before[i] == self.half_way(
                            was,
                            now,
                            i,
                            m as int,
                        ),
                    forall|k: int|
                        0 <= k < H2 ==> #[trigger] acc.acc@[k] == if k < i {
                            self.half_way(was, now, k, m + 1)
                        } else {
                            before[k] as int
                        },
                decreases H2 - i,
            {
                let a: i32 = self.cell(new_row, i);
                let b: i32 = self.cell(old_row, i);
                proof {
                    let x = self.values(was, i as int);
                    let y = self.values(now, i as int);
                    self.lemma_values(*from, i as int);
                    self.lemma_values(acc.indices, i as int);
                    lemma_sum_bound(y, ROW_LIMIT as int, 0, m as int);
                    lemma_sum_bound(x, ROW_LIMIT as int, m as int, n as int);
                    assert(a == y[m as int] && b == x[m as int]);
                    assert(before[i as int] == self.half_way(was, now, i as int, m as int));
                    assert(acc.acc@[i as int] == before[i as int]);
                }
                let d: i32 = a - b;
                acc.acc.set(i, acc.acc[i] + d);
                i = i + 1;
            }
            m = m + 1;
        }
        proof {
            assert forall|i: int| 0 <= i < H2 implies #[trigger] acc.acc@[i] == sum_first(
                self.values(now, i),
                now.len() as int,
            ) by {
                assert(acc.acc@[i] == self.half_way(was, now, i, n as int));
            }
        }
    }

    /// A lane when the first `m` masks have their new rows.
    pub open spec fn half_way(self, was: Seq<int>, now: Seq<int>, i: int, m: int) -> int {
        sum_first(self.values(now, i), m) + sum_first(self.values(was, i), was.len() as int)
            - sum_first(self.values(was, i), m)
    }

    /// The accumulator after `mover` has placed a disc on `pos` and turned
    /// `flipped`.
    pub fn acc_apply_i32(&self, acc: &mut Accumulator32, pos: Position, flipped: u64, mover: Color)
        requires
            self.wf(),
            pos.wf(),
            exists|b: Board|
                #[trigger] QuantNnue::starts(b, pos, flipped, mover) && self.tracks(
                    *old(acc),
                    b.black,
                    b.white,
                ),
        ensures
            forall|b: Board|
                #[trigger] QuantNnue::starts(b, pos, flipped, mover) && self.tracks(
                    *old(acc),
                    b.black,
                    b.white,
                ) ==> self.tracks(
                    *final(acc),
                    b.placed(pos.0 as int, flipped).black,
                    b.placed(pos.0 as int, flipped).white,
                ),
    {
        let from: PatternIndices = acc.indices;
        let ghost was = *acc;
        let ghost ix = self.features.indexer;
        self.features.indexer.apply(&mut acc.indices, pos, flipped, mover);
        let ghost now = acc.indices;
        proof {
            assert forall|b: Board|
                #[trigger] QuantNnue::starts(b, pos, flipped, mover) && self.tracks(
                    was,
                    b.black,
                    b.white,
                ) implies ix.holds(
                now,
                b.placed(pos.0 as int, flipped).black,
                b.placed(pos.0 as int, flipped).white,
            ) by {
                let c = b.placed(pos.0 as int, flipped);
                assert forall|m: int| 0 <= m < ix.masks@.len() implies #[trigger] now.idx@[m]
                    == mask_value(ix.masks@[m]@, c.black, c.white) by {
                    law_apply_tracks(ix, b, pos, flipped, m);
                    assert(was.indices.idx@[m] == mask_value(ix.masks@[m]@, b.black, b.white));
                }
            }
            let b = choose|b: Board|
                #[trigger] QuantNnue::starts(b, pos, flipped, mover) && self.tracks(
                    was,
                    b.black,
                    b.white,
                );
            let c = b.placed(pos.0 as int, flipped);
            self.features.lemma_fits(now, c.black, c.white);
        }
        self.follow(acc, &from);
    }

    /// The accumulator before `mover` placed a disc on `pos` and turned
    /// `flipped`.
    pub fn acc_undo_i32(&self, acc: &mut Accumulator32, pos: Position, flipped: u64, mover: Color)
        requires
            self.wf(),
            pos.wf(),
            exists|b: Board|
                #[trigger] QuantNnue::starts(b, pos, flipped, mover) && self.tracks(
                    *old(acc),
                    b.placed(pos.0 as int, flipped).black,
                    b.placed(pos.0 as int, flipped).white,
                ),
        ensures
            forall|b: Board|
                #[trigger] QuantNnue::starts(b, pos, flipped, mover) && self.tracks(
                    *old(acc),
                    b.placed(pos.0 as int, flipped).black,
                    b.placed(pos.0 as int, flipped).white,
                ) ==> self.tracks(*final(acc), b.black, b.white),
    {
        let from: PatternIndices = acc.indices;
        let ghost was = *acc;
        let ghost ix = self.features.indexer;
        self.features.indexer.undo(&mut acc.indices, pos, flipped, mover);
        let ghost now = acc.indices;
        proof {
            assert forall|b: Board|
                #[trigger] QuantNnue::starts(b, pos, flipped, mover) && self.tracks(
                    was,
                    b.placed(pos.0 as int, flipped).black,
                    b.placed(pos.0 as int, flipped).white,
                ) implies ix.holds(now, b.black, b.white) by {
                let c = b.placed(pos.0 as int, flipped);
                assert forall|m: int| 0 <= m < ix.masks@.len() implies #[trigger] now.idx@[m]
                    == mask_value(ix.masks@[m]@, b.black, b.white) by {
                    law_apply_tracks(ix, b, pos, flipped, m);
                    assert(was.indices.idx@[m] == mask_value(ix.masks@[m]@, c.black, c.white));
                    let x = mask_value(ix.masks@[m]@, b.black, b.white);
                    lemma_masks_ok(ix.patterns@, m);
                    assert(ix.masks@[m]@ == flat_masks(ix.patterns@)[m]);
                    lemma_mask_value_bound(ix.masks@[m]@, b.black, b.white);
                    lemma_pow3_mono(ix.masks@[m]@.len(), 10);
                    lemma_pow3_values();
                    law_undo_restores(x as u16, ix.change(m, pos, flipped, b.player));
                }
            }
            let b = choose|b: Board|
                #[trigger] QuantNnue::starts(b, pos, flipped, mover) && self.tracks(
                    was,
                    b.placed(pos.0 as int, flipped).black,
                    b.placed(pos.0 as int, flipped).white,
                );
            self.features.lemma_fits(now, b.black, b.white);
        }
        self.follow(acc, &from);
    }

    /// An accumulator of a position holds, for the side to move, the lanes that
    /// its rows add up to.
    pub proof fn law_lanes(self, acc: Accumulator32, b: Board)
        requires
            self.wf(),
            b.wf(),
            self.tracks(acc, b.black, b.white),
        ensures
            forall|h: int|
                #![trigger self.lanes(b)[h]]
                0 <= h < H ==> self.lanes(b)[h] == if b.player == Color::Black {
                    acc.acc@[h]
                } else {
                    acc.acc@[H + h]
                },
    {
        let f = self.features;
        let rows = side_rows(f, acc.indices, Color::Black);
        let own = own_rows(f.indexer.patterns@, 0, b.own(), b.opp());
        assert(rows.len() == own.len());
        assert forall|h: int| 0 <= h < H implies #[trigger] self.lanes(b)[h] == if b.player
            == Color::Black {
            acc.acc@[h]
        } else {
            acc.acc@[H + h]
        } by {
            let i = if b.player == Color::Black {
                h
            } else {
                H + h
            };
            let x = self.values(rows, i);
            let y = lane_of(self.numbers.ft@, own, h);
            assert forall|m: int| 0 <= m < x.len() implies x[m] == y[m] by {
                f.lemma_own_row(b, acc.indices, m);
                if b.player == Color::White {
                    lemma_view_row(
                        f,
                        self.numbers.ft@,
                        self.ft_white@,
                        0,
                        FT_BUCKETS as int,
                        H as int,
                        acc.indices,
                        m,
                        h,
                    );
                    assert(0 * f.rows == 0);
                }
            }
            assert(x =~= y);
            assert(acc.acc@[i] == sum_first(x, rows.len() as int));
        }
    }

    /// The read-out of a position whose accumulator the caller keeps.
    pub fn eval_acc_i32(&self, acc: &Accumulator32, b: &Board) -> (sum: i64)
        requires
            self.wf(),
            b.wf(),
            self.tracks(*acc, b.black, b.white),
        ensures
            sum == wide_readout(
                self.lanes(*b),
                self.numbers.ft_bias@.subrange(stage_of(*b) * H, stage_of(*b) * H + H),
                self.numbers.out_w@.subrange(stage_of(*b) * H, stage_of(*b) * H + H),
                H as int,
            ),
    {
        let at: usize = match b.player {
            Color::Black => 0,
            Color::White => H,
        };
        let stage: usize = Evaluator::stage(b);
        let ghost rows = side_rows(self.features, acc.indices, Color::Black);
        let ghost lanes = self.lanes(*b);
        let ghost fb = self.numbers.ft_bias@.subrange(stage * H, stage * H + H);
        let ghost ow = self.numbers.out_w@.subrange(stage * H, stage * H + H);
        proof {
            self.law_lanes(*acc, *b);
        }
        let mut sum: i64 = 0;
        let mut h: usize = 0;
        while h < H
            invariant
                self.wf(),
                self.counts(*acc),
                rows == side_rows(self.features, acc.indices, Color::Black),
                at == 0 || at == H,
                stage < STAGE_COUNT,
                lanes.len() == H,
                forall|k: int| 0 <= k < H ==> #[trigger] lanes[k] == acc.acc@[at + k],
                fb == self.numbers.ft_bias@.subrange(stage * H, stage * H + H),
                ow == self.numbers.out_w@.subrange(stage * H, stage * H + H),
                h <= H,
                sum == wide_readout(lanes, fb, ow, h as int),
                -285873023221760 * h <= sum <= 285873023221760 * h,
            decreases H - h,
        {
            proof {
                let i = at + h;
                self.lemma_values(acc.indices, i);
                lemma_sum_bound(self.values(rows, i), ROW_LIMIT as int, 0, rows.len() as int);
                assert(lanes[h as int] == acc.acc@[i]);
                assert(fb[h as int] == self.numbers.ft_bias@[stage * H + h]);
                assert(ow[h as int] == self.numbers.out_w@[stage * H + h]);
            }
            let v: i32 = acc.acc[at + h] + self.numbers.ft_bias[stage * H + h];
            let w: i32 = self.numbers.out_w[stage * H + h];
            if v > 0 {
                assert(-285873023221760 <= v * w <= 285873023221760)
                    by (nonlinear_arith)
                    requires
                        0 < v <= 0x4100_0000,
                        -0x4_0000 <= w <= 0x4_0000,
                ;
                sum = sum + v as i64 * w as i64;
            }
            h = h + 1;
        }
        sum
    }
}

/// The numbers of a table stay within the limit when the other side reads them.
proof fn lemma_view_within(patterns: Seq<Pattern>, black: Seq<i32>, white: Seq<i32>)
    requires
        library_wf(patterns),
        0 < row_count(patterns),
        is_other_view(patterns, black, white, FT_BUCKETS * row_count(patterns), H as int),
        within(black, ROW_LIMIT as int),
    ensures
        within(white, ROW_LIMIT as int),
{
    assert forall|i: int| 0 <= i < white.len() implies -ROW_LIMIT <= #[trigger] white[i]
        <= ROW_LIMIT by {
        let row = i / H as int;
        let h = i % H as int;
        assert(i == row * H + h);
        lemma_copied_other_row(patterns, row, FT_BUCKETS as int);
        let r = copied_other_row(patterns, row);
        assert(white[row * H + h] == black[r * H + h]);
        assert(0 <= r * H + h < black.len());
    }
}

/// Two accumulators of one position hold the same sums: taking a move back gives
/// the sums before it.
pub proof fn law_wide_accumulators_agree(
    n: WideNnue,
    a: Accumulator32,
    c: Accumulator32,
    black: u64,
    white: u64,
)
    requires
        n.wf(),
        n.tracks(a, black, white),
        n.tracks(c, black, white),
    ensures
        a.acc@ == c.acc@,
{
    let f = n.features;
    let x = side_rows(f, a.indices, Color::Black);
    let y = side_rows(f, c.indices, Color::Black);
    assert forall|m: int| 0 <= m < x.len() implies x[m] == y[m] by {
        assert(a.indices.idx@[m] == mask_value(f.indexer.masks@[m]@, black, white));
        assert(c.indices.idx@[m] == mask_value(f.indexer.masks@[m]@, black, white));
    }
    assert(x =~= y);
    assert forall|i: int| 0 <= i < H2 implies a.acc@[i] == c.acc@[i] by {
        assert(a.acc@[i] == sum_first(n.values(x, i), x.len() as int));
        assert(c.acc@[i] == sum_first(n.values(x, i), x.len() as int));
    }
    assert(a.acc@ =~= c.acc@);
}

/// A read-out weight counts its own lane: `k` more of it are `k` times what the lane
/// shows above zero more. Without weights nothing is read out.
pub proof fn law_wide_weight(
    lanes: Seq<int>,
    b: Seq<i32>,
    w: Seq<i32>,
    v: Seq<i32>,
    n: int,
    h: int,
    k: int,
)
    requires
        0 <= h,
        forall|i: int|
            0 <= i < n ==> #[trigger] v[i] == w[i] + if i == h {
                k
            } else {
                0
            },
    ensures
        wide_readout(lanes, b, v, n) == wide_readout(lanes, b, w, n) + if h < n && lanes[h] + b[h] > 0 {
            k * (lanes[h] + b[h])
        } else {
            0
        },
        (forall|i: int| 0 <= i < n ==> #[trigger] w[i] == 0) ==> wide_readout(lanes, b, w, n) == 0,
    decreases n,
{
    if n > 0 {
        law_wide_weight(lanes, b, w, v, n - 1, h, k);
        let (x, y) = (lanes[n - 1] + b[n - 1], w[n - 1] as int);
        assert(v[n - 1] == w[n - 1] + if n - 1 == h {
            k
        } else {
            0
        });
        assert(x * (y + k) == x * y + k * x) by (nonlinear_arith);
        assert(x * 0 == 0) by (nonlinear_arith);
    }
}

/// The lanes go by what the side to move sees, whichever colour it has.
pub proof fn law_wide_lanes_go_by_view(n: WideNnue, a: Board, b: Board)
    requires
        a.own() == b.own(),
        a.opp() == b.opp(),
    ensures
        n.lanes(a) == n.lanes(b),
{
    assert(n.lanes(a) =~= n.lanes(b));
}

} // verus!
