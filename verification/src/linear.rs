//! The linear evaluation: for each stage a weight for every cell of the pattern
//! tables and one for every disc count, each held as the bits of a 32-bit
//! floating-point number.

use vstd::prelude::*;

use crate::bits::{count, count_ones, lemma_count_bound};
use crate::board::Board;
use crate::evaluator::{Evaluator, STAGE_COUNT, stage_of};
use crate::layout::{lemma_table_start, row_count, table_start, table_starts};
use crate::nnue::NUM_TABLE_SIZE;
use crate::pattern::library::{egaroucid_patterns, is_egaroucid};
use crate::pattern::{Pattern, flat_masks, flat_owners, lemma_first_mask, lemma_mask_of_shape, lemma_mask_value_bound, library_wf, mask_value, pow3};

pub mod gpu;

verus! {

/// The weights of the linear evaluation, stage by stage: the tables of the
/// shapes, then the table by disc count.
#[derive(Debug)]
pub struct Linear {
    pub patterns: Vec<Pattern>,
    /// Where each shape's table starts in a stage, and behind them the table by
    /// disc count.
    pub starts: Vec<u32>,
    pub weights: Vec<u32>,
}

/// Weights of one stage.
pub open spec fn stride_of(patterns: Seq<Pattern>) -> int {
    row_count(patterns) + NUM_TABLE_SIZE
}

/// The weights that a position selects in its stage, numbered from the stage's
/// first: one for each mask, and one for the discs of the side to move.
pub open spec fn selected(patterns: Seq<Pattern>, b: Board) -> Seq<int> {
    Seq::new(
        flat_masks(patterns).len(),
        |m: int|
            table_start(patterns, flat_owners(patterns)[m]) + mask_value(
                flat_masks(patterns)[m],
                b.own(),
                b.opp(),
            ),
    ).push(row_count(patterns) + count(b.own()))
}

impl Linear {
    /// The weights fit the shapes.
    pub open spec fn wf(self) -> bool {
        &&& library_wf(self.patterns@)
        &&& self.patterns@.len() <= 256
        &&& self.starts@.len() == self.patterns@.len() + 1
        &&& forall|k: int|
            0 <= k <= self.patterns@.len() ==> #[trigger] self.starts@[k] == table_start(
                self.patterns@,
                k,
            )
        &&& self.weights@.len() == STAGE_COUNT * stride_of(self.patterns@)
    }

    /// Weights that are all zero.
    pub fn new(patterns: Vec<Pattern>) -> (l: Linear)
        requires
            library_wf(patterns@),
            patterns@.len() <= 256,
        ensures
            l.wf(),
            l.patterns == patterns,
            forall|c: int| 0 <= c < l.weights@.len() ==> #[trigger] l.weights@[c] == 0,
    {
        let starts: Vec<u32> = table_starts(&patterns);
        proof {
            lemma_table_start(patterns@, 0, patterns@.len() as int);
        }
        let total: usize = STAGE_COUNT * (starts[patterns.len()] as usize + NUM_TABLE_SIZE);
        let mut weights: Vec<u32> = Vec::new();
        while weights.len() < total
            invariant
                weights@.len() <= total,
                forall|c: int| 0 <= c < weights@.len() ==> #[trigger] weights@[c] == 0,
            decreases total - weights@.len(),
        {
            weights.push(0);
        }
        Linear { patterns, starts, weights }
    }

    /// The shapes.
    pub fn patterns(&self) -> (p: &Vec<Pattern>)
        ensures
            *p == self.patterns,
    {
        &self.patterns
    }

    /// The stage of a position.
    pub fn stage(board: &Board) -> (s: usize)
        ensures
            s == stage_of(*board),
            s < STAGE_COUNT,
    {
        Evaluator::stage(board)
    }

    /// Weights of one stage.
    pub fn stage_stride(&self) -> (n: usize)
        requires
            self.wf(),
        ensures
            n == stride_of(self.patterns@),
            n <= 59049 * 256 + 65,
    {
        proof {
            lemma_table_start(self.patterns@, 0, self.patterns@.len() as int);
        }
        self.starts[self.patterns.len()] as usize + NUM_TABLE_SIZE
    }

    /// The weights of the stages from `lo` to `hi`.
    pub fn flat_stages(&self, lo: usize, hi: usize) -> (v: Vec<u32>)
        requires
            self.wf(),
            lo <= hi < STAGE_COUNT,
        ensures
            v@ == self.weights@.subrange(
                lo * stride_of(self.patterns@),
                (hi + 1) * stride_of(self.patterns@),
            ),
    {
        let n: usize = self.stage_stride();
        let ghost s = n as int;
        proof {
            lemma_window(lo as int, hi as int, s);
        }
        let from: usize = lo * n;
        let to: usize = (hi + 1) * n;
        let mut v: Vec<u32> = Vec::new();
        let mut c: usize = from;
        while c < to
            invariant
                from <= c <= to <= self.weights@.len(),
                v@ == self.weights@.subrange(from as int, c as int),
            decreases to - c,
        {
            v.push(self.weights[c]);
            c = c + 1;
            assert(v@ =~= self.weights@.subrange(from as int, c as int));
        }
        v
    }

    /// All weights.
    pub fn flat_all(&self) -> (v: Vec<u32>)
        requires
            self.wf(),
        ensures
            v@ == self.weights@,
    {
        let v: Vec<u32> = self.flat_stages(0, STAGE_COUNT - 1);
        proof {
            assert(0 * stride_of(self.patterns@) == 0);
            assert(v@ =~= self.weights@);
        }
        v
    }

    /// Replace the weights of the stages from `lo` to `hi`.
    pub fn set_flat_stages(&mut self, lo: usize, hi: usize, v: &Vec<u32>)
        requires
            old(self).wf(),
            lo <= hi < STAGE_COUNT,
            v@.len() == (hi + 1 - lo) * stride_of(old(self).patterns@),
        ensures
            final(self).wf(),
            final(self).patterns == old(self).patterns,
            forall|c: int|
                0 <= c < old(self).weights@.len() ==> #[trigger] final(self).weights@[c] == if lo
                    * stride_of(old(self).patterns@) <= c < (hi + 1) * stride_of(
                    old(self).patterns@,
                ) {
                    v@[c - lo * stride_of(old(self).patterns@)]
                } else {
                    old(self).weights@[c]
                },
    {
        let n: usize = self.stage_stride();
        let ghost s = n as int;
        let ghost before = self.weights@;
        proof {
            lemma_window(lo as int, hi as int, s);
        }
        let from: usize = lo * n;
        let total: usize = v.len();
        let room: usize = self.weights.len();
        let mut k: usize = 0;
        while k < total
            invariant
                room == self.weights@.len(),
                self.wf(),
                self.patterns == old(self).patterns,
                total == v@.len(),
                from + total <= self.weights@.len(),
                self.weights@.len() == before.len(),
                k <= total,
                forall|c: int|
                    0 <= c < before.len() ==> #[trigger] self.weights@[c] == if from <= c < from
                        + k {
                        v@[c - from]
                    } else {
                        before[c]
                    },
            decreases total - k,
        {
            self.weights.set(from + k, v[k]);
            k = k + 1;
        }
    }

    /// Replace all weights.
    pub fn set_flat_all(&mut self, v: &Vec<u32>)
        requires
            old(self).wf(),
            v@.len() == old(self).weights@.len(),
        ensures
            final(self).wf(),
            final(self).patterns == old(self).patterns,
            final(self).weights@ == v@,
    {
        proof {
            assert(0 * stride_of(self.patterns@) == 0);
        }
        self.set_flat_stages(0, STAGE_COUNT - 1, v);
        assert(self.weights@ =~= v@);
    }

    /// The numbers of the weights whose sum is the value of a position.
    pub fn cells(&self, b: &Board) -> (v: Vec<usize>)
        requires
            self.wf(),
        ensures
            v@.len() == selected(self.patterns@, *b).len(),
            forall|m: int|
                0 <= m < v@.len() ==> #[trigger] v@[m] == stage_of(*b) * stride_of(self.patterns@)
                    + selected(self.patterns@, *b)[m],
            forall|m: int| 0 <= m < v@.len() ==> #[trigger] v@[m] < self.weights@.len(),
    {
        let n: usize = self.stage_stride();
        let stage: usize = Evaluator::stage(b);
        let ghost patterns = self.patterns@;
        let ghost meant = selected(patterns, *b);
        proof {
            lemma_window(stage as int, stage as int, n as int);
            lemma_table_start(patterns, 0, patterns.len() as int);
            assert(patterns.take(0) =~= Seq::empty());
            if patterns.len() > 0 {
                lemma_first_mask(patterns, 0);
            }
        }
        let base: usize = stage * n;
        let room: usize = self.weights.len();
        let mut v: Vec<usize> = Vec::new();
        let mut k: usize = 0;
        while k < self.patterns.len()
            invariant
                room == self.weights@.len(),
                self.wf(),
                patterns == self.patterns@,
                meant == selected(patterns, *b),
                n == stride_of(patterns),
                base + n <= self.weights@.len(),
                base == stage * n,
                k <= patterns.len(),
                v@.len() == crate::pattern::first_mask(patterns, k as int),
                v@.len() <= flat_masks(patterns).len(),
                forall|m: int|
                    0 <= m < v@.len() ==> #[trigger] v@[m] == base + meant[m] && v@[m]
                        < self.weights@.len(),
            decreases patterns.len() - k,
        {
            let p: &Pattern = &self.patterns[k];
            assert(self.patterns@[k as int].wf());
            let indices: Vec<usize> = p.indices(b.black, b.white, b.player());
            let start: usize = self.starts[k] as usize;
            let ghost first = v@.len() as int;
            proof {
                lemma_first_mask(patterns, k as int);
                lemma_table_start(patterns, k as int, patterns.len() as int);
            }
            let mut i: usize = 0;
            while i < indices.len()
                invariant
                    room == self.weights@.len(),
                    self.wf(),
                    patterns == self.patterns@,
                    k < patterns.len(),
                    *p == patterns[k as int],
                    p.wf(),
                    meant == selected(patterns, *b),
                    n == stride_of(patterns),
                    base + n <= self.weights@.len(),
                    start == table_start(patterns, k as int),
                    start + pow3(p.size as nat) <= row_count(patterns),
                    indices@.len() == p.masks@.len(),
                    forall|j: int|
                        0 <= j < indices@.len() ==> #[trigger] indices@[j] == mask_value(
                            p.masks@[j]@,
                            b.own(),
                            b.opp(),
                        ),
                    first == crate::pattern::first_mask(patterns, k as int),
                    i <= indices@.len(),
                    v@.len() == first + i,
                    v@.len() <= flat_masks(patterns).len(),
                    forall|m: int|
                        0 <= m < v@.len() ==> #[trigger] v@[m] == base + meant[m] && v@[m]
                            < self.weights@.len(),
                decreases indices@.len() - i,
            {
                proof {
                    lemma_mask_of_shape(patterns, k as int, i as int);
                    lemma_mask_value_bound(p.masks@[i as int]@, b.own(), b.opp());
                    assert(p.masks@[i as int]@.len() == p.size);
                }
                v.push(base + (start + indices[i]));
                i = i + 1;
            }
            k = k + 1;
        }
        proof {
            if patterns.len() > 0 {
                lemma_first_mask(patterns, 0);
            } else {
                assert(flat_masks(patterns).len() == 0);
            }
            lemma_count_bound(b.own(), 64);
        }
        let discs: usize = count_ones(b.player_bb()) as usize;
        v.push(base + (self.starts[self.patterns.len()] as usize + discs));
        v
    }
}

/// A window of stages lies within the weights.
proof fn lemma_window(lo: int, hi: int, s: int)
    requires
        0 <= lo <= hi < STAGE_COUNT,
        0 <= s <= 59049 * 256 + 65,
    ensures
        0 <= lo * s <= (hi + 1) * s <= STAGE_COUNT * s,
        (hi + 1) * s == lo * s + (hi + 1 - lo) * s,
        STAGE_COUNT * s <= 923_000_000,
{
    assert(0 <= lo * s <= (hi + 1) * s) by (nonlinear_arith)
        requires
            0 <= lo <= hi,
            0 <= s,
    ;
    assert((hi + 1) * s <= 61 * s) by (nonlinear_arith)
        requires
            hi + 1 <= 61,
            0 <= s,
    ;
    assert((hi + 1) * s == lo * s + (hi + 1 - lo) * s) by (nonlinear_arith);
}

/// The shapes of the linear evaluation.
pub fn linear_patterns() -> (v: Vec<Pattern>)
    ensures
        is_egaroucid(v@),
        library_wf(v@),
{
    egaroucid_patterns()
}

/// The weights that a position selects go by what the side to move sees, whichever
/// colour it has: one for each mask, and the last by its own number of discs.
pub proof fn law_selected_goes_by_view(patterns: Seq<Pattern>, a: Board, b: Board)
    requires
        a.own() == b.own(),
        a.opp() == b.opp(),
    ensures
        selected(patterns, a) == selected(patterns, b),
        selected(patterns, a).len() == flat_masks(patterns).len() + 1,
        selected(patterns, a).last() == row_count(patterns) + count(a.own()),
        forall|m: int|
            0 <= m < flat_masks(patterns).len() ==> (#[trigger] selected(patterns, a)[m])
                - table_start(patterns, flat_owners(patterns)[m]) == mask_value(
                flat_masks(patterns)[m],
                a.own(),
                a.opp(),
            ),
{
    assert(selected(patterns, a) =~= selected(patterns, b));
}

} // verus!
