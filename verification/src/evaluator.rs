//! Pattern weights by stage of the game.
//!
//! A weight belongs to a stage, a shape and an index. Stages count the moves
//! played. The weights of a stage stand shape by shape, the stages one behind
//! the other. In a file they follow a head that names the format, the number of
//! stages and shapes and the size of each shape's table.

use vstd::prelude::*;

use crate::board::{Board, lemma_after_wf, lemma_wf_sides};
use crate::bytes::{lemma_pow256_values, lemma_word_ext, push_word, read_word, word};
use crate::color::Color;
use crate::layout::{copied_other_row, is_other_view, lemma_other_row, lemma_table_start, mask_starts, other_row, other_view, row_count, table_start, table_starts};
use crate::pattern::{Pattern, first_mask, flat_masks, flat_owners, lemma_first_mask, lemma_mask_of_shape, lemma_mask_value_bound, lemma_pow3_mono, lemma_pow3_values, lemma_shape_of_mask, library_wf, mask_value, pow3, sum_first};
use crate::pattern_index::{PatternIndexer, PatternIndices, indexable, lemma_masks_ok, lemma_swap_is_other_view};
use crate::search::LeafEval;

verus! {

/// Stages of a game: moves played, from 0 to 60.
pub const STAGE_COUNT: usize = 61;

/// The first bytes of a weight file.
pub const WEIGHT_MAGIC: [u8; 8] = [66, 66, 82, 86, 87, 84, 48, 49];

/// Why a weight file was refused.
#[derive(Clone, Copy, Debug, PartialEq, Eq, Structural)]
pub enum WeightsError {
    /// The file ends early.
    Truncated,
    BadMagic,
    StageCount,
    PatternCount,
    TableSize,
}

impl WeightsError {
    pub open spec fn words(self) -> Seq<char> {
        match self {
            WeightsError::Truncated => "failed to fill whole buffer"@,
            WeightsError::BadMagic => "bad magic"@,
            WeightsError::StageCount => "stage count mismatch"@,
            WeightsError::PatternCount => "pattern count mismatch"@,
            WeightsError::TableSize => "table size mismatch"@,
        }
    }

    /// The error in words.
    pub fn message(self) -> (s: &'static str)
        ensures
            s@ == self.words(),
    {
        match self {
            WeightsError::Truncated => "failed to fill whole buffer",
            WeightsError::BadMagic => "bad magic",
            WeightsError::StageCount => "stage count mismatch",
            WeightsError::PatternCount => "pattern count mismatch",
            WeightsError::TableSize => "table size mismatch",
        }
    }
}

/// The stage of a position: moves played since the four discs of the start.
pub open spec fn stage_of(b: Board) -> int {
    if b.empty_count <= 60 {
        60 - b.empty_count
    } else {
        0
    }
}

/// Bytes before the weights of a file.
pub open spec fn head_len(patterns: Seq<Pattern>) -> int {
    16 + 4 * (patterns.len() as int)
}

/// What is wrong with the table sizes that the head names, from shape `k` on.
pub open spec fn sizes_fault(bytes: Seq<u8>, patterns: Seq<Pattern>, k: int) -> Option<WeightsError>
    decreases patterns.len() - k,
{
    if k < 0 || k >= patterns.len() {
        None
    } else if bytes.len() < 20 + 4 * k {
        Some(WeightsError::Truncated)
    } else if word(bytes, 16 + 4 * k, 4) != pow3(patterns[k].size as nat) {
        Some(WeightsError::TableSize)
    } else {
        sizes_fault(bytes, patterns, k + 1)
    }
}

/// What is wrong with the head of a weight file for these shapes, the first
/// fault first.
pub open spec fn head_fault(bytes: Seq<u8>, patterns: Seq<Pattern>) -> Option<WeightsError> {
    if bytes.len() < 8 {
        Some(WeightsError::Truncated)
    } else if bytes.take(8) != WEIGHT_MAGIC@ {
        Some(WeightsError::BadMagic)
    } else if bytes.len() < 12 {
        Some(WeightsError::Truncated)
    } else if word(bytes, 8, 4) != STAGE_COUNT {
        Some(WeightsError::StageCount)
    } else if bytes.len() < 16 {
        Some(WeightsError::Truncated)
    } else if word(bytes, 12, 4) != patterns.len() {
        Some(WeightsError::PatternCount)
    } else {
        sizes_fault(bytes, patterns, 0)
    }
}

/// Stage-based weights over a library of shapes. A weight is held as the bits
/// of a 32-bit floating-point number.
#[derive(Debug)]
pub struct Evaluator {
    pub patterns: Vec<Pattern>,
    pub starts: Vec<u32>,
    pub weights: Vec<u32>,
}

impl Evaluator {
    /// The tables fit the shapes.
    pub open spec fn wf(self) -> bool {
        &&& library_wf(self.patterns@)
        &&& self.patterns@.len() <= 256
        &&& self.starts@.len() == self.patterns@.len() + 1
        &&& forall|k: int|
            0 <= k <= self.patterns@.len() ==> #[trigger] self.starts@[k] == table_start(
                self.patterns@,
                k,
            )
        &&& self.weights@.len() == STAGE_COUNT * row_count(self.patterns@)
    }

    /// Where a weight stands.
    pub open spec fn cell(self, stage: int, pattern: int, index: int) -> int {
        stage * row_count(self.patterns@) + table_start(self.patterns@, pattern) + index
    }

    /// The weight of a stage, a shape and an index.
    pub open spec fn at(self, stage: int, pattern: int, index: int) -> u32 {
        self.weights@[self.cell(stage, pattern, index)]
    }

    /// The stage, the shape and the index of a weight exist.
    pub open spec fn in_range(self, stage: int, pattern: int, index: int) -> bool {
        &&& 0 <= stage < STAGE_COUNT
        &&& 0 <= pattern < self.patterns@.len()
        &&& 0 <= index < pow3(self.patterns@[pattern].size as nat)
    }

    /// Weights of different stages, shapes or indices stand in different
    /// places.
    pub proof fn lemma_cells_apart(self, s: int, p: int, i: int, t: int, q: int, j: int)
        requires
            self.wf(),
            self.in_range(s, p, i),
            self.in_range(t, q, j),
        ensures
            0 <= self.cell(s, p, i) < self.weights@.len(),
            self.cell(s, p, i) == self.cell(t, q, j) ==> s == t && p == q && i == j,
    {
        let n = row_count(self.patterns@);
        let last = self.patterns@.len() as int;
        lemma_table_start(self.patterns@, p, last);
        lemma_table_start(self.patterns@, q, last);
        if p < q {
            lemma_table_start(self.patterns@, p, q);
        }
        if q < p {
            lemma_table_start(self.patterns@, q, p);
        }
        let a = table_start(self.patterns@, p) + i;
        let b = table_start(self.patterns@, q) + j;
        assert(s * n + a < (s + 1) * n && t * n + b < (t + 1) * n && 0 <= s * n) by (nonlinear_arith)
            requires
                0 <= a < n,
                0 <= b < n,
                0 <= s,
        ;
        assert((s + 1) * n <= 61 * n) by (nonlinear_arith)
            requires
                s + 1 <= 61,
                0 <= n,
        ;
        if s < t {
            assert((s + 1) * n <= t * n) by (nonlinear_arith)
                requires
                    s + 1 <= t,
                    0 <= n,
            ;
        }
        if t < s {
            assert((t + 1) * n <= s * n) by (nonlinear_arith)
                requires
                    t + 1 <= s,
                    0 <= n,
            ;
        }
    }

    /// All weights zero.
    pub fn new(patterns: Vec<Pattern>) -> (e: Evaluator)
        requires
            library_wf(patterns@),
            patterns@.len() <= 256,
        ensures
            e.wf(),
            e.patterns == patterns,
            forall|c: int| 0 <= c < e.weights@.len() ==> #[trigger] e.weights@[c] == 0,
    {
        let starts: Vec<u32> = table_starts(&patterns);
        proof {
            lemma_table_start(patterns@, 0, patterns@.len() as int);
        }
        let n: usize = starts[patterns.len()] as usize;
        let total: usize = STAGE_COUNT * n;
        let mut weights: Vec<u32> = Vec::new();
        let mut c: usize = 0;
        while c < total
            invariant
                c <= total,
                weights@.len() == c,
                forall|k: int| 0 <= k < c ==> #[trigger] weights@[k] == 0,
            decreases total - c,
        {
            weights.push(0);
            c = c + 1;
        }
        Evaluator { patterns, starts, weights }
    }

    /// The shapes.
    pub fn patterns(&self) -> (p: &Vec<Pattern>)
        ensures
            *p == self.patterns,
    {
        &self.patterns
    }

    /// Moves played so far, from 0 to 60; a position with fewer than four
    /// discs counts as the start.
    pub fn stage(board: &Board) -> (s: usize)
        ensures
            s == stage_of(*board),
            s < STAGE_COUNT,
    {
        let empties: usize = board.empty_count() as usize;
        if empties <= 60 {
            60 - empties
        } else {
            0
        }
    }

    /// Where a weight stands.
    fn place(&self, stage: usize, pattern: usize, index: usize) -> (c: usize)
        requires
            self.wf(),
            self.in_range(stage as int, pattern as int, index as int),
        ensures
            c == self.cell(stage as int, pattern as int, index as int),
            c < self.weights@.len(),
    {
        proof {
            self.lemma_cells_apart(
                stage as int,
                pattern as int,
                index as int,
                stage as int,
                pattern as int,
                index as int,
            );
            lemma_table_start(self.patterns@, 0, self.patterns@.len() as int);
            lemma_table_start(self.patterns@, pattern as int, self.patterns@.len() as int);
        }
        let n: usize = self.starts[self.patterns.len()] as usize;
        let total: usize = self.weights.len();
        assert(stage * n <= total) by (nonlinear_arith)
            requires
                stage < 61,
                total == 61 * n,
        ;
        assert(0 <= stage * n) by (nonlinear_arith);
        stage * n + (self.starts[pattern] as usize + index)
    }

    /// One weight.
    pub fn weight(&self, stage: usize, pattern: usize, index: usize) -> (w: u32)
        requires
            self.wf(),
            self.in_range(stage as int, pattern as int, index as int),
        ensures
            w == self.at(stage as int, pattern as int, index as int),
    {
        let c: usize = self.place(stage, pattern, index);
        self.weights[c]
    }

    /// Replace one weight.
    pub fn set_weight(&mut self, stage: usize, pattern: usize, index: usize, value: u32)
        requires
            old(self).wf(),
            old(self).in_range(stage as int, pattern as int, index as int),
        ensures
            final(self).wf(),
            final(self).patterns == old(self).patterns,
            final(self).at(stage as int, pattern as int, index as int) == value,
            forall|s: int, p: int, i: int|
                old(self).in_range(s, p, i) && !(s == stage && p == pattern && i == index)
                    ==> #[trigger] final(self).at(s, p, i) == old(self).at(s, p, i),
    {
        let c: usize = self.place(stage, pattern, index);
        self.weights.set(c, value);
        proof {
            assert forall|s: int, p: int, i: int|
                old(self).in_range(s, p, i) && !(s == stage && p == pattern && i
                    == index) implies #[trigger] self.at(s, p, i) == old(self).at(s, p, i) by {
                old(self).lemma_cells_apart(
                    s,
                    p,
                    i,
                    stage as int,
                    pattern as int,
                    index as int,
                );
            }
        }
    }
}

/// The weights that a position selects: each mask's shape and index, shape by
/// shape.
pub open spec fn active_cells(patterns: Seq<Pattern>, b: Board) -> Seq<(int, int)> {
    Seq::new(
        flat_masks(patterns).len(),
        |m: int| (flat_owners(patterns)[m], mask_value(flat_masks(patterns)[m], b.own(), b.opp()) as int),
    )
}

impl Evaluator {
    /// The shape and the index of each weight that counts for a position. The
    /// position's value is the sum of these weights of its stage, and a
    /// training step changes each of them as often as it is listed.
    pub fn cells(&self, board: &Board) -> (v: Vec<(usize, usize)>)
        requires
            self.wf(),
        ensures
            v@.len() == active_cells(self.patterns@, *board).len(),
            forall|m: int|
                0 <= m < v@.len() ==> (#[trigger] v@[m]).0 == active_cells(
                    self.patterns@,
                    *board,
                )[m].0 && v@[m].1 == active_cells(self.patterns@, *board)[m].1,
            forall|m: int|
                0 <= m < v@.len() ==> self.in_range(
                    stage_of(*board),
                    (#[trigger] v@[m]).0 as int,
                    v@[m].1 as int,
                ),
    {
        let mut v: Vec<(usize, usize)> = Vec::new();
        let mut k: usize = 0;
        let ghost cells = active_cells(self.patterns@, *board);
        proof {
            assert(self.patterns@.take(0) =~= Seq::empty());
        }
        while k < self.patterns.len()
            invariant
                self.wf(),
                k <= self.patterns@.len(),
                cells == active_cells(self.patterns@, *board),
                v@.len() == first_mask(self.patterns@, k as int),
                v@.len() <= cells.len(),
                forall|m: int|
                    0 <= m < v@.len() ==> (#[trigger] v@[m]).0 == cells[m].0 && v@[m].1
                        == cells[m].1,
                forall|m: int|
                    0 <= m < v@.len() ==> self.in_range(
                        stage_of(*board),
                        (#[trigger] v@[m]).0 as int,
                        v@[m].1 as int,
                    ),
            decreases self.patterns@.len() - k,
        {
            let p: &Pattern = &self.patterns[k];
            assert(self.patterns@[k as int].wf());
            let indices: Vec<usize> = p.indices(board.black, board.white, board.player());
            let ghost start = v@.len() as int;
            proof {
                lemma_first_mask(self.patterns@, k as int);
            }
            let mut i: usize = 0;
            while i < indices.len()
                invariant
                    self.wf(),
                    k < self.patterns@.len(),
                    p == self.patterns@[k as int],
                    p.wf(),
                    cells == active_cells(self.patterns@, *board),
                    indices@.len() == p.masks@.len(),
                    forall|j: int|
                        0 <= j < indices@.len() ==> #[trigger] indices@[j] == mask_value(
                            p.masks@[j]@,
                            board.own(),
                            board.opp(),
                        ),
                    start == first_mask(self.patterns@, k as int),
                    i <= indices@.len(),
                    v@.len() == start + i,
                    v@.len() <= cells.len(),
                    forall|m: int|
                        0 <= m < v@.len() ==> (#[trigger] v@[m]).0 == cells[m].0 && v@[m].1
                            == cells[m].1,
                    forall|m: int|
                        0 <= m < v@.len() ==> self.in_range(
                            stage_of(*board),
                            (#[trigger] v@[m]).0 as int,
                            v@[m].1 as int,
                        ),
                decreases indices@.len() - i,
            {
                proof {
                    lemma_mask_of_shape(self.patterns@, k as int, i as int);
                    lemma_mask_value_bound(p.masks@[i as int]@, board.own(), board.opp());
                }
                v.push((k, indices[i]));
                i = i + 1;
            }
            k = k + 1;
        }
        proof {
            if self.patterns@.len() > 0 {
                lemma_first_mask(self.patterns@, 0);
            } else {
                assert(flat_masks(self.patterns@).len() == 0);
            }
        }
        v
    }

    /// The weights as a file.
    pub fn save_weights(&self) -> (v: Vec<u8>)
        requires
            self.wf(),
        ensures
            v@.len() == head_len(self.patterns@) + 4 * self.weights@.len(),
            head_fault(v@, self.patterns@) is None,
            forall|c: int|
                0 <= c < self.weights@.len() ==> word(v@, head_len(self.patterns@) + 4 * c, 4)
                    == #[trigger] self.weights@[c],
    {
        let mut v: Vec<u8> = Vec::new();
        let mut i: usize = 0;
        while i < 8
            invariant
                i <= 8,
                v@ == WEIGHT_MAGIC@.take(i as int),
            decreases 8 - i,
        {
            v.push(WEIGHT_MAGIC[i]);
            i = i + 1;
            assert(v@ =~= WEIGHT_MAGIC@.take(i as int));
        }
        assert(v@ =~= WEIGHT_MAGIC@);
        proof {
            lemma_pow256_values();
        }
        push_word(&mut v, STAGE_COUNT as u64, 4);
        let ghost w1 = v@;
        push_word(&mut v, self.patterns.len() as u64, 4);
        proof {
            lemma_kept(w1, v@, 8, 4);
            assert(v@.take(8) =~= WEIGHT_MAGIC@);
        }
        let mut k: usize = 0;
        while k < self.patterns.len()
            invariant
                self.wf(),
                k <= self.patterns@.len(),
                v@.len() == 16 + 4 * k,
                v@.take(8) == WEIGHT_MAGIC@,
                word(v@, 8, 4) == STAGE_COUNT,
                word(v@, 12, 4) == self.patterns@.len(),
                forall|j: int|
                    0 <= j < k ==> word(v@, 16 + 4 * j, 4) == pow3(
                        (#[trigger] self.patterns@[j]).size as nat,
                    ),
            decreases self.patterns@.len() - k,
        {
            assert(self.patterns@[k as int].wf());
            proof {
                lemma_pow256_values();
                lemma_pow3_mono(self.patterns@[k as int].size as nat, 10);
                lemma_pow3_values();
            }
            let ghost before = v@;
            push_word(&mut v, self.patterns[k].table_size() as u64, 4);
            proof {
                lemma_kept(before, v@, 8, 4);
                lemma_kept(before, v@, 12, 4);
                assert(v@.take(8) =~= before.take(8)) by {
                    assert(v@.take(before.len() as int).take(8) =~= v@.take(8));
                }
                assert forall|j: int| 0 <= j < k + 1 implies word(v@, 16 + 4 * j, 4) == pow3(
                    (#[trigger] self.patterns@[j]).size as nat,
                ) by {
                    if j < k {
                        lemma_kept(before, v@, 16 + 4 * j, 4);
                    }
                }
            }
            k = k + 1;
        }
        let mut c: usize = 0;
        while c < self.weights.len()
            invariant
                self.wf(),
                c <= self.weights@.len(),
                v@.len() == head_len(self.patterns@) + 4 * c,
                v@.take(8) == WEIGHT_MAGIC@,
                word(v@, 8, 4) == STAGE_COUNT,
                word(v@, 12, 4) == self.patterns@.len(),
                forall|j: int|
                    0 <= j < self.patterns@.len() ==> word(v@, 16 + 4 * j, 4) == pow3(
                        (#[trigger] self.patterns@[j]).size as nat,
                    ),
                forall|j: int|
                    0 <= j < c ==> word(v@, head_len(self.patterns@) + 4 * j, 4)
                        == #[trigger] self.weights@[j],
            decreases self.weights@.len() - c,
        {
            let ghost before = v@;
            proof {
                lemma_pow256_values();
            }
            push_word(&mut v, self.weights[c] as u64, 4);
            proof {
                lemma_kept(before, v@, 8, 4);
                lemma_kept(before, v@, 12, 4);
                assert(v@.take(8) =~= before.take(8)) by {
                    assert(v@.take(before.len() as int).take(8) =~= v@.take(8));
                }
                assert forall|j: int| 0 <= j < self.patterns@.len() implies word(
                    v@,
                    16 + 4 * j,
                    4,
                ) == pow3((#[trigger] self.patterns@[j]).size as nat) by {
                    lemma_kept(before, v@, 16 + 4 * j, 4);
                }
                assert forall|j: int| 0 <= j < c + 1 implies word(
                    v@,
                    head_len(self.patterns@) + 4 * j,
                    4,
                ) == #[trigger] self.weights@[j] by {
                    if j < c {
                        lemma_kept(before, v@, head_len(self.patterns@) + 4 * j, 4);
                    }
                }
            }
            c = c + 1;
        }
        proof {
            lemma_sizes_fault(v@, self.patterns@, 0);
        }
        v
    }

    /// Take the weights from a file that `save_weights` wrote for the same
    /// shapes. A file that ends among the weights replaces those that are
    /// there; what follows the weights is not read.
    pub fn load_weights(&mut self, bytes: &[u8]) -> (r: Result<(), WeightsError>)
        requires
            old(self).wf(),
        ensures
            final(self).wf(),
            final(self).patterns == old(self).patterns,
            ({
                let head = head_len(old(self).patterns@);
                match head_fault(bytes@, old(self).patterns@) {
                    Some(e) => r == Err::<(), WeightsError>(e) && final(self).weights@ == old(
                        self,
                    ).weights@,
                    None => {
                        &&& r == if bytes@.len() < head + 4 * old(self).weights@.len() {
                            Err::<(), WeightsError>(WeightsError::Truncated)
                        } else {
                            Ok::<(), WeightsError>(())
                        }
                        &&& forall|c: int|
                            0 <= c < old(self).weights@.len() ==> #[trigger] final(self).weights@[c]
                                == if head + 4 * c + 4 <= bytes@.len() {
                                word(bytes@, head + 4 * c, 4)
                            } else {
                                old(self).weights@[c] as nat
                            }
                    },
                }
            }),
    {
        proof {
            lemma_pow256_values();
        }
        if bytes.len() < 8 {
            return Err(WeightsError::Truncated);
        }
        let mut i: usize = 0;
        while i < 8
            invariant
                i <= 8,
                bytes@.len() >= 8,
                forall|j: int| 0 <= j < i ==> #[trigger] bytes@[j] == WEIGHT_MAGIC@[j],
                self == old(self),
                old(self).wf(),
            decreases 8 - i,
        {
            if bytes[i] != WEIGHT_MAGIC[i] {
                proof {
                    assert(bytes@.take(8)[i as int] != WEIGHT_MAGIC@[i as int]);
                }
                return Err(WeightsError::BadMagic);
            }
            i = i + 1;
        }
        assert(bytes@.take(8) =~= WEIGHT_MAGIC@);
        if bytes.len() < 12 {
            return Err(WeightsError::Truncated);
        }
        if read_word(bytes, 8, 4) != STAGE_COUNT as u64 {
            return Err(WeightsError::StageCount);
        }
        if bytes.len() < 16 {
            return Err(WeightsError::Truncated);
        }
        if read_word(bytes, 12, 4) != self.patterns.len() as u64 {
            return Err(WeightsError::PatternCount);
        }
        let mut k: usize = 0;
        while k < self.patterns.len()
            invariant
                k <= self.patterns@.len(),
                bytes@.len() >= 16 + 4 * k,
                self == old(self),
                old(self).wf(),
                head_fault(bytes@, self.patterns@) == sizes_fault(
                    bytes@,
                    self.patterns@,
                    k as int,
                ),
            decreases self.patterns@.len() - k,
        {
            assert(self.patterns@[k as int].wf());
            if bytes.len() < 20 + 4 * k {
                return Err(WeightsError::Truncated);
            }
            if read_word(bytes, 16 + 4 * k, 4) != self.patterns[k].table_size() as u64 {
                return Err(WeightsError::TableSize);
            }
            k = k + 1;
        }
        let mut at: usize = 16 + 4 * self.patterns.len();
        let total: usize = self.weights.len();
        let mut c: usize = 0;
        while c < total
            invariant
                self.wf(),
                old(self).wf(),
                self.patterns == old(self).patterns,
                total == self.weights@.len(),
                c <= total,
                at == head_len(self.patterns@) + 4 * c,
                at <= bytes@.len(),
                head_fault(bytes@, self.patterns@) is None,
                forall|j: int|
                    0 <= j < total ==> #[trigger] self.weights@[j] == if j < c {
                        word(bytes@, head_len(self.patterns@) + 4 * j, 4)
                    } else {
                        old(self).weights@[j] as nat
                    },
            decreases total - c,
        {
            proof {
                lemma_pow256_values();
            }
            if bytes.len() - at < 4 {
                return Err(WeightsError::Truncated);
            }
            let x: u64 = read_word(bytes, at, 4);
            self.weights.set(c, x as u32);
            at = at + 4;
            c = c + 1;
        }
        Ok(())
    }
}

/// Words that stood before something was written behind them still stand.
pub proof fn lemma_kept(before: Seq<u8>, after: Seq<u8>, at: int, n: nat)
    requires
        0 <= at,
        at + n <= before.len() <= after.len(),
        after.take(before.len() as int) == before,
    ensures
        word(after, at, n) == word(before, at, n),
{
    assert forall|k: int| 0 <= k < n implies #[trigger] after[at + k] == before[at + k] by {
        assert(after.take(before.len() as int)[at + k] == after[at + k]);
    }
    lemma_word_ext(after, at, before, at, n);
}

proof fn lemma_sizes_fault(bytes: Seq<u8>, patterns: Seq<Pattern>, k: int)
    requires
        0 <= k <= patterns.len(),
        bytes.len() >= head_len(patterns),
        forall|j: int|
            0 <= j < patterns.len() ==> word(bytes, 16 + 4 * j, 4) == pow3(
                (#[trigger] patterns[j]).size as nat,
            ),
    ensures
        sizes_fault(bytes, patterns, k) is None,
    decreases patterns.len() - k,
{
    if k < patterns.len() {
        assert(patterns[k].size == patterns[k].size);
        lemma_sizes_fault(bytes, patterns, k + 1);
    }
}

/// What a file says of the weights is what was written: any file that shows
/// what `save_weights` promises, loaded as `load_weights` promises, gives the
/// weights back.
pub proof fn law_weights_round_trip(saved: Evaluator, bytes: Seq<u8>, loaded: Seq<u32>)
    requires
        saved.wf(),
        bytes.len() == head_len(saved.patterns@) + 4 * saved.weights@.len(),
        forall|c: int|
            0 <= c < saved.weights@.len() ==> word(bytes, head_len(saved.patterns@) + 4 * c, 4)
                == #[trigger] saved.weights@[c],
        loaded.len() == saved.weights@.len(),
        forall|c: int|
            0 <= c < loaded.len() ==> #[trigger] loaded[c] == word(
                bytes,
                head_len(saved.patterns@) + 4 * c,
                4,
            ),
    ensures
        loaded == saved.weights@,
{
    assert forall|c: int| 0 <= c < loaded.len() implies loaded[c] == saved.weights@[c] by {
        assert(saved.weights@[c] == saved.weights@[c]);
    }
    assert(loaded =~= saved.weights@);
}

/// Pattern weights in half discs, by stage, as each side reads them.
#[derive(Debug)]
pub struct StageTables {
    pub indexer: PatternIndexer,
    pub mask_off: Vec<u32>,
    pub black: Vec<Vec<i16>>,
    pub white: Vec<Vec<i16>>,
}

/// The weight that mask `m` selects in one stage's tables, when the squares
/// show the given sides.
pub open spec fn mask_weight(patterns: Seq<Pattern>, table: Seq<i16>, m: int, own: u64, opp: u64) -> int {
    table[table_start(patterns, flat_owners(patterns)[m]) + mask_value(
        flat_masks(patterns)[m],
        own,
        opp,
    )] as int
}

/// The weights that the masks select in one stage's tables.
pub open spec fn mask_weights(patterns: Seq<Pattern>, table: Seq<i16>, own: u64, opp: u64) -> Seq<int> {
    Seq::new(flat_masks(patterns).len(), |m: int| mask_weight(patterns, table, m, own, opp))
}

proof fn lemma_sum_bound(values: Seq<int>, n: int, limit: int)
    requires
        0 <= n <= values.len(),
        0 <= limit,
        forall|k: int| 0 <= k < values.len() ==> -limit <= #[trigger] values[k] <= limit,
    ensures
        -(limit * n) <= sum_first(values, n) <= limit * n,
    decreases n,
{
    if n > 0 {
        lemma_sum_bound(values, n - 1, limit);
        assert(limit * n == limit * (n - 1) + limit) by (nonlinear_arith);
    } else {
        assert(limit * 0 == 0);
    }
}

impl StageTables {
    /// The tables fit the shapes, and White's tables are Black's as White reads
    /// them.
    pub open spec fn wf(self) -> bool {
        &&& self.indexer.wf()
        &&& self.mask_off@.len() == self.indexer.masks@.len()
        &&& forall|m: int|
            0 <= m < self.mask_off@.len() ==> #[trigger] self.mask_off@[m] == table_start(
                self.indexer.patterns@,
                flat_owners(self.indexer.patterns@)[m],
            )
        &&& self.black@.len() == STAGE_COUNT
        &&& self.white@.len() == STAGE_COUNT
        &&& forall|s: int|
            0 <= s < STAGE_COUNT ==> is_other_view(
                self.indexer.patterns@,
                (#[trigger] self.black@[s])@,
                self.white@[s]@,
                row_count(self.indexer.patterns@),
                1,
            )
    }

    /// The sum of the weights that a position selects.
    pub open spec fn value(self, b: Board) -> int {
        sum_first(
            mask_weights(
                self.indexer.patterns@,
                self.black@[stage_of(b)]@,
                b.own(),
                b.opp(),
            ),
            flat_masks(self.indexer.patterns@).len() as int,
        )
    }

    /// Tables from the weights of each stage.
    pub fn new(patterns: Vec<Pattern>, stages: Vec<Vec<i16>>) -> (t: StageTables)
        requires
            indexable(patterns@),
            patterns@.len() > 0,
            stages@.len() == STAGE_COUNT,
            forall|s: int|
                0 <= s < STAGE_COUNT ==> (#[trigger] stages@[s])@.len() == row_count(patterns@),
        ensures
            t.wf(),
            t.indexer.patterns == patterns,
            t.black == stages,
    {
        let indexer: PatternIndexer = PatternIndexer::new(patterns);
        let mask_off: Vec<u32> = mask_starts(&indexer);
        let mut white: Vec<Vec<i16>> = Vec::new();
        let ghost n = row_count(indexer.patterns@);
        proof {
            let last = indexer.patterns@.len() as int;
            lemma_table_start(indexer.patterns@, 0, last);
            lemma_pow3_mono(0, indexer.patterns@[0].size as nat);
        }
        let mut s: usize = 0;
        while s < STAGE_COUNT
            invariant
                indexer.wf(),
                n == row_count(indexer.patterns@),
                0 < n <= 59049 * 256,
                stages@.len() == STAGE_COUNT,
                forall|s: int| 0 <= s < STAGE_COUNT ==> (#[trigger] stages@[s])@.len() == n,
                s <= STAGE_COUNT,
                white@.len() == s,
                forall|j: int|
                    0 <= j < s ==> is_other_view(
                        indexer.patterns@,
                        (#[trigger] stages@[j])@,
                        white@[j]@,
                        n,
                        1,
                    ),
            decreases STAGE_COUNT - s,
        {
            assert(stages@[s as int]@.len() == n);
            let w: Vec<i16> = other_view(&indexer.patterns, &stages[s], 1, 1);
            white.push(w);
            s = s + 1;
        }
        StageTables { indexer, mask_off, black: stages, white }
    }

    /// What a mask's table row shows to the side to move.
    proof fn lemma_selected(self, b: Board, indices: PatternIndices, m: int)
        requires
            self.wf(),
            b.wf(),
            self.indexer.holds(indices, b.black, b.white),
            0 <= m < self.indexer.masks@.len(),
        ensures
            self.mask_off@[m] + indices.idx@[m] < row_count(self.indexer.patterns@),
            ({
                let t = match b.player {
                    Color::Black => self.black@[stage_of(b)]@,
                    Color::White => self.white@[stage_of(b)]@,
                };
                t[self.mask_off@[m] + indices.idx@[m]] == mask_weight(
                    self.indexer.patterns@,
                    self.black@[stage_of(b)]@,
                    m,
                    b.own(),
                    b.opp(),
                )
            }),
    {
        let patterns = self.indexer.patterns@;
        let n = row_count(patterns);
        let last = patterns.len() as int;
        let k = flat_owners(patterns)[m];
        let mask = flat_masks(patterns)[m];
        assert(self.indexer.masks@[m]@ == mask);
        lemma_shape_of_mask(patterns, m);
        lemma_masks_ok(patterns, m);
        lemma_mask_value_bound(mask, b.black, b.white);
        lemma_table_start(patterns, k, last);
        let r = self.mask_off@[m] + indices.idx@[m];
        if b.player == Color::White {
            let st = stage_of(b);
            lemma_wf_sides(b);
            assert(b.black & b.white == 0);
            lemma_swap_is_other_view(mask, b.black, b.white);
            lemma_other_row(patterns, last, k, indices.idx@[m] as int);
            let black = self.black@[st]@;
            let white = self.white@[st]@;
            assert(is_other_view(patterns, black, white, n, 1));
            assert(r / n == 0 && r % n == r) by (nonlinear_arith)
                requires
                    0 <= r < n,
            ;
            assert(0int * n == 0) by (nonlinear_arith);
            assert(copied_other_row(patterns, r) == other_row(patterns, last, r));
            assert(white[r * 1 + 0] == black[copied_other_row(patterns, r) * 1 + 0]);
        }
    }
}

impl LeafEval for StageTables {
    open spec fn valid(&self) -> bool {
        self.wf()
    }

    open spec fn tables(&self) -> PatternIndexer {
        self.indexer
    }

    open spec fn leaf(&self, b: Board) -> int {
        self.value(b)
    }

    fn indexer(&self) -> (ix: &PatternIndexer) {
        &self.indexer
    }

    fn eval_indices(&self, b: &Board, indices: &PatternIndices) -> (v: i32) {
        let s: usize = Evaluator::stage(b);
        let ghost patterns = self.indexer.patterns@;
        proof {
            assert forall|m: int| 0 <= m < self.indexer.masks@.len() implies #[trigger] self.mask_off@[m]
                + indices.idx@[m] < row_count(patterns) by {
                self.lemma_selected(*b, *indices, m);
            }
            assert(is_other_view(
                patterns,
                self.black@[s as int]@,
                self.white@[s as int]@,
                row_count(patterns),
                1,
            ));
            assert(row_count(patterns) * 1 == row_count(patterns));
            self.leaf_bounded(*b);
        }
        let table: &Vec<i16> = match b.player {
            Color::Black => &self.black[s],
            Color::White => &self.white[s],
        };
        let sum: i32 = self.indexer.eval_sum_i16(indices, table.as_slice(), self.mask_off.as_slice());
        proof {
            let read = Seq::new(
                self.indexer.masks@.len(),
                |m: int| table@[self.mask_off@[m] + indices.idx@[m]] as int,
            );
            let meant = mask_weights(patterns, self.black@[s as int]@, b.own(), b.opp());
            assert forall|m: int| 0 <= m < read.len() implies read[m] == meant[m] by {
                self.lemma_selected(*b, *indices, m);
            }
            assert(read =~= meant);
        }
        sum
    }

    proof fn leaf_bounded(&self, b: Board) {
        let values = mask_weights(
            self.indexer.patterns@,
            self.black@[stage_of(b)]@,
            b.own(),
            b.opp(),
        );
        lemma_sum_bound(values, values.len() as int, 32768);
    }

    proof fn leaf_goes_by_view(&self, a: Board, b: Board) {
    }

    fn eval_order(&self, b: &Board, indices: &PatternIndices) -> (key: i64) {
        self.eval_indices(b, indices) as i64
    }
}

/// How many of the first `n` masks show the side to move row `r`.
pub open spec fn showing(patterns: Seq<Pattern>, r: int, own: u64, opp: u64, n: int) -> int
    decreases n,
{
    if n <= 0 {
        0
    } else {
        showing(patterns, r, own, opp, n - 1) + if table_start(patterns, flat_owners(patterns)[n - 1])
            + mask_value(flat_masks(patterns)[n - 1], own, opp) == r {
            1int
        } else {
            0int
        }
    }
}

/// A weight counts once for every mask that shows its row to the side to move, at
/// the weight's stage and at no other: raising it by `k` raises the value of a
/// position by `k` for each.
pub proof fn law_weight_counts_where_shown(m: StageTables, n: StageTables, stage: int, r: int, k: int, b: Board)
    requires
        m.wf(),
        b.wf(),
        m.indexer == n.indexer,
        0 <= stage < STAGE_COUNT,
        0 <= r < m.black@[stage]@.len(),
        forall|s: int| 0 <= s < STAGE_COUNT && s != stage ==> #[trigger] n.black@[s] == m.black@[s],
        n.black@[stage]@.len() == m.black@[stage]@.len(),
        forall|i: int|
            0 <= i < m.black@[stage]@.len() ==> #[trigger] n.black@[stage]@[i] == m.black@[stage]@[i]
                + if i == r {
                k
            } else {
                0
            },
    ensures
        n.leaf(b) == m.leaf(b) + if stage_of(b) == stage {
            k * showing(
                m.indexer.patterns@,
                r,
                b.own(),
                b.opp(),
                flat_masks(m.indexer.patterns@).len() as int,
            )
        } else {
            0
        },
{
    if stage_of(b) == stage {
        lemma_raised(m, n, stage, r, k, b, flat_masks(m.indexer.patterns@).len() as int);
    }
}

proof fn lemma_raised(m: StageTables, n: StageTables, stage: int, r: int, k: int, b: Board, c: int)
    requires
        m.wf(),
        b.wf(),
        m.indexer == n.indexer,
        0 <= stage < STAGE_COUNT,
        0 <= c <= flat_masks(m.indexer.patterns@).len(),
        forall|i: int|
            0 <= i < m.black@[stage]@.len() ==> #[trigger] n.black@[stage]@[i] == m.black@[stage]@[i]
                + if i == r {
                k
            } else {
                0
            },
    ensures
        sum_first(
            mask_weights(m.indexer.patterns@, n.black@[stage]@, b.own(), b.opp()),
            c,
        ) == sum_first(
            mask_weights(m.indexer.patterns@, m.black@[stage]@, b.own(), b.opp()),
            c,
        ) + k * showing(m.indexer.patterns@, r, b.own(), b.opp(), c),
    decreases c,
{
    let patterns = m.indexer.patterns@;
    if c > 0 {
        lemma_raised(m, n, stage, r, k, b, c - 1);
        let o = flat_owners(patterns)[c - 1];
        let mask = flat_masks(patterns)[c - 1];
        lemma_shape_of_mask(patterns, c - 1);
        lemma_masks_ok(patterns, c - 1);
        lemma_wf_sides(b);
        lemma_mask_value_bound(mask, b.own(), b.opp());
        lemma_table_start(patterns, o, patterns.len() as int);
        let at = table_start(patterns, o) + mask_value(mask, b.own(), b.opp());
        assert(0 <= at < m.black@[stage]@.len());
        let before = showing(patterns, r, b.own(), b.opp(), c - 1);
        assert(k * (before + 1) == k * before + k) by (nonlinear_arith);
    } else {
        assert(k * 0 == 0);
    }
}

/// A move brings the next stage, from the standard start on; a pass brings none.
pub proof fn law_stage_rises(b: Board, s: int)
    requires
        b.wf(),
        0 <= s < 64,
        b.legal(s),
        b.empty_count <= 60,
    ensures
        stage_of(b.after(s)) == stage_of(b) + 1,
        stage_of(b.passed()) == stage_of(b),
        0 <= stage_of(b) < STAGE_COUNT,
        b.empty_count == 60 ==> stage_of(b) == 0,
{
    lemma_after_wf(b, s);
}

} // verus!
