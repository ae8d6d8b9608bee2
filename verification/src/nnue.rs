//! A small network over the pattern features.
//!
//! Each cell of the pattern tables has a row of weights. The rows that a
//! position selects add up to the accumulator, and a read-out by stage turns
//! that into a value.

use vstd::prelude::*;

use crate::bitboard::{symmetric, symmetry_of};
use crate::board::{Board, lemma_wf_sides};
use crate::color::Color;
use crate::evaluator::STAGE_COUNT;
use crate::layout::{copied_other_row, is_other_view, lemma_other_row, lemma_table_start, mask_starts, row_count, table_start};
use crate::pattern::{Pattern, flat_masks, flat_owners, lemma_mask_value_bound, lemma_pow3_mono, lemma_shape_of_mask, mask_value, pow3};
use crate::pattern_index::{PatternIndexer, PatternIndices, indexable, lemma_masks_ok, lemma_swap_involution, lemma_swap_is_other_view, swap_digits};
use kernels::{Lane, accumulate_rows, lane_sum, lane_values, numbers, wrap16};

pub mod counting;
pub mod gpu;
pub mod kernels;
pub mod batch;
pub mod leaf;
pub mod model;
pub mod orbits;
pub mod quantized;
pub mod stack_q;
pub mod wide;

verus! {

/// Lanes of the accumulator.
pub const H: usize = 32;

/// Copies of the feature rows, one for each part of the game.
pub const FT_BUCKETS: usize = 1;

/// Entries of the table by disc count.
pub const NUM_TABLE_SIZE: usize = 65;

/// Entries of the table by mobility.
pub const MOB_BUCKETS: usize = 24;

/// Which copy of the feature rows a stage reads.
pub fn ft_bucket(stage: usize) -> (k: usize)
    requires
        stage < STAGE_COUNT,
    ensures
        k == stage * FT_BUCKETS / (STAGE_COUNT as int),
        k < FT_BUCKETS,
{
    stage * FT_BUCKETS / STAGE_COUNT
}

/// The next state of the draw of forms.
pub open spec fn stirred(state: u64) -> u64 {
    let a = state ^ (state << 13u64);
    let b = a ^ (a >> 7u64);
    b ^ (b << 17u64)
}

/// Draw one of the eight forms: the next state, and the form.
pub fn draw_form(state: u64) -> (r: (u64, u8))
    ensures
        r.0 == stirred(state),
        r.1 == (stirred(state) >> 40u64) % 8,
{
    let a: u64 = state ^ (state << 13u64);
    let b: u64 = a ^ (a >> 7u64);
    let c: u64 = b ^ (b << 17u64);
    (c, ((c >> 40u64) % 8) as u8)
}

/// A set of squares under the `i`-th symmetry, by which training positions are
/// turned.
pub fn sym_board(b: u64, i: u8) -> (w: u64)
    ensures
        w == symmetry_of(b, i as int),
{
    symmetric(b, i)
}

/// The entry of the table by disc count: the discs of the side to move.
pub fn num_index(b: &Board) -> (n: usize)
    requires
        b.wf(),
    ensures
        n == crate::bits::count(b.own()),
        n < NUM_TABLE_SIZE,
{
    proof {
        crate::bits::lemma_count_bound(b.own(), 64);
    }
    crate::bits::count_ones(b.player_bb()) as usize
}

/// The entry of the table by mobility: the moves of the side to move, all that
/// are more than the table has entries for in the last.
pub fn mob_index(b: &Board) -> (n: usize)
    requires
        b.wf(),
    ensures
        n == if crate::bits::count(b.moves()) < MOB_BUCKETS {
            crate::bits::count(b.moves()) as int
        } else {
            MOB_BUCKETS - 1
        },
{
    let moves: usize = b.movable_count() as usize;
    if moves < MOB_BUCKETS {
        moves
    } else {
        MOB_BUCKETS - 1
    }
}

/// The row that mask `m` selects when its squares show the given sides.
pub open spec fn own_row(patterns: Seq<Pattern>, m: int, own: u64, opp: u64) -> int {
    table_start(patterns, flat_owners(patterns)[m]) + mask_value(
        flat_masks(patterns)[m],
        own,
        opp,
    )
}

/// The rows that the masks select in the copy that starts at row `base`.
pub open spec fn own_rows(patterns: Seq<Pattern>, base: int, own: u64, opp: u64) -> Seq<int> {
    Seq::new(flat_masks(patterns).len(), |m: int| base + own_row(patterns, m, own, opp))
}

/// The feature rows of a library: which rows a position selects.
#[derive(Debug)]
pub struct Features {
    pub indexer: PatternIndexer,
    /// For each mask where its shape's rows start.
    pub mask_off: Vec<u32>,
    /// Rows of one copy.
    pub rows: usize,
}

impl Features {
    /// The offsets belong to the library.
    pub open spec fn wf(self) -> bool {
        &&& self.indexer.wf()
        &&& self.mask_off@.len() == self.indexer.masks@.len()
        &&& forall|m: int|
            0 <= m < self.mask_off@.len() ==> #[trigger] self.mask_off@[m] == table_start(
                self.indexer.patterns@,
                flat_owners(self.indexer.patterns@)[m],
            )
        &&& self.rows == row_count(self.indexer.patterns@)
        &&& 0 < self.rows <= 59049 * 256
    }

    /// Each index lies within its shape's table.
    pub open spec fn fits(self, indices: PatternIndices) -> bool {
        forall|m: int|
            0 <= m < self.indexer.masks@.len() ==> #[trigger] indices.idx@[m] < pow3(
                self.indexer.patterns@[flat_owners(self.indexer.patterns@)[m]].size as nat,
            )
    }

    /// The row that mask `m` selects, as Black or as White reads the index.
    pub open spec fn row(self, indices: PatternIndices, m: int, player: Color) -> int {
        let k = flat_owners(self.indexer.patterns@)[m];
        table_start(self.indexer.patterns@, k) + match player {
            Color::Black => indices.idx@[m] as nat,
            Color::White => swap_digits(
                indices.idx@[m] as nat,
                self.indexer.patterns@[k].size as nat,
            ),
        }
    }

    /// The feature rows of a library.
    pub fn new(patterns: Vec<Pattern>) -> (f: Features)
        requires
            indexable(patterns@),
            patterns@.len() > 0,
        ensures
            f.wf(),
            f.indexer.patterns == patterns,
    {
        let indexer: PatternIndexer = PatternIndexer::new(patterns);
        let mask_off: Vec<u32> = mask_starts(&indexer);
        let starts: Vec<u32> = crate::layout::table_starts(&indexer.patterns);
        let n: usize = indexer.patterns.len();
        proof {
            lemma_table_start(indexer.patterns@, 0, n as int);
            lemma_pow3_mono(0, indexer.patterns@[0].size as nat);
        }
        let rows: usize = starts[n] as usize;
        Features { indexer, mask_off, rows }
    }

    /// A row lies within its copy.
    pub proof fn lemma_row(self, indices: PatternIndices, m: int, player: Color)
        requires
            self.wf(),
            self.fits(indices),
            0 <= m < self.indexer.masks@.len(),
        ensures
            0 <= self.row(indices, m, player) < self.rows,
            0 <= flat_owners(self.indexer.patterns@)[m] < self.indexer.patterns@.len(),
            self.indexer.patterns@[flat_owners(self.indexer.patterns@)[m]].size <= 10,
    {
        let patterns = self.indexer.patterns@;
        let k = flat_owners(patterns)[m];
        lemma_shape_of_mask(patterns, m);
        lemma_masks_ok(patterns, m);
        assert(indices.idx@[m] < pow3(patterns[k].size as nat));
        lemma_table_start(patterns, k, patterns.len() as int);
        lemma_swap_involution(indices.idx@[m] as nat, patterns[k].size as nat);
    }

    /// The rows that the indices of a position select for the side to move are
    /// the rows that its own and the other discs select.
    pub proof fn lemma_own_row(self, b: Board, indices: PatternIndices, m: int)
        requires
            self.wf(),
            b.wf(),
            self.indexer.holds(indices, b.black, b.white),
            0 <= m < self.indexer.masks@.len(),
        ensures
            self.row(indices, m, b.player) == own_row(
                self.indexer.patterns@,
                m,
                b.own(),
                b.opp(),
            ),
    {
        let patterns = self.indexer.patterns@;
        let mask = flat_masks(patterns)[m];
        assert(self.indexer.masks@[m]@ == mask);
        lemma_masks_ok(patterns, m);
        lemma_wf_sides(b);
        assert(b.black & b.white == 0);
        lemma_swap_is_other_view(mask, b.black, b.white);
    }

    /// Indices of a position lie within the tables.
    pub proof fn lemma_fits(self, indices: PatternIndices, black: u64, white: u64)
        requires
            self.wf(),
            self.indexer.holds(indices, black, white),
        ensures
            self.fits(indices),
    {
        let patterns = self.indexer.patterns@;
        assert forall|m: int| 0 <= m < self.indexer.masks@.len() implies #[trigger] indices.idx@[m]
            < pow3(patterns[flat_owners(patterns)[m]].size as nat) by {
            assert(self.indexer.masks@[m]@ == flat_masks(patterns)[m]);
            lemma_masks_ok(patterns, m);
            lemma_mask_value_bound(flat_masks(patterns)[m], black, white);
        }
    }

    /// The rows as Black reads the indices, in the copy that starts at row
    /// `base`.
    pub fn features_black(&self, indices: &PatternIndices, base: usize) -> (v: Vec<usize>)
        requires
            self.wf(),
            self.fits(*indices),
            base + self.rows <= usize::MAX,
        ensures
            v@.len() == self.indexer.masks@.len(),
            forall|m: int|
                0 <= m < v@.len() ==> #[trigger] v@[m] == base + self.row(
                    *indices,
                    m,
                    Color::Black,
                ),
    {
        let mut v: Vec<usize> = Vec::new();
        let mut m: usize = 0;
        while m < self.mask_off.len()
            invariant
                self.wf(),
                self.fits(*indices),
                base + self.rows <= usize::MAX,
                m <= self.mask_off@.len(),
                v@.len() == m,
                forall|j: int|
                    0 <= j < m ==> #[trigger] v@[j] == base + self.row(*indices, j, Color::Black),
            decreases self.mask_off@.len() - m,
        {
            proof {
                self.lemma_row(*indices, m as int, Color::Black);
            }
            v.push(base + (self.mask_off[m] as usize + indices.idx[m] as usize));
            m = m + 1;
        }
        v
    }

    /// The rows as the given side reads the indices, in the copy that starts at
    /// row `base`.
    pub fn features_player(&self, indices: &PatternIndices, player: Color, base: usize) -> (v: Vec<
        usize,
    >)
        requires
            self.wf(),
            self.fits(*indices),
            base + self.rows <= usize::MAX,
        ensures
            v@.len() == self.indexer.masks@.len(),
            forall|m: int|
                0 <= m < v@.len() ==> #[trigger] v@[m] == base + self.row(*indices, m, player),
    {
        if player == Color::Black {
            return self.features_black(indices, base);
        }
        let mut v: Vec<usize> = Vec::new();
        let mut m: usize = 0;
        while m < self.mask_off.len()
            invariant
                self.wf(),
                self.fits(*indices),
                base + self.rows <= usize::MAX,
                player == Color::White,
                m <= self.mask_off@.len(),
                v@.len() == m,
                forall|j: int|
                    0 <= j < m ==> #[trigger] v@[j] == base + self.row(*indices, j, player),
            decreases self.mask_off@.len() - m,
        {
            proof {
                self.lemma_row(*indices, m as int, player);
                lemma_masks_ok(self.indexer.patterns@, m as int);
            }
            let e: usize = self.indexer.swapped_index(m, indices.idx[m] as usize);
            v.push(base + (self.mask_off[m] as usize + e));
            m = m + 1;
        }
        v
    }

    /// The indices of a position.
    pub fn indices(&self, black: u64, white: u64) -> (indices: PatternIndices)
        requires
            self.wf(),
        ensures
            self.indexer.holds(indices, black, white),
            self.fits(indices),
    {
        let indices: PatternIndices = self.indexer.init(black, white);
        proof {
            self.lemma_fits(indices, black, white);
        }
        indices
    }

    /// The rows that a position with Black to move selects at the given stage.
    pub fn feature_rows_black(&self, black: u64, white: u64, stage: usize) -> (v: Vec<usize>)
        requires
            self.wf(),
            stage < STAGE_COUNT,
        ensures
            v@.len() == self.indexer.masks@.len(),
            forall|m: int|
                0 <= m < v@.len() ==> #[trigger] v@[m] == (stage * FT_BUCKETS / (STAGE_COUNT as int))
                    * self.rows + own_row(self.indexer.patterns@, m, black, white),
    {
        let indices: PatternIndices = self.indices(black, white);
        let k: usize = ft_bucket(stage);
        assert(k * self.rows == 0) by (nonlinear_arith)
            requires
                k == 0,
        ;
        let base: usize = k * self.rows;
        let v: Vec<usize> = self.features_black(&indices, base);
        proof {
            assert forall|m: int| 0 <= m < v@.len() implies #[trigger] v@[m] == base + own_row(
                self.indexer.patterns@,
                m,
                black,
                white,
            ) by {
                assert(self.indexer.masks@[m]@ == flat_masks(self.indexer.patterns@)[m]);
                assert(indices.idx@[m] == mask_value(self.indexer.masks@[m]@, black, white));
            }
        }
        v
    }
}

/// White's tables, read where Black's indices point, show what Black's tables
/// show where White's own discs point.
pub proof fn lemma_view_row<T>(
    f: Features,
    black: Seq<T>,
    white: Seq<T>,
    copy: int,
    copies: int,
    width: int,
    indices: PatternIndices,
    m: int,
    h: int,
)
    requires
        f.wf(),
        f.fits(indices),
        0 <= copy < copies,
        0 <= h < width,
        is_other_view(f.indexer.patterns@, black, white, copies * f.rows, width),
        0 <= m < f.indexer.masks@.len(),
    ensures
        white[(copy * f.rows + f.row(indices, m, Color::Black)) * width + h] == black[(copy * f.rows
            + f.row(indices, m, Color::White)) * width + h],
{
    let patterns = f.indexer.patterns@;
    let n = f.rows as int;
    let last = patterns.len() as int;
    let k = flat_owners(patterns)[m];
    f.lemma_row(indices, m, Color::Black);
    let r = f.row(indices, m, Color::Black);
    assert(indices.idx@[m] < pow3(patterns[k].size as nat));
    lemma_other_row(patterns, last, k, indices.idx@[m] as int);
    let row = copy * n + r;
    assert(row / n == copy && row % n == r) by (nonlinear_arith)
        requires
            row == copy * n + r,
            0 <= r < n,
            0 <= copy,
    ;
    assert(0 <= row < copies * n) by (nonlinear_arith)
        requires
            row == copy * n + r,
            0 <= r < n,
            0 <= copy < copies,
    ;
    assert(copied_other_row(patterns, row) == copy * n + f.row(indices, m, Color::White));
    assert(white[row * width + h] == black[copied_other_row(patterns, row) * width + h]);
}

/// Add up the rows that a position selects from the side to move, in one of the
/// copies, on a bias row that starts at `at`.
pub fn side_lanes<T: Lane>(
    f: &Features,
    black: &Vec<T>,
    white: &Vec<T>,
    copy: usize,
    copies: usize,
    width: usize,
    bias: &Vec<i16>,
    at: usize,
    indices: &PatternIndices,
    b: &Board,
) -> (acc: Vec<i16>)
    requires
        f.wf(),
        copy < copies,
        0 < width,
        copies * f.rows <= usize::MAX,
        is_other_view(f.indexer.patterns@, black@, white@, copies * f.rows, width as int),
        at + width <= bias@.len(),
        b.wf(),
        f.indexer.holds(*indices, b.black, b.white),
    ensures
        acc@.len() == width,
        forall|h: int|
            0 <= h < width ==> #[trigger] acc@[h] == wrap16(
                bias@[at + h] + lane_sum(
                    black@,
                    own_rows(f.indexer.patterns@, copy * f.rows, b.own(), b.opp()),
                    width as int,
                    h,
                ),
            ),
{
    let ghost patterns = f.indexer.patterns@;
    let ghost base_row = copy * f.rows;
    proof {
        f.lemma_fits(*indices, b.black, b.white);
        assert(base_row + f.rows <= copies * f.rows && 0 <= base_row) by (nonlinear_arith)
            requires
                base_row == copy * f.rows,
                0 <= copy,
                copy + 1 <= copies,
        ;
    }
    let base: usize = copy * f.rows;
    let rows: Vec<usize> = f.features_black(indices, base);
    let ghost ids = numbers(rows@);
    let ghost own = own_rows(patterns, base_row, b.own(), b.opp());
    proof {
        assert forall|m: int| 0 <= m < ids.len() implies 0 <= #[trigger] ids[m] && ids[m] * width
            + width <= copies * f.rows * width by {
            f.lemma_row(*indices, m, Color::Black);
            let r = ids[m];
            assert(rows@[m] == base + f.row(*indices, m, Color::Black));
            assert(r * width + width <= (copies * f.rows) * width) by (nonlinear_arith)
                requires
                    0 <= r < copies * f.rows,
                    width > 0,
            ;
        }
    }
    let acc: Vec<i16> = match b.player {
        Color::Black => accumulate_rows(black, &rows, width, bias, at),
        Color::White => accumulate_rows(white, &rows, width, bias, at),
    };
    proof {
        assert forall|h: int| 0 <= h < width implies #[trigger] acc@[h] == wrap16(
            bias@[at + h] + lane_sum(black@, own, width as int, h),
        ) by {
            let table = if b.player == Color::Black {
                black@
            } else {
                white@
            };
            let x = lane_values(table, ids, width as int, h);
            let y = lane_values(black@, own, width as int, h);
            assert forall|m: int| 0 <= m < x.len() implies x[m] == y[m] by {
                f.lemma_own_row(*b, *indices, m);
                assert(rows@[m] == base + f.row(*indices, m, Color::Black));
                assert(ids[m] == base + f.row(*indices, m, Color::Black));
                if b.player == Color::White {
                    lemma_view_row(
                        *f,
                        black@,
                        white@,
                        copy as int,
                        copies as int,
                        width as int,
                        *indices,
                        m,
                        h,
                    );
                }
            }
            assert(x =~= y);
        }
    }
    acc
}

/// The rows that the masks select go by what the side to move sees: each lies as far
/// behind the start of its shape's rows as the mask's index says, whichever copy of
/// the rows is read.
pub proof fn law_rows_go_by_view(patterns: Seq<Pattern>, base: int, own: u64, opp: u64)
    ensures
        own_rows(patterns, base, own, opp).len() == flat_masks(patterns).len(),
        forall|m: int|
            0 <= m < flat_masks(patterns).len() ==> (#[trigger] own_rows(patterns, base, own, opp)[m])
                - base - table_start(patterns, flat_owners(patterns)[m]) == mask_value(
                flat_masks(patterns)[m],
                own,
                opp,
            ),
{
}

} // verus!
