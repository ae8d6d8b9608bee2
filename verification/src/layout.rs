//! Weight tables laid end to end: where each shape's table starts, and the
//! tables as White reads them.

use vstd::prelude::*;

use crate::pattern::{Pattern, flat_owners, lemma_pow3_mono, lemma_pow3_values, lemma_shape_of_mask, library_wf, pow3};
use crate::pattern_index::{PatternIndexer, lemma_swap_involution, swap_digits};

verus! {

/// Where the table of shape `k` starts.
pub open spec fn table_start(patterns: Seq<Pattern>, k: int) -> int
    decreases k,
{
    if k <= 0 {
        0
    } else {
        table_start(patterns, k - 1) + pow3(patterns[k - 1].size as nat)
    }
}

/// Rows of all tables together.
pub open spec fn row_count(patterns: Seq<Pattern>) -> int {
    table_start(patterns, patterns.len() as int)
}

/// The row that stands, as White reads it, where Black reads row `r`: the same
/// shape's row with the digits exchanged. `k` shapes are looked through.
pub open spec fn other_row(patterns: Seq<Pattern>, k: int, r: int) -> int
    decreases k,
{
    if k <= 0 {
        r
    } else {
        let s = table_start(patterns, k - 1);
        if r >= s {
            s + swap_digits((r - s) as nat, patterns[k - 1].size as nat)
        } else {
            other_row(patterns, k - 1, r)
        }
    }
}

/// Tables do not overlap.
pub proof fn lemma_table_start(patterns: Seq<Pattern>, a: int, b: int)
    requires
        0 <= a <= b <= patterns.len(),
        library_wf(patterns),
    ensures
        0 <= table_start(patterns, a) <= table_start(patterns, b) <= 59049 * b,
        a < b ==> table_start(patterns, a) + pow3(patterns[a].size as nat) <= table_start(
            patterns,
            b,
        ),
    decreases b,
{
    if b > 0 {
        assert(patterns[b - 1].wf());
        lemma_pow3_mono(patterns[b - 1].size as nat, 10);
        lemma_pow3_values();
        if a < b {
            lemma_table_start(patterns, a, b - 1);
        } else {
            lemma_table_start(patterns, a - 1, b - 1);
        }
    }
}

/// White's row of a row of shape `k`.
pub proof fn lemma_other_row(patterns: Seq<Pattern>, n: int, k: int, i: int)
    requires
        0 <= k < n <= patterns.len(),
        library_wf(patterns),
        0 <= i < pow3(patterns[k].size as nat),
    ensures
        other_row(patterns, n, table_start(patterns, k) + i) == table_start(patterns, k)
            + swap_digits(i as nat, patterns[k].size as nat),
    decreases n,
{
    if k < n - 1 {
        lemma_table_start(patterns, k, n - 1);
        lemma_other_row(patterns, n - 1, k, i);
    }
}

/// White's row is a row of the same tables, and its own White's row is the row.
pub proof fn lemma_other_row_bound(patterns: Seq<Pattern>, n: int, r: int)
    requires
        0 <= n <= patterns.len(),
        library_wf(patterns),
        0 <= r < table_start(patterns, n),
    ensures
        0 <= other_row(patterns, n, r) < table_start(patterns, n),
        other_row(patterns, n, other_row(patterns, n, r)) == r,
    decreases n,
{
    let s = table_start(patterns, n - 1);
    lemma_table_start(patterns, n - 1, n);
    if r >= s {
        lemma_swap_involution((r - s) as nat, patterns[n - 1].size as nat);
    } else {
        lemma_other_row_bound(patterns, n - 1, r);
    }
}

/// Where the tables of the shapes start, and behind them the number of rows.
pub fn table_starts(patterns: &Vec<Pattern>) -> (v: Vec<u32>)
    requires
        library_wf(patterns@),
        patterns@.len() <= 256,
    ensures
        v@.len() == patterns@.len() + 1,
        forall|k: int| 0 <= k <= patterns@.len() ==> #[trigger] v@[k] == table_start(patterns@, k),
{
    let mut v: Vec<u32> = Vec::new();
    let mut off: u32 = 0;
    let mut k: usize = 0;
    v.push(0);
    while k < patterns.len()
        invariant
            library_wf(patterns@),
            patterns@.len() <= 256,
            k <= patterns@.len(),
            v@.len() == k + 1,
            off == table_start(patterns@, k as int),
            forall|j: int| 0 <= j <= k ==> #[trigger] v@[j] == table_start(patterns@, j),
        decreases patterns@.len() - k,
    {
        assert(patterns@[k as int].wf());
        proof {
            lemma_table_start(patterns@, k as int, k + 1);
            lemma_pow3_mono(patterns@[k as int].size as nat, 10);
            lemma_pow3_values();
        }
        off = off + patterns[k].table_size() as u32;
        v.push(off);
        k = k + 1;
    }
    v
}

/// For each mask where its shape's table starts.
pub fn mask_starts(ix: &PatternIndexer) -> (v: Vec<u32>)
    requires
        ix.wf(),
    ensures
        v@.len() == ix.masks@.len(),
        forall|m: int|
            0 <= m < v@.len() ==> #[trigger] v@[m] == table_start(
                ix.patterns@,
                flat_owners(ix.patterns@)[m],
            ),
{
    let starts: Vec<u32> = table_starts(&ix.patterns);
    let mut v: Vec<u32> = Vec::new();
    let mut m: usize = 0;
    while m < ix.mask_pattern.len()
        invariant
            ix.wf(),
            starts@.len() == ix.patterns@.len() + 1,
            forall|k: int|
                0 <= k <= ix.patterns@.len() ==> #[trigger] starts@[k] == table_start(
                    ix.patterns@,
                    k,
                ),
            m <= ix.mask_pattern@.len(),
            v@.len() == m,
            forall|j: int|
                0 <= j < m ==> #[trigger] v@[j] == table_start(
                    ix.patterns@,
                    flat_owners(ix.patterns@)[j],
                ),
        decreases ix.mask_pattern@.len() - m,
    {
        proof {
            lemma_shape_of_mask(ix.patterns@, m as int);
            assert(ix.mask_pattern@[m as int] == flat_owners(ix.patterns@)[m as int]);
        }
        v.push(starts[ix.mask_pattern[m] as usize]);
        m = m + 1;
    }
    v
}

/// For each row the row that White reads there.
pub fn other_rows(patterns: &Vec<Pattern>) -> (v: Vec<u32>)
    requires
        library_wf(patterns@),
        patterns@.len() <= 256,
    ensures
        v@.len() == row_count(patterns@),
        forall|r: int|
            0 <= r < v@.len() ==> #[trigger] v@[r] == other_row(
                patterns@,
                patterns@.len() as int,
                r,
            ),
{
    let mut v: Vec<u32> = Vec::new();
    let mut k: usize = 0;
    while k < patterns.len()
        invariant
            library_wf(patterns@),
            patterns@.len() <= 256,
            k <= patterns@.len(),
            v@.len() == table_start(patterns@, k as int),
            forall|r: int|
                0 <= r < v@.len() ==> #[trigger] v@[r] == other_row(
                    patterns@,
                    patterns@.len() as int,
                    r,
                ),
        decreases patterns@.len() - k,
    {
        assert(patterns@[k as int].wf());
        let size: usize = patterns[k].size;
        let rows: usize = patterns[k].table_size();
        let start: usize = v.len();
        let mut i: usize = 0;
        proof {
            lemma_table_start(patterns@, k as int, k as int);
            lemma_pow3_mono(size as nat, 10);
            lemma_pow3_values();
        }
        while i < rows
            invariant
                library_wf(patterns@),
                k < patterns@.len() <= 256,
                size == patterns@[k as int].size <= 10,
                rows == pow3(size as nat) <= 59049,
                start == table_start(patterns@, k as int) <= 59049 * k,
                i <= rows,
                v@.len() == start + i,
                forall|r: int|
                    0 <= r < v@.len() ==> #[trigger] v@[r] == other_row(
                        patterns@,
                        patterns@.len() as int,
                        r,
                    ),
            decreases rows - i,
        {
            proof {
                lemma_other_row(patterns@, patterns@.len() as int, k as int, i as int);
            }
            let e: u32 = crate::pattern_index::exchanged(i as u32, size);
            v.push(start as u32 + e);
            i = i + 1;
        }
        k = k + 1;
    }
    v
}

/// Row `row` of several copies of the tables, as White reads them.
pub open spec fn copied_other_row(patterns: Seq<Pattern>, row: int) -> int {
    let n = row_count(patterns);
    row / n * n + other_row(patterns, patterns.len() as int, row % n)
}

/// `white` shows in each row what `black` shows in White's row. Rows are
/// `width` wide.
pub open spec fn is_other_view<T>(
    patterns: Seq<Pattern>,
    black: Seq<T>,
    white: Seq<T>,
    rows: int,
    width: int,
) -> bool {
    &&& black.len() == rows * width
    &&& white.len() == rows * width
    &&& forall|row: int, h: int|
        0 <= row < rows && 0 <= h < width ==> #[trigger] white[row * width + h]
            == black[copied_other_row(patterns, row) * width + h]
}

proof fn lemma_cell(row: int, rows: int, width: int, h: int)
    requires
        0 <= row < rows,
        0 <= h < width,
    ensures
        0 <= row * width + h < rows * width,
        row * width + width == (row + 1) * width,
{
    assert(row * width + width == (row + 1) * width) by (nonlinear_arith);
    assert((row + 1) * width <= rows * width) by (nonlinear_arith)
        requires
            row + 1 <= rows,
            0 < width,
    ;
    assert(0 <= row * width) by (nonlinear_arith)
        requires
            0 <= row,
            0 < width,
    ;
}

/// White's row of a copy stays in the copy.
pub proof fn lemma_copied_other_row(patterns: Seq<Pattern>, row: int, copies: int)
    requires
        library_wf(patterns),
        0 < row_count(patterns),
        0 <= row < copies * row_count(patterns),
    ensures
        0 <= copied_other_row(patterns, row) < copies * row_count(patterns),
        0 <= row / row_count(patterns) < copies,
{
    let n = row_count(patterns);
    let q = row / n;
    let r = row % n;
    lemma_other_row_bound(patterns, patterns.len() as int, r);
    assert(row == q * n + r && 0 <= r < n && 0 <= q) by (nonlinear_arith)
        requires
            0 <= row,
            0 < n,
            q == row / n,
            r == row % n,
    ;
    assert(q < copies) by (nonlinear_arith)
        requires
            q * n + r < copies * n,
            0 <= r,
            0 < n,
    ;
    assert(q * n + n <= copies * n) by (nonlinear_arith)
        requires
            q + 1 <= copies,
            0 < n,
    ;
    assert(0 <= q * n) by (nonlinear_arith)
        requires
            0 <= q,
            0 < n,
    ;
}

/// The tables as White reads them.
pub fn other_view<T: Copy>(patterns: &Vec<Pattern>, black: &Vec<T>, copies: usize, width: usize) -> (
white: Vec<T>)
    requires
        library_wf(patterns@),
        patterns@.len() <= 256,
        0 < width,
        0 < row_count(patterns@),
        copies * row_count(patterns@) <= usize::MAX,
        black@.len() == copies * row_count(patterns@) * width,
    ensures
        is_other_view(patterns@, black@, white@, copies * row_count(patterns@), width as int),
{
    let perm: Vec<u32> = other_rows(patterns);
    let n: usize = perm.len();
    let total: usize = black.len();
    let ghost rows = copies * row_count(patterns@);
    let mut white: Vec<T> = Vec::new();
    let mut row: usize = 0;
    let rows_exec: usize = copies * n;
    assert(0 * (width as int) == 0) by (nonlinear_arith);
    while row < rows_exec
        invariant
            library_wf(patterns@),
            n == row_count(patterns@),
            0 < n,
            0 < width,
            perm@.len() == n,
            forall|r: int|
                0 <= r < perm@.len() ==> #[trigger] perm@[r] == other_row(
                    patterns@,
                    patterns@.len() as int,
                    r,
                ),
            rows == copies * row_count(patterns@),
            rows_exec == rows,
            total == black@.len() == rows * width,
            row <= rows,
            white@.len() == row * width,
            forall|q: int, h: int|
                0 <= q < row && 0 <= h < width ==> #[trigger] white@[q * width + h]
                    == black@[copied_other_row(patterns@, q) * width + h],
        decreases rows_exec - row,
    {
        let q: usize = row / n;
        let r: usize = row % n;
        let ghost src = copied_other_row(patterns@, row as int);
        proof {
            lemma_copied_other_row(patterns@, row as int, copies as int);
            lemma_cell(src, rows, width as int, 0);
            lemma_cell(row as int, rows, width as int, 0);
            lemma_other_row_bound(patterns@, patterns@.len() as int, r as int);
            assert(q * n <= row) by (nonlinear_arith)
                requires
                    q == row / n,
                    0 < n,
            ;
            assert(src <= total) by (nonlinear_arith)
                requires
                    0 <= src,
                    src < rows,
                    total == rows * width,
                    0 < width,
            ;
        }
        let base: usize = (q * n + perm[r] as usize) * width;
        let mut h: usize = 0;
        while h < width
            invariant
                0 < width,
                rows == copies * row_count(patterns@),
                total == black@.len() == rows * width,
                0 <= row < rows,
                0 <= src < rows,
                src == copied_other_row(patterns@, row as int),
                base == src * width,
                h <= width,
                white@.len() == row * width + h,
                forall|q: int, g: int|
                    0 <= q < row && 0 <= g < width ==> #[trigger] white@[q * width + g]
                        == black@[copied_other_row(patterns@, q) * width + g],
                forall|g: int|
                    0 <= g < h ==> #[trigger] white@[row * width + g] == black@[src * width + g],
            decreases width - h,
        {
            proof {
                lemma_cell(src, rows, width as int, h as int);
                lemma_cell(row as int, rows, width as int, h as int);
            }
            let ghost before = white@;
            white.push(black[base + h]);
            proof {
                assert forall|q: int, g: int| 0 <= q < row && 0 <= g < width implies
                    #[trigger] white@[q * width + g] == black@[copied_other_row(patterns@, q)
                    * width + g] by {
                    lemma_cell(q, row as int, width as int, g);
                    assert(white@[q * width + g] == before[q * width + g]);
                }
            }
            h = h + 1;
        }
        proof {
            assert forall|p: int, g: int| 0 <= p < row + 1 && 0 <= g < width implies
                #[trigger] white@[p * width + g] == black@[copied_other_row(patterns@, p) * width
                + g] by {
                if p == row {
                    assert(white@[row * width + g] == black@[src * width + g]);
                }
            }
            lemma_cell(row as int, rows, width as int, 0);
        }
        row = row + 1;
    }
    white
}

} // verus!
