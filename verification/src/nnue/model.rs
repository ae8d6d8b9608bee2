//! The trained network: its weights, each held as the bits of a 32-bit
//! floating-point number, and the files that hold them.

use vstd::prelude::*;

use crate::bytes::{lemma_pow256_values, push_word, read_word, word};
use crate::color::Color;
use crate::evaluator::{STAGE_COUNT, lemma_kept};
use crate::layout::row_count;
use crate::pattern::Pattern;
use crate::pattern_index::{MAX_MASKS, PatternIndices, indexable, wrapped};
use crate::position::Position;
use super::quantized::{HALF, MLP_H1};
use super::{FT_BUCKETS, Features, H, MOB_BUCKETS, NUM_TABLE_SIZE};

verus! {

/// Outputs of the head's second layer.
pub const MLP_H2: usize = 16;

/// How many tables there are.
pub const TABLES: usize = 12;

/// The tables, in the order in which a file holds them: feature rows, their
/// biases by stage, read-out weights and biases by stage, the table by disc
/// count, the product gate, the table by mobility, and the head.
pub const FT: usize = 0;

pub const FT_BIAS: usize = 1;

pub const OUT_W: usize = 2;

pub const OUT_B: usize = 3;

pub const NUM_W: usize = 4;

pub const PW: usize = 5;

pub const MOB_W: usize = 6;

pub const MLP_L1_W: usize = 7;

pub const MLP_L1_B: usize = 8;

pub const MLP_L2_W: usize = 9;

pub const MLP_L2_B: usize = 10;

pub const MLP_OUT_W: usize = 11;

/// The first bytes of a file, but for the digit of its format.
pub const NNUE_MAGIC: [u8; 7] = [66, 66, 82, 86, 78, 78, 48];

/// How many weights a table has.
pub open spec fn table_size(rows: int, k: int) -> int {
    if k == FT {
        FT_BUCKETS * rows * H
    } else if k == FT_BIAS || k == OUT_W {
        STAGE_COUNT * H
    } else if k == OUT_B {
        STAGE_COUNT as int
    } else if k == NUM_W {
        STAGE_COUNT * NUM_TABLE_SIZE
    } else if k == PW {
        STAGE_COUNT * HALF
    } else if k == MOB_W {
        STAGE_COUNT * MOB_BUCKETS
    } else if k == MLP_L1_W {
        MLP_H1 * H
    } else if k == MLP_L1_B {
        MLP_H1 as int
    } else if k == MLP_L2_W {
        MLP_H2 * MLP_H1
    } else if k == MLP_L2_B {
        MLP_H2 as int
    } else {
        STAGE_COUNT * MLP_H2
    }
}

/// How many weights a table has.
fn size_of_table(rows: usize, k: usize) -> (n: usize)
    requires
        rows <= 59049 * 256,
        k < TABLES,
    ensures
        n == table_size(rows as int, k as int),
        n <= 483_729_408,
{
    if k == FT {
        FT_BUCKETS * rows * H
    } else if k == FT_BIAS || k == OUT_W {
        STAGE_COUNT * H
    } else if k == OUT_B {
        STAGE_COUNT
    } else if k == NUM_W {
        STAGE_COUNT * NUM_TABLE_SIZE
    } else if k == PW {
        STAGE_COUNT * HALF
    } else if k == MOB_W {
        STAGE_COUNT * MOB_BUCKETS
    } else if k == MLP_L1_W {
        MLP_H1 * H
    } else if k == MLP_L1_B {
        MLP_H1
    } else if k == MLP_L2_W {
        MLP_H2 * MLP_H1
    } else if k == MLP_L2_B {
        MLP_H2
    } else {
        STAGE_COUNT * MLP_H2
    }
}

/// The first `n` tables, one behind the other.
pub open spec fn flat(tables: Seq<Vec<u32>>, n: int) -> Seq<u32>
    decreases n,
{
    if n <= 0 {
        Seq::empty()
    } else {
        flat(tables, n - 1) + tables[n - 1]@
    }
}

/// How many weights the first `k` tables have.
pub open spec fn flat_start(rows: int, k: int) -> int
    decreases k,
{
    if k <= 0 {
        0
    } else {
        flat_start(rows, k - 1) + table_size(rows, k - 1)
    }
}

/// A file of the given format holds the table.
pub open spec fn present(format: int, k: int) -> bool {
    if k == NUM_W {
        format >= 2
    } else if k == PW {
        format >= 4
    } else if k == MOB_W {
        format >= 5
    } else if k >= MLP_L1_W {
        format >= 6
    } else {
        true
    }
}

/// The biases of the file hold for all stages.
pub open spec fn shared_bias(format: int) -> bool {
    format <= 2
}

/// How many words of a file belong to the table.
pub open spec fn words_of(format: int, rows: int, k: int) -> int {
    if !present(format, k) {
        0
    } else if k == FT_BIAS && shared_bias(format) {
        H as int
    } else {
        table_size(rows, k)
    }
}

/// Where the words of a table start in a file.
pub open spec fn file_start(format: int, rows: int, k: int) -> int
    decreases k,
{
    if k <= 0 {
        20
    } else {
        file_start(format, rows, k - 1) + 4 * words_of(format, rows, k - 1)
    }
}

/// The table is set to zero before a file's words for it are read, once the
/// words of the tables before the named one are.
pub open spec fn zeroed_at(k: int) -> Option<int> {
    if k == NUM_W || k == PW || k == MOB_W {
        Some(k)
    } else if k == MLP_OUT_W {
        Some(MLP_L1_W as int)
    } else {
        None
    }
}

/// Entry `i` of table `k` after a file of the given format has been read, when
/// it was `before`.
pub open spec fn loaded_entry(
    bytes: Seq<u8>,
    format: int,
    rows: int,
    k: int,
    i: int,
    before: u32,
) -> int {
    let at = file_start(format, rows, k);
    let kept = match zeroed_at(k) {
        Some(j) => if bytes.len() >= file_start(format, rows, j) {
            0
        } else {
            before as int
        },
        None => before as int,
    };
    if !present(format, k) {
        kept
    } else if k == FT_BIAS && shared_bias(format) {
        if bytes.len() >= at + 4 * H {
            word(bytes, at + 4 * (i % (H as int)), 4) as int
        } else {
            kept
        }
    } else if bytes.len() >= at + 4 * i + 4 {
        word(bytes, at + 4 * i, 4) as int
    } else {
        kept
    }
}

/// Why a file was refused.
#[derive(Clone, Copy, Debug, PartialEq, Eq, Structural)]
pub enum NnueError {
    Truncated,
    BadMagic,
    Width,
    Features,
}

impl NnueError {
    /// The error in words.
    pub open spec fn words(self) -> Seq<char> {
        match self {
            NnueError::Truncated => "failed to fill whole buffer"@,
            NnueError::BadMagic => "bad nnue magic"@,
            NnueError::Width => "H mismatch"@,
            NnueError::Features => "n_features mismatch"@,
        }
    }

    /// The error in words.
    pub fn message(self) -> (s: &'static str)
        ensures
            s@ == self.words(),
    {
        match self {
            NnueError::Truncated => "failed to fill whole buffer",
            NnueError::BadMagic => "bad nnue magic",
            NnueError::Width => "H mismatch",
            NnueError::Features => "n_features mismatch",
        }
    }
}

/// The bytes start with the mark of a network file.
pub open spec fn has_magic(bytes: Seq<u8>) -> bool {
    &&& bytes.len() >= 8
    &&& bytes.take(7) == NNUE_MAGIC@
    &&& 49 <= bytes[7] <= 54
}

/// The format that the bytes name.
pub open spec fn format_of(bytes: Seq<u8>) -> int {
    bytes[7] - 48
}

/// What is wrong with the head of a file, the first fault first.
pub open spec fn head_fault(bytes: Seq<u8>, rows: int) -> Option<NnueError> {
    if bytes.len() < 8 {
        Some(NnueError::Truncated)
    } else if !has_magic(bytes) {
        Some(NnueError::BadMagic)
    } else if bytes.len() < 12 {
        Some(NnueError::Truncated)
    } else if word(bytes, 8, 4) != H {
        Some(NnueError::Width)
    } else if bytes.len() < 16 {
        Some(NnueError::Truncated)
    } else if word(bytes, 12, 4) != FT_BUCKETS * rows {
        Some(NnueError::Features)
    } else if bytes.len() < 20 {
        Some(NnueError::Truncated)
    } else {
        None
    }
}

/// The weights of a network over a library of shapes.
#[derive(Debug)]
pub struct Nnue {
    pub features: Features,
    pub tables: Vec<Vec<u32>>,
}

/// The offsets of the tables fit a machine word.
proof fn lemma_starts(format: int, rows: int, k: int)
    requires
        0 <= rows <= 59049 * 256,
        0 <= k <= TABLES,
    ensures
        0 <= flat_start(rows, k) <= 483_729_408 + k * 8192,
        20 <= file_start(format, rows, k) <= 20 + 4 * flat_start(rows, k),
        k > 0 ==> flat_start(rows, k - 1) <= flat_start(rows, k) && file_start(
            format,
            rows,
            k - 1,
        ) <= file_start(format, rows, k),
    decreases k,
{
    if k > 1 {
        lemma_starts(format, rows, k - 1);
    } else if k == 1 {
        assert(flat_start(rows, 0) == 0);
        assert(file_start(format, rows, 0) == 20);
    }
}

/// Where an entry stands among all weights.
proof fn lemma_flat(tables: Seq<Vec<u32>>, rows: int, n: int, k: int, i: int)
    requires
        0 <= k < n <= tables.len(),
        tables.len() <= TABLES,
        0 <= rows <= 59049 * 256,
        forall|j: int|
            0 <= j < tables.len() ==> (#[trigger] tables[j])@.len() == table_size(rows, j),
        0 <= i < table_size(rows, k),
    ensures
        flat(tables, n).len() == flat_start(rows, n),
        flat(tables, n)[flat_start(rows, k) + i] == tables[k]@[i],
        0 <= flat_start(rows, k) + i < flat_start(rows, n),
    decreases n,
{
    lemma_flat_len(tables, rows, n);
    lemma_flat_len(tables, rows, n - 1);
    lemma_starts(6, rows, n);
    lemma_starts(6, rows, k);
    assert(tables[n - 1]@.len() == table_size(rows, n - 1));
    if k < n - 1 {
        lemma_flat(tables, rows, n - 1, k, i);
    }
}

proof fn lemma_flat_len(tables: Seq<Vec<u32>>, rows: int, n: int)
    requires
        0 <= n <= tables.len(),
        forall|j: int|
            0 <= j < tables.len() ==> (#[trigger] tables[j])@.len() == table_size(rows, j),
    ensures
        flat(tables, n).len() == flat_start(rows, n),
    decreases n,
{
    if n > 0 {
        lemma_flat_len(tables, rows, n - 1);
        assert(tables[n - 1]@.len() == table_size(rows, n - 1));
    }
}

/// A number repeated.
fn filled(x: u32, n: usize) -> (v: Vec<u32>)
    ensures
        v@.len() == n,
        forall|i: int| 0 <= i < n ==> #[trigger] v@[i] == x,
{
    let mut v: Vec<u32> = Vec::new();
    while v.len() < n
        invariant
            v@.len() <= n,
            forall|i: int| 0 <= i < v@.len() ==> #[trigger] v@[i] == x,
        decreases n - v@.len(),
    {
        v.push(x);
    }
    v
}

/// A copy of the numbers from `at` on.
fn part(v: &Vec<u32>, at: usize, n: usize) -> (c: Vec<u32>)
    requires
        at + n <= v@.len(),
    ensures
        c@ == v@.subrange(at as int, at + n),
{
    let len: usize = v.len();
    let mut c: Vec<u32> = Vec::new();
    let mut i: usize = 0;
    while i < n
        invariant
            len == v@.len(),
            at + n <= len,
            i <= n,
            c@ == v@.subrange(at as int, at + i),
        decreases n - i,
    {
        c.push(v[at + i]);
        i = i + 1;
        assert(c@ =~= v@.subrange(at as int, at + i));
    }
    c
}

impl Nnue {
    /// Every table has its size.
    pub open spec fn wf(self) -> bool {
        &&& self.features.wf()
        &&& self.tables@.len() == TABLES
        &&& forall|k: int|
            0 <= k < TABLES ==> (#[trigger] self.tables@[k])@.len() == table_size(
                self.features.rows as int,
                k,
            )
    }

    /// All weights, in the order in which a file holds them.
    pub open spec fn weights(self) -> Seq<u32> {
        flat(self.tables@, TABLES as int)
    }

    /// A network whose weights are all zero.
    pub fn new(patterns: Vec<Pattern>) -> (n: Nnue)
        requires
            indexable(patterns@),
            patterns@.len() > 0,
        ensures
            n.wf(),
            n.features.indexer.patterns == patterns,
            forall|k: int, i: int|
                0 <= k < TABLES && 0 <= i < table_size(row_count(patterns@), k)
                    ==> #[trigger] n.tables@[k]@[i] == 0,
    {
        let features: Features = Features::new(patterns);
        let mut tables: Vec<Vec<u32>> = Vec::new();
        let mut k: usize = 0;
        while k < TABLES
            invariant
                features.wf(),
                k <= TABLES,
                tables@.len() == k,
                forall|j: int|
                    0 <= j < k ==> (#[trigger] tables@[j])@.len() == table_size(
                        features.rows as int,
                        j,
                    ),
                forall|j: int, i: int|
                    0 <= j < k && 0 <= i < table_size(features.rows as int, j)
                        ==> #[trigger] tables@[j]@[i] == 0,
            decreases TABLES - k,
        {
            tables.push(filled(0, size_of_table(features.rows, k)));
            k = k + 1;
        }
        Nnue { features, tables }
    }

    /// The indices after `mover` has placed a disc on `pos` and turned `flipped`.
    pub fn ix_apply(&self, ix: &mut PatternIndices, pos: Position, flipped: u64, mover: Color)
        requires
            self.wf(),
            pos.wf(),
        ensures
            forall|m: int|
                0 <= m < self.features.indexer.masks@.len() ==> #[trigger] final(ix).idx@[m]
                    == wrapped(
                    old(ix).idx@[m] as int,
                    self.features.indexer.change(m, pos, flipped, mover),
                ),
            forall|m: int|
                self.features.indexer.masks@.len() <= m < MAX_MASKS ==> #[trigger] final(ix).idx@[m]
                    == old(ix).idx@[m],
    {
        self.features.indexer.apply(ix, pos, flipped, mover);
    }

    /// The indices before `mover` placed a disc on `pos` and turned `flipped`.
    pub fn ix_undo(&self, ix: &mut PatternIndices, pos: Position, flipped: u64, mover: Color)
        requires
            self.wf(),
            pos.wf(),
        ensures
            forall|m: int|
                0 <= m < self.features.indexer.masks@.len() ==> #[trigger] final(ix).idx@[m]
                    == wrapped(
                    old(ix).idx@[m] as int,
                    -self.features.indexer.change(m, pos, flipped, mover),
                ),
            forall|m: int|
                self.features.indexer.masks@.len() <= m < MAX_MASKS ==> #[trigger] final(ix).idx@[m]
                    == old(ix).idx@[m],
    {
        self.features.indexer.undo(ix, pos, flipped, mover);
    }

    /// How many feature rows there are.
    pub fn n_features(&self) -> (n: usize)
        requires
            self.wf(),
        ensures
            n == FT_BUCKETS * self.features.rows,
    {
        FT_BUCKETS * self.features.rows
    }

    /// How many weights the feature rows have.
    pub fn ft_len(&self) -> (n: usize)
        requires
            self.wf(),
        ensures
            n == table_size(self.features.rows as int, FT as int),
    {
        self.tables[FT].len()
    }

    /// How many weights the table by disc count has.
    pub fn num_w_len(&self) -> (n: usize)
        requires
            self.wf(),
        ensures
            n == STAGE_COUNT * NUM_TABLE_SIZE,
    {
        self.tables[NUM_W].len()
    }

    /// All weights, in the order in which a file holds them.
    pub fn weights_flat(&self) -> (v: Vec<u32>)
        requires
            self.wf(),
        ensures
            v@ == self.weights(),
    {
        let mut v: Vec<u32> = Vec::new();
        let mut k: usize = 0;
        while k < TABLES
            invariant
                self.wf(),
                k <= TABLES,
                v@ == flat(self.tables@, k as int),
            decreases TABLES - k,
        {
            let t: &Vec<u32> = &self.tables[k];
            let ghost before = v@;
            let mut i: usize = 0;
            while i < t.len()
                invariant
                    i <= t@.len(),
                    v@ == before + t@.take(i as int),
                decreases t@.len() - i,
            {
                v.push(t[i]);
                i = i + 1;
                assert(v@ =~= before + t@.take(i as int));
            }
            assert(t@.take(i as int) =~= t@);
            k = k + 1;
        }
        v
    }

    /// Take all weights, in the order in which a file holds them.
    pub fn set_weights_flat(&mut self, v: &Vec<u32>)
        requires
            old(self).wf(),
            v@.len() == flat_start(old(self).features.rows as int, TABLES as int),
        ensures
            final(self).wf(),
            final(self).features == old(self).features,
            final(self).weights() == v@,
    {
        let rows: usize = self.features.rows;
        let len: usize = v.len();
        let mut tables: Vec<Vec<u32>> = Vec::new();
        let mut at: usize = 0;
        let mut k: usize = 0;
        assert(v@.take(0) =~= Seq::<u32>::empty());
        while k < TABLES
            invariant
                rows <= 59049 * 256,
                len == v@.len(),
                len == flat_start(rows as int, TABLES as int),
                k <= TABLES,
                at == flat_start(rows as int, k as int),
                tables@.len() == k,
                forall|j: int|
                    0 <= j < k ==> (#[trigger] tables@[j])@.len() == table_size(rows as int, j),
                flat(tables@, k as int) == v@.take(at as int),
            decreases TABLES - k,
        {
            let n: usize = size_of_table(rows, k);
            proof {
                lemma_flat_order(rows as int, k + 1, TABLES as int);
            }
            let ghost before = tables@;
            let t: Vec<u32> = part(v, at, n);
            tables.push(t);
            proof {
                lemma_flat_same(before, tables@, k as int);
                assert(flat(tables@, k + 1) =~= v@.take(at + n));
            }
            at = at + n;
            k = k + 1;
        }
        assert(v@.take(at as int) =~= v@);
        self.tables = tables;
    }

    /// Replace one table.
    fn set_table(&mut self, k: usize, v: &Vec<u32>)
        requires
            old(self).wf(),
            k < TABLES,
            v@.len() == table_size(old(self).features.rows as int, k as int),
        ensures
            final(self).wf(),
            final(self).features == old(self).features,
            final(self).tables@[k as int]@ == v@,
            forall|j: int|
                0 <= j < TABLES && j != k ==> #[trigger] final(self).tables@[j] == old(
                    self,
                ).tables@[j],
    {
        let t: Vec<u32> = part(v, 0, v.len());
        assert(t@ =~= v@);
        self.tables.set(k, t);
    }

    /// Replace the table by disc count.
    pub fn set_num_w(&mut self, v: &Vec<u32>)
        requires
            old(self).wf(),
            v@.len() == table_size(old(self).features.rows as int, NUM_W as int),
        ensures
            final(self).wf(),
            final(self).features == old(self).features,
            final(self).tables@[NUM_W as int]@ == v@,
            forall|j: int|
                0 <= j < TABLES && j != NUM_W ==> #[trigger] final(self).tables@[j] == old(
                    self,
                ).tables@[j],
    {
        self.set_table(NUM_W, v);
    }

    /// Replace the table by mobility.
    pub fn set_mob_w(&mut self, v: &Vec<u32>)
        requires
            old(self).wf(),
            v@.len() == table_size(old(self).features.rows as int, MOB_W as int),
        ensures
            final(self).wf(),
            final(self).features == old(self).features,
            final(self).tables@[MOB_W as int]@ == v@,
            forall|j: int|
                0 <= j < TABLES && j != MOB_W ==> #[trigger] final(self).tables@[j] == old(
                    self,
                ).tables@[j],
    {
        self.set_table(MOB_W, v);
    }

    /// Replace the weights of the product gate.
    pub fn set_pw(&mut self, v: &Vec<u32>)
        requires
            old(self).wf(),
            v@.len() == table_size(old(self).features.rows as int, PW as int),
        ensures
            final(self).wf(),
            final(self).features == old(self).features,
            final(self).tables@[PW as int]@ == v@,
            forall|j: int|
                0 <= j < TABLES && j != PW ==> #[trigger] final(self).tables@[j] == old(
                    self,
                ).tables@[j],
    {
        self.set_table(PW, v);
    }

    /// Replace the head.
    pub fn set_mlp(
        &mut self,
        l1_w: &Vec<u32>,
        l1_b: &Vec<u32>,
        l2_w: &Vec<u32>,
        l2_b: &Vec<u32>,
        out_w: &Vec<u32>,
    )
        requires
            old(self).wf(),
            l1_w@.len() == MLP_H1 * H,
            l1_b@.len() == MLP_H1,
            l2_w@.len() == MLP_H2 * MLP_H1,
            l2_b@.len() == MLP_H2,
            out_w@.len() == STAGE_COUNT * MLP_H2,
        ensures
            final(self).wf(),
            final(self).features == old(self).features,
            final(self).tables@[MLP_L1_W as int]@ == l1_w@,
            final(self).tables@[MLP_L1_B as int]@ == l1_b@,
            final(self).tables@[MLP_L2_W as int]@ == l2_w@,
            final(self).tables@[MLP_L2_B as int]@ == l2_b@,
            final(self).tables@[MLP_OUT_W as int]@ == out_w@,
            forall|j: int|
                0 <= j < MLP_L1_W ==> #[trigger] final(self).tables@[j] == old(self).tables@[j],
    {
        self.set_table(MLP_L1_W, l1_w);
        self.set_table(MLP_L1_B, l1_b);
        self.set_table(MLP_L2_W, l2_w);
        self.set_table(MLP_L2_B, l2_b);
        self.set_table(MLP_OUT_W, out_w);
    }

    /// Replace the tables of a network without a product gate, which goes to
    /// zero: its pairs of lanes depend on the width.
    pub fn set_all_weights(
        &mut self,
        ft: &Vec<u32>,
        ft_bias: &Vec<u32>,
        out_w: &Vec<u32>,
        out_b: &Vec<u32>,
        num_w: &Vec<u32>,
    )
        requires
            old(self).wf(),
            ft@.len() == table_size(old(self).features.rows as int, FT as int),
            ft_bias@.len() == STAGE_COUNT * H,
            out_w@.len() == STAGE_COUNT * H,
            out_b@.len() == STAGE_COUNT,
            num_w@.len() == STAGE_COUNT * NUM_TABLE_SIZE,
        ensures
            final(self).wf(),
            final(self).features == old(self).features,
            final(self).tables@[FT as int]@ == ft@,
            final(self).tables@[FT_BIAS as int]@ == ft_bias@,
            final(self).tables@[OUT_W as int]@ == out_w@,
            final(self).tables@[OUT_B as int]@ == out_b@,
            final(self).tables@[NUM_W as int]@ == num_w@,
            forall|i: int|
                0 <= i < STAGE_COUNT * HALF ==> #[trigger] final(self).tables@[PW as int]@[i] == 0,
            forall|j: int|
                MOB_W <= j < TABLES ==> #[trigger] final(self).tables@[j] == old(self).tables@[j],
    {
        self.set_table(FT, ft);
        self.set_table(FT_BIAS, ft_bias);
        self.set_table(OUT_W, out_w);
        self.set_table(OUT_B, out_b);
        self.set_table(NUM_W, num_w);
        let zero: Vec<u32> = filled(0, STAGE_COUNT * HALF);
        self.set_table(PW, &zero);
    }

    /// Copies of the feature rows, their biases, the read-out's weights and
    /// biases, and the table by disc count.
    pub fn export_f32(&self) -> (r: (Vec<u32>, Vec<u32>, Vec<u32>, Vec<u32>, Vec<u32>))
        requires
            self.wf(),
        ensures
            r.0@ == self.tables@[FT as int]@,
            r.1@ == self.tables@[FT_BIAS as int]@,
            r.2@ == self.tables@[OUT_W as int]@,
            r.3@ == self.tables@[OUT_B as int]@,
            r.4@ == self.tables@[NUM_W as int]@,
    {
        let a: Vec<u32> = part(&self.tables[FT], 0, self.tables[FT].len());
        let b: Vec<u32> = part(&self.tables[FT_BIAS], 0, self.tables[FT_BIAS].len());
        let c: Vec<u32> = part(&self.tables[OUT_W], 0, self.tables[OUT_W].len());
        let d: Vec<u32> = part(&self.tables[OUT_B], 0, self.tables[OUT_B].len());
        let e: Vec<u32> = part(&self.tables[NUM_W], 0, self.tables[NUM_W].len());
        assert(a@ =~= self.tables@[FT as int]@);
        assert(b@ =~= self.tables@[FT_BIAS as int]@);
        assert(c@ =~= self.tables@[OUT_W as int]@);
        assert(d@ =~= self.tables@[OUT_B as int]@);
        assert(e@ =~= self.tables@[NUM_W as int]@);
        (a, b, c, d, e)
    }

    /// Every number of the table is zero, with either sign.
    pub open spec fn all_zero(self, k: int) -> bool {
        forall|i: int|
            0 <= i < self.tables@[k]@.len() ==> #[trigger] self.tables@[k]@[i] == 0
                || self.tables@[k]@[i] == 0x8000_0000
    }

    fn is_all_zero(&self, k: usize) -> (z: bool)
        requires
            self.wf(),
            k < TABLES,
        ensures
            z == self.all_zero(k as int),
    {
        let t: &Vec<u32> = &self.tables[k];
        let mut i: usize = 0;
        while i < t.len()
            invariant
                k < self.tables@.len(),
                *t == self.tables@[k as int],
                i <= t@.len(),
                forall|j: int|
                    0 <= j < i ==> #[trigger] self.tables@[k as int]@[j] == 0
                        || self.tables@[k as int]@[j] == 0x8000_0000,
            decreases t@.len() - i,
        {
            if t[i] != 0 && t[i] != 0x8000_0000 {
                assert(!self.all_zero(k as int)) by {
                    assert(self.tables@[k as int]@[i as int] != 0);
                }
                return false;
            }
            i = i + 1;
        }
        true
    }

    /// The head cannot learn: one of its hidden layers is all zero.
    pub fn head_is_dead(&self) -> (dead: bool)
        requires
            self.wf(),
        ensures
            dead == (self.all_zero(MLP_L1_W as int) || self.all_zero(MLP_L2_W as int)),
    {
        self.is_all_zero(MLP_L1_W) || self.is_all_zero(MLP_L2_W)
    }

    /// The product gate carries weight.
    pub fn has_pw(&self) -> (on: bool)
        requires
            self.wf(),
        ensures
            on == !self.all_zero(PW as int),
    {
        !self.is_all_zero(PW)
    }

    /// The head carries weight.
    pub fn has_head(&self) -> (on: bool)
        requires
            self.wf(),
        ensures
            on == !self.all_zero(MLP_OUT_W as int),
    {
        !self.is_all_zero(MLP_OUT_W)
    }

    /// The file that holds the weights.
    pub fn save(&self) -> (bytes: Vec<u8>)
        requires
            self.wf(),
        ensures
            bytes@.len() == 20 + 4 * self.weights().len(),
            head_fault(bytes@, self.features.rows as int) is None,
            format_of(bytes@) == 6,
            word(bytes@, 16, 4) == STAGE_COUNT,
            forall|i: int|
                0 <= i < self.weights().len() ==> word(bytes@, 20 + 4 * i, 4)
                    == #[trigger] self.weights()[i],
    {
        let flat: Vec<u32> = self.weights_flat();
        let n: usize = flat.len();
        proof {
            lemma_pow256_values();
            lemma_flat_len(self.tables@, self.features.rows as int, TABLES as int);
            lemma_starts(6, self.features.rows as int, TABLES as int);
        }
        let mut v: Vec<u8> = Vec::new();
        let mut k: usize = 0;
        while k < 7
            invariant
                k <= 7,
                v@ == NNUE_MAGIC@.take(k as int),
            decreases 7 - k,
        {
            v.push(NNUE_MAGIC[k]);
            k = k + 1;
            assert(v@ =~= NNUE_MAGIC@.take(k as int));
        }
        assert(NNUE_MAGIC@.take(7) =~= NNUE_MAGIC@);
        v.push(54);
        let ghost s0 = v@;
        push_word(&mut v, H as u64, 4);
        let ghost s1 = v@;
        push_word(&mut v, (FT_BUCKETS * self.features.rows) as u64, 4);
        let ghost s2 = v@;
        push_word(&mut v, STAGE_COUNT as u64, 4);
        let ghost s3 = v@;
        proof {
            lemma_kept(s1, s2, 8, 4);
            assert(s3.take(s1.len() as int) =~= s3.take(s2.len() as int).take(s1.len() as int));
            lemma_kept(s1, s3, 8, 4);
            lemma_kept(s2, s3, 12, 4);
            assert(s1.take(8) =~= s0);
            assert(s3.take(8) =~= s3.take(s1.len() as int).take(8));
            assert(s3.take(7) =~= s3.take(8).take(7));
            assert(s0.take(7) =~= NNUE_MAGIC@);
            assert(s3[7] == s3.take(8)[7]);
        }
        let mut i: usize = 0;
        while i < n
            invariant
                n == flat@.len(),
                n <= 483_729_408 + 12 * 8192,
                i <= n,
                s3.len() == 20,
                v@.len() == 20 + 4 * i,
                v@.take(20) == s3,
                forall|j: int| 0 <= j < i ==> word(v@, 20 + 4 * j, 4) == #[trigger] flat@[j],
            decreases n - i,
        {
            let ghost before = v@;
            proof {
                lemma_pow256_values();
            }
            push_word(&mut v, flat[i] as u64, 4);
            proof {
                assert(v@.take(20) =~= v@.take(before.len() as int).take(20));
                assert forall|j: int| 0 <= j < i + 1 implies word(v@, 20 + 4 * j, 4)
                    == #[trigger] flat@[j] by {
                    if j < i {
                        lemma_kept(before, v@, 20 + 4 * j, 4);
                    }
                }
            }
            i = i + 1;
        }
        proof {
            lemma_kept(s3, v@, 8, 4);
            lemma_kept(s3, v@, 12, 4);
            lemma_kept(s3, v@, 16, 4);
            assert(v@.take(7) =~= v@.take(20).take(7));
            assert(v@[7] == v@.take(20)[7]);
        }
        v
    }

    /// Take the weights from a file of any format. Tables that the format does
    /// not have go to zero, but for the head's hidden layers, which stay; biases
    /// that hold for all stages are copied to each. A file that ends among the
    /// weights replaces those that are there; what follows the weights is not
    /// read.
    pub fn load(&mut self, bytes: &[u8]) -> (r: Result<(), NnueError>)
        requires
            old(self).wf(),
        ensures
            final(self).wf(),
            final(self).features == old(self).features,
            ({
                let rows = old(self).features.rows as int;
                match head_fault(bytes@, rows) {
                    Some(e) => r == Err::<(), NnueError>(e) && *final(self) == *old(self),
                    None => {
                        let format = format_of(bytes@);
                        &&& r == if bytes@.len() < file_start(format, rows, TABLES as int) {
                            Err::<(), NnueError>(NnueError::Truncated)
                        } else {
                            Ok::<(), NnueError>(())
                        }
                        &&& forall|k: int, i: int|
                            0 <= k < TABLES && 0 <= i < table_size(rows, k)
                                ==> #[trigger] final(self).tables@[k]@[i] == loaded_entry(
                                bytes@,
                                format,
                                rows,
                                k,
                                i,
                                old(self).tables@[k]@[i],
                            )
                    },
                }
            }),
    {
        let rows: usize = self.features.rows;
        let len: usize = bytes.len();
        match head_of(bytes, rows) {
            Some(e) => {
                return Err(e);
            },
            None => {},
        }
        let format: u8 = bytes[7] - 48;
        let ghost f = format as int;
        let mut tables: Vec<Vec<u32>> = Vec::new();
        let mut at: usize = 20;
        let mut head_at: usize = 20;
        let mut k: usize = 0;
        while k < TABLES
            invariant
                self.wf(),
                *self == *old(self),
                rows == self.features.rows,
                len == bytes@.len(),
                1 <= format <= 6,
                f == format,
                k <= TABLES,
                at == file_start(f, rows as int, k as int),
                k > MLP_L1_W ==> head_at == file_start(f, rows as int, MLP_L1_W as int),
                tables@.len() == k,
                forall|j: int|
                    0 <= j < k ==> (#[trigger] tables@[j])@.len() == table_size(rows as int, j),
                forall|j: int, i: int|
                    0 <= j < k && 0 <= i < table_size(rows as int, j)
                        ==> #[trigger] tables@[j]@[i] == loaded_entry(
                        bytes@,
                        f,
                        rows as int,
                        j,
                        i,
                        old(self).tables@[j]@[i],
                    ),
            decreases TABLES - k,
        {
            proof {
                lemma_starts(f, rows as int, k as int);
                lemma_starts(f, rows as int, k + 1);
            }
            if k == MLP_L1_W {
                head_at = at;
            }
            let n: usize = size_of_table(rows, k);
            let zero: bool = if k == NUM_W || k == PW || k == MOB_W {
                len >= at
            } else if k == MLP_OUT_W {
                len >= head_at
            } else {
                false
            };
            let there: bool = if k == NUM_W {
                format >= 2
            } else if k == PW {
                format >= 4
            } else if k == MOB_W {
                format >= 5
            } else if k >= MLP_L1_W {
                format >= 6
            } else {
                true
            };
            let shared: bool = k == FT_BIAS && format <= 2;
            let t: Vec<u32> = loaded_table(
                bytes,
                at,
                there,
                shared,
                zero,
                &self.tables[k],
                Ghost(f),
                Ghost(rows as int),
                Ghost(k as int),
            );
            tables.push(t);
            let words: usize = if !there {
                0
            } else if shared {
                H
            } else {
                n
            };
            at = at + 4 * words;
            k = k + 1;
        }
        let done: bool = len >= at;
        self.tables = tables;
        if done {
            Ok(())
        } else {
            Err(NnueError::Truncated)
        }
    }
}

/// One table after a file has been read.
fn loaded_table(
    bytes: &[u8],
    at: usize,
    there: bool,
    shared: bool,
    zero: bool,
    old_table: &Vec<u32>,
    Ghost(format): Ghost<int>,
    Ghost(rows): Ghost<int>,
    Ghost(k): Ghost<int>,
) -> (t: Vec<u32>)
    requires
        0 <= k < TABLES,
        0 <= rows <= 59049 * 256,
        at == file_start(format, rows, k),
        at <= 4_000_000_000,
        there == present(format, k),
        shared == (k == FT_BIAS && shared_bias(format)),
        zero == match zeroed_at(k) {
            Some(j) => bytes@.len() >= file_start(format, rows, j),
            None => false,
        },
        old_table@.len() == table_size(rows, k),
    ensures
        t@.len() == old_table@.len(),
        forall|i: int|
            0 <= i < t@.len() ==> #[trigger] t@[i] == loaded_entry(
                bytes@,
                format,
                rows,
                k,
                i,
                old_table@[i],
            ),
{
    let len: usize = bytes.len();
    let n: usize = old_table.len();
    let room: usize = if len >= at {
        len - at
    } else {
        0
    };
    let mut t: Vec<u32> = Vec::new();
    let mut i: usize = 0;
    while i < n
        invariant
            0 <= k < TABLES,
            len == bytes@.len(),
            n == old_table@.len(),
            at == file_start(format, rows, k),
            there == present(format, k),
            shared == (k == FT_BIAS && shared_bias(format)),
            zero == match zeroed_at(k) {
                Some(j) => bytes@.len() >= file_start(format, rows, j),
                None => false,
            },
            room == if len >= at {
                len - at
            } else {
                0
            },
            i <= n,
            t@.len() == i,
            forall|j: int|
                0 <= j < i ==> #[trigger] t@[j] == loaded_entry(
                    bytes@,
                    format,
                    rows,
                    k,
                    j,
                    old_table@[j],
                ),
        decreases n - i,
    {
        proof {
            lemma_pow256_values();
        }
        let kept: u32 = if zero {
            0
        } else {
            old_table[i]
        };
        let x: u32 = if !there {
            kept
        } else if shared {
            if room >= 4 * H {
                read_word(bytes, at + 4 * (i % H), 4) as u32
            } else {
                kept
            }
        } else if room / 4 > i {
            read_word(bytes, at + 4 * i, 4) as u32
        } else {
            kept
        };
        t.push(x);
        i = i + 1;
    }
    t
}

/// What is wrong with the head of a file.
fn head_of(bytes: &[u8], rows: usize) -> (r: Option<NnueError>)
    requires
        rows <= 59049 * 256,
    ensures
        r == head_fault(bytes@, rows as int),
{
    proof {
        lemma_pow256_values();
    }
    if bytes.len() < 8 {
        return Some(NnueError::Truncated);
    }
    let mut i: usize = 0;
    while i < 7
        invariant
            i <= 7,
            bytes@.len() >= 8,
            forall|j: int| 0 <= j < i ==> #[trigger] bytes@[j] == NNUE_MAGIC@[j],
        decreases 7 - i,
    {
        if bytes[i] != NNUE_MAGIC[i] {
            proof {
                assert(bytes@.take(7)[i as int] != NNUE_MAGIC@[i as int]);
            }
            return Some(NnueError::BadMagic);
        }
        i = i + 1;
    }
    assert(bytes@.take(7) =~= NNUE_MAGIC@);
    if bytes[7] < 49 || bytes[7] > 54 {
        return Some(NnueError::BadMagic);
    }
    if bytes.len() < 12 {
        return Some(NnueError::Truncated);
    }
    if read_word(bytes, 8, 4) != H as u64 {
        return Some(NnueError::Width);
    }
    if bytes.len() < 16 {
        return Some(NnueError::Truncated);
    }
    if read_word(bytes, 12, 4) != (FT_BUCKETS * rows) as u64 {
        return Some(NnueError::Features);
    }
    if bytes.len() < 20 {
        return Some(NnueError::Truncated);
    }
    None
}

proof fn lemma_flat_order(rows: int, j: int, k: int)
    requires
        0 <= rows <= 59049 * 256,
        0 <= j <= k <= TABLES,
    ensures
        flat_start(rows, j) <= flat_start(rows, k),
    decreases k,
{
    lemma_starts(6, rows, k);
    if j < k {
        lemma_flat_order(rows, j, k - 1);
    }
}

proof fn lemma_flat_same(a: Seq<Vec<u32>>, c: Seq<Vec<u32>>, n: int)
    requires
        0 <= n <= a.len(),
        n <= c.len(),
        forall|j: int| 0 <= j < n ==> #[trigger] a[j] == c[j],
    ensures
        flat(a, n) == flat(c, n),
    decreases n,
{
    if n > 0 {
        lemma_flat_same(a, c, n - 1);
        assert(a[n - 1] == c[n - 1]);
    }
}

/// In a file of the newest format each table follows the one before.
proof fn lemma_newest(rows: int, k: int)
    requires
        0 <= k <= TABLES,
    ensures
        file_start(6, rows, k) == 20 + 4 * flat_start(rows, k),
    decreases k,
{
    if k > 0 {
        lemma_newest(rows, k - 1);
    }
}

/// A network that takes the weights of another, laid end to end, has the same
/// tables.
pub proof fn law_flat_round_trip(a: Nnue, c: Nnue)
    requires
        a.wf(),
        c.wf(),
        a.features.rows == c.features.rows,
        a.weights() == c.weights(),
    ensures
        forall|k: int| 0 <= k < TABLES ==> (#[trigger] a.tables@[k])@ == c.tables@[k]@,
{
    let rows = a.features.rows as int;
    assert forall|k: int| 0 <= k < TABLES implies (#[trigger] a.tables@[k])@ == c.tables@[k]@ by {
        assert(c.tables@[k]@.len() == table_size(rows, k));
        assert forall|i: int| 0 <= i < a.tables@[k]@.len() implies a.tables@[k]@[i]
            == c.tables@[k]@[i] by {
            lemma_flat(a.tables@, rows, TABLES as int, k, i);
            lemma_flat(c.tables@, rows, TABLES as int, k, i);
        }
        assert(a.tables@[k]@ =~= c.tables@[k]@);
    }
}

/// What a file says of the weights is what was written: a file as `save`
/// promises it, read as `load` promises it, gives every weight back.
pub proof fn law_file_round_trip(saved: Nnue, bytes: Seq<u8>, k: int, i: int, before: u32)
    requires
        saved.wf(),
        bytes.len() == 20 + 4 * saved.weights().len(),
        forall|j: int|
            0 <= j < saved.weights().len() ==> word(bytes, 20 + 4 * j, 4)
                == #[trigger] saved.weights()[j],
        0 <= k < TABLES,
        0 <= i < table_size(saved.features.rows as int, k),
    ensures
        loaded_entry(bytes, 6, saved.features.rows as int, k, i, before) == saved.tables@[k]@[i],
        bytes.len() >= file_start(6, saved.features.rows as int, TABLES as int),
{
    let rows = saved.features.rows as int;
    lemma_newest(rows, k);
    lemma_newest(rows, TABLES as int);
    lemma_flat(saved.tables@, rows, TABLES as int, k, i);
    let j = flat_start(rows, k) + i;
    assert(saved.weights()[j] == saved.tables@[k]@[i]);
    assert(word(bytes, 20 + 4 * j, 4) == saved.weights()[j]);
}

} // verus!
