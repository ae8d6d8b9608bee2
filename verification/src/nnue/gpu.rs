//! Batches for training on a graphics device: which rows a batch touches, who
//! touches them, and the words that are handed over.

use vstd::prelude::*;

use crate::bytes::{lemma_pow256_values, push_word, word};
use crate::evaluator::lemma_kept;
use super::counting::{LineUp, count_of, is_line_up, keys_below, lemma_count, lemma_starts, lemma_taken, line_up, place, start_of};

verus! {

/// Examples that one group of threads sums.
pub const SEG: u32 = 256;

/// The row is one segment and needs no partial sum.
pub const NO_PART: u32 = 0xffff_ffff;

/// Groups of threads in one direction of a dispatch.
pub const MAX_WG: u32 = 65535;

/// Words of a parameter block.
pub const N_PARAMS: usize = 24;

/// How a number of groups is spread over two directions: as many as fit in the
/// first, and as many rows of these as are needed.
pub fn dispatch_dims(n_wg: usize) -> (r: (u32, u32))
    requires
        n_wg <= u32::MAX,
    ensures
        r.0 == if n_wg == 0 {
            1
        } else if n_wg <= MAX_WG {
            n_wg as int
        } else {
            MAX_WG as int
        },
        r.0 * r.1 >= n_wg,
        r.0 * (r.1 - 1) < n_wg || (n_wg == 0 && r.1 == 1),
{
    let n: u32 = if n_wg == 0 {
        1
    } else {
        n_wg as u32
    };
    if n <= MAX_WG {
        proof {
            assert(n * 1 == n && n * 0 == 0) by (nonlinear_arith);
        }
        (n, 1)
    } else {
        let y: u32 = (n - 1) / MAX_WG + 1;
        (MAX_WG, y)
    }
}

/// When the slow copy of the weights is taken and when it is folded in.
#[derive(Clone, Copy, Debug)]
pub struct Lookahead {
    /// Steps between two times; never, when zero.
    pub every: u32,
    pub step: u32,
    pub primed: bool,
}

impl Lookahead {
    /// A schedule before any step.
    pub fn new(every: u32) -> (l: Lookahead)
        ensures
            l.every == every,
            l.step == 0,
            !l.primed,
    {
        Lookahead { every, step: 0, primed: false }
    }

    /// Take a step: whether the slow copy is to be taken, and whether it is to
    /// be folded in. The first time only takes it.
    pub fn advance(&mut self) -> (r: (bool, bool))
        ensures
            final(self).every == old(self).every,
            old(self).every == 0 ==> *final(self) == *old(self) && r == (false, false),
            old(self).every > 0 ==> {
                let step = if old(self).step == u32::MAX {
                    0
                } else {
                    old(self).step + 1
                };
                let due = step % old(self).every as int == 0;
                &&& final(self).step == step
                &&& final(self).primed == (old(self).primed || due)
                &&& r.0 == (due && !old(self).primed)
                &&& r.1 == (due && old(self).primed)
            },
    {
        if self.every == 0 {
            return (false, false);
        }
        if self.step == u32::MAX {
            self.step = 0;
        } else {
            self.step = self.step + 1;
        }
        if self.step % self.every == 0 {
            let was: bool = self.primed;
            self.primed = true;
            (!was, was)
        } else {
            (false, false)
        }
    }
}

/// Lanes of the base layer.
pub const ACC_DIMS: usize = 256;

/// Lanes of the layer that depends on the part of the game.
pub const PA_DIMS: usize = 128;

/// Threads of a group.
pub const WG: usize = 256;

/// Examples whose bias gradients one group sums.
pub const CHUNK: usize = 256;

/// Where an example's record holds the gradients of its base lanes, and of the
/// lanes that depend on the part of the game.
pub const R_DRAW: u32 = 0;

pub const R_DPA: u32 = 256;

/// A parameter block. The numbers after `flags` are held as the bits of 32-bit
/// floating-point numbers.
#[derive(Clone, Copy, Debug, PartialEq, Eq, Structural)]
pub struct Params {
    pub n_ex: u32,
    pub n_masks: u32,
    pub nfb: u32,
    pub n_items: u32,
    pub width: u32,
    pub rec_off: u32,
    pub n_chunks: u32,
    pub n_a: u32,
    pub n_b: u32,
    pub n_c: u32,
    pub flags: u32,
    pub scale: u32,
    pub lr: u32,
    pub wd: u32,
    pub bc1: u32,
    pub bc2s: u32,
    pub alpha: u32,
    pub b1: u32,
    pub b2: u32,
    pub eps: u32,
}

impl Params {
    /// The words of the block, in their order.
    pub open spec fn words(self) -> Seq<u32> {
        seq![
            self.n_ex,
            self.n_masks,
            self.nfb,
            self.n_items,
            self.width,
            self.rec_off,
            self.n_chunks,
            self.n_a,
            self.n_b,
            self.n_c,
            self.flags,
            0u32,
            self.scale,
            self.lr,
            self.wd,
            self.bc1,
            self.bc2s,
            self.alpha,
            self.b1,
            self.b2,
            self.eps,
            0u32,
            0u32,
            0u32,
        ]
    }

    /// The bytes of the block: its words, the least significant byte first.
    pub fn bytes(&self) -> (v: Vec<u8>)
        ensures
            v@.len() == 4 * N_PARAMS,
            forall|i: int| 0 <= i < N_PARAMS ==> word(v@, 4 * i, 4) == #[trigger] self.words()[i],
    {
        let words: [u32; 24] = [
            self.n_ex,
            self.n_masks,
            self.nfb,
            self.n_items,
            self.width,
            self.rec_off,
            self.n_chunks,
            self.n_a,
            self.n_b,
            self.n_c,
            self.flags,
            0,
            self.scale,
            self.lr,
            self.wd,
            self.bc1,
            self.bc2s,
            self.alpha,
            self.b1,
            self.b2,
            self.eps,
            0,
            0,
            0,
        ];
        assert(words@ =~= self.words());
        let mut v: Vec<u8> = Vec::new();
        let mut i: usize = 0;
        while i < N_PARAMS
            invariant
                words@ == self.words(),
                i <= N_PARAMS,
                v@.len() == 4 * i,
                forall|j: int| 0 <= j < i ==> word(v@, 4 * j, 4) == #[trigger] self.words()[j],
            decreases N_PARAMS - i,
        {
            let ghost before = v@;
            proof {
                lemma_pow256_values();
            }
            push_word(&mut v, words[i] as u64, 4);
            proof {
                assert forall|j: int| 0 <= j < i + 1 implies word(v@, 4 * j, 4)
                    == #[trigger] self.words()[j] by {
                    if j < i {
                        lemma_kept(before, v@, 4 * j, 4);
                    }
                }
            }
            i = i + 1;
        }
        v
    }
}

/// A quotient rounded up.
pub open spec fn rounded_up(x: int, d: int) -> int {
    (x + d - 1) / d
}

/// The sizes of the tables on the device.
#[derive(Clone, Copy, Debug)]
pub struct TableSizes {
    pub ft_rows: usize,
    pub pa_rows: usize,
    pub n_dense: usize,
}

/// One step on the device: for each kernel its parameters and how many groups
/// of threads it takes.
#[derive(Debug)]
pub struct StepPlan {
    pub params: Vec<Params>,
    pub groups: Vec<usize>,
}

/// The parameters of each kernel, in the order in which they run: forward and
/// backward, row gradients of both tables, partial sums of both tables, bias
/// gradients, dense gradients, the norm, and the steps of both tables and of
/// the dense weights.
pub open spec fn step_params(base: Params, b: Batch, t: TableSizes, fold: bool, alpha: u32) -> Seq<
    Params,
> {
    let ready = Params { n_ex: b.n as u32, n_chunks: rounded_up(b.n as int, CHUNK as int) as u32, ..base };
    let step = Params {
        flags: if fold {
            1
        } else {
            0
        },
        alpha,
        ..ready
    };
    seq![
        ready,
        Params {
            n_items: (b.ft.segs@.len() / 4) as u32,
            width: ACC_DIMS as u32,
            rec_off: R_DRAW,
            ..ready
        },
        Params {
            n_items: (b.pa.segs@.len() / 4) as u32,
            width: PA_DIMS as u32,
            rec_off: R_DPA,
            ..ready
        },
        Params { n_items: (b.ft.multi@.len() / 3) as u32, width: ACC_DIMS as u32, ..ready },
        Params { n_items: (b.pa.multi@.len() / 3) as u32, width: PA_DIMS as u32, ..ready },
        ready,
        ready,
        Params {
            n_a: b.ft.n_touched as u32,
            n_b: b.pa.n_touched as u32,
            n_c: rounded_up(t.n_dense as int, WG as int) as u32,
            ..ready
        },
        Params { n_items: (t.ft_rows * ACC_DIMS) as u32, width: ACC_DIMS as u32, ..step },
        Params { n_items: (t.pa_rows * PA_DIMS) as u32, width: PA_DIMS as u32, ..step },
        step,
    ]
}

/// How many groups of threads each kernel takes; partial sums take none where
/// no row has several segments.
pub open spec fn step_groups(b: Batch, t: TableSizes) -> Seq<int> {
    seq![
        b.n as int,
        (b.ft.segs@.len() / 4) as int,
        (b.pa.segs@.len() / 4) as int,
        (b.ft.multi@.len() / 3) as int,
        (b.pa.multi@.len() / 3) as int,
        rounded_up(b.n as int, CHUNK as int),
        rounded_up(t.n_dense as int, WG as int),
        1int,
        rounded_up(t.ft_rows * ACC_DIMS, WG as int),
        rounded_up(t.pa_rows * PA_DIMS, WG as int),
        rounded_up(t.n_dense as int, WG as int),
    ]
}

/// Plan one step on the device.
pub fn plan_step(base: Params, b: &Batch, t: TableSizes, fold: bool, alpha: u32) -> (p: StepPlan)
    requires
        b.n <= 0x8000_0000,
        t.ft_rows * ACC_DIMS <= 0xffff_0000,
        t.pa_rows * PA_DIMS <= 0xffff_0000,
        t.n_dense <= 0xffff_0000,
    ensures
        p.params@ == step_params(base, *b, t, fold, alpha),
        p.groups@.len() == 11,
        forall|i: int| 0 <= i < 11 ==> #[trigger] p.groups@[i] == step_groups(*b, t)[i],
{
    let chunks: usize = (b.n + CHUNK - 1) / CHUNK;
    let ready: Params = Params { n_ex: b.n as u32, n_chunks: chunks as u32, ..base };
    let flags: u32 = if fold {
        1
    } else {
        0
    };
    let step: Params = Params { flags, alpha, ..ready };
    let ft_segs: usize = b.ft.segs.len() / 4;
    let pa_segs: usize = b.pa.segs.len() / 4;
    let ft_multi: usize = b.ft.multi.len() / 3;
    let pa_multi: usize = b.pa.multi.len() / 3;
    let dense: usize = (t.n_dense + WG - 1) / WG;
    let ft_cells: usize = t.ft_rows * ACC_DIMS;
    let pa_cells: usize = t.pa_rows * PA_DIMS;
    let mut params: Vec<Params> = Vec::new();
    params.push(ready);
    params.push(
        Params { n_items: ft_segs as u32, width: ACC_DIMS as u32, rec_off: R_DRAW, ..ready },
    );
    params.push(Params { n_items: pa_segs as u32, width: PA_DIMS as u32, rec_off: R_DPA, ..ready });
    params.push(Params { n_items: ft_multi as u32, width: ACC_DIMS as u32, ..ready });
    params.push(Params { n_items: pa_multi as u32, width: PA_DIMS as u32, ..ready });
    params.push(ready);
    params.push(ready);
    params.push(
        Params {
            n_a: b.ft.n_touched as u32,
            n_b: b.pa.n_touched as u32,
            n_c: dense as u32,
            ..ready
        },
    );
    params.push(Params { n_items: ft_cells as u32, width: ACC_DIMS as u32, ..step });
    params.push(Params { n_items: pa_cells as u32, width: PA_DIMS as u32, ..step });
    params.push(step);
    let mut groups: Vec<usize> = Vec::new();
    groups.push(b.n);
    groups.push(ft_segs);
    groups.push(pa_segs);
    groups.push(ft_multi);
    groups.push(pa_multi);
    groups.push(chunks);
    groups.push(dense);
    groups.push(1);
    groups.push((ft_cells + WG - 1) / WG);
    groups.push((pa_cells + WG - 1) / WG);
    groups.push(dense);
    assert(params@ =~= step_params(base, *b, t, fold, alpha));
    StepPlan { params, groups }
}

/// Where the parts of the dense weights start: the layers of the stacks, then
/// the biases of both sparse tables; and behind them the number of all.
pub fn dense_starts(stacks: usize, buckets: usize) -> (v: Vec<usize>)
    requires
        stacks <= 1024,
        buckets <= 1024,
    ensures
        v@.len() == 9,
        v@[0] == 0,
        v@[1] == v@[0] + stacks * 16 * 257,
        v@[2] == v@[1] + stacks * 16,
        v@[3] == v@[2] + stacks * 64 * 32,
        v@[4] == v@[3] + stacks * 64,
        v@[5] == v@[4] + stacks * 320,
        v@[6] == v@[5] + stacks,
        v@[7] == v@[6] + ACC_DIMS,
        v@[8] == v@[7] + buckets * PA_DIMS,
{
    let a: usize = stacks * 16 * 257;
    let b: usize = a + stacks * 16;
    let c: usize = b + stacks * 64 * 32;
    let d: usize = c + stacks * 64;
    let e: usize = d + stacks * 320;
    let f: usize = e + stacks;
    let g: usize = f + ACC_DIMS;
    let h: usize = g + buckets * PA_DIMS;
    let mut v: Vec<usize> = Vec::new();
    v.push(0);
    v.push(a);
    v.push(b);
    v.push(c);
    v.push(d);
    v.push(e);
    v.push(f);
    v.push(g);
    v.push(h);
    v
}

/// The word that the four bytes from `at` on show, the most significant byte
/// first.
pub open spec fn word_big(bytes: Seq<u8>, at: int) -> int {
    ((bytes[at] * 256 + bytes[at + 1]) * 256 + bytes[at + 2]) * 256 + bytes[at + 3]
}

/// The bytes show the words, in one of the two byte orders throughout.
pub open spec fn shows_words(bytes: Seq<u8>, words: Seq<u32>) -> bool {
    &&& bytes.len() == 4 * words.len()
    &&& {
        ||| forall|i: int| 0 <= i < words.len() ==> word(bytes, 4 * i, 4) == #[trigger] words[i]
        ||| forall|i: int| 0 <= i < words.len() ==> word_big(bytes, 4 * i) == #[trigger] words[i]
    }
}

/// The memory of the words, through `bytemuck::cast_slice`: four bytes for each
/// word, one behind the other, in the byte order of the machine, which is one of
/// two. Four bytes always divide into single bytes, and a byte needs no
/// alignment, so the cast does not fail.
#[verifier::external_body]
fn memory_of(words: &[u32]) -> (bytes: &[u8])
    ensures
        shows_words(bytes@, words@),
{
    bytemuck::cast_slice(words)
}

/// The words as they are handed over to the device.
pub fn upload_of(words: &Vec<u32>) -> (bytes: Vec<u8>)
    ensures
        shows_words(bytes@, words@),
{
    let memory: &[u8] = memory_of(words.as_slice());
    let mut bytes: Vec<u8> = Vec::new();
    let n: usize = memory.len();
    let mut i: usize = 0;
    while i < n
        invariant
            n == memory@.len(),
            i <= n,
            bytes@ == memory@.take(i as int),
        decreases n - i,
    {
        bytes.push(memory[i]);
        i = i + 1;
        assert(bytes@ =~= memory@.take(i as int));
    }
    assert(memory@.take(n as int) =~= memory@);
    bytes
}

/// The row that cell `i` names: cell `m` of example `e` is the `m`-th word of
/// its record, moved by what the example adds.
pub open spec fn row_at(inp: Seq<u32>, adds: Seq<u32>, stride: int, masks: int, i: int) -> int {
    inp[i / masks * stride + i % masks] + adds[i / masks]
}

/// All cells name rows.
pub open spec fn rows_named(
    inp: Seq<u32>,
    adds: Seq<u32>,
    n: int,
    stride: int,
    masks: int,
    rows: int,
) -> bool {
    &&& 0 <= masks <= stride
    &&& adds.len() == n
    &&& inp.len() == n * stride
    &&& n * masks <= 0x8000_0000
    &&& forall|i: int|
        0 <= i < n * masks ==> #[trigger] row_at(inp, adds, stride, masks, i) < rows
}

/// Where there are cells, an example has some.
proof fn lemma_some(n: int, masks: int)
    requires
        0 <= masks,
        n * masks > 0,
    ensures
        masks > 0,
{
    assert(masks == 0 ==> n * masks == 0) by (nonlinear_arith);
}

proof fn lemma_cell(n: int, stride: int, masks: int, i: int)
    requires
        0 < masks <= stride,
        0 <= i < n * masks,
    ensures
        0 <= i / masks < n,
        0 <= i / masks * stride + i % masks < n * stride,
{
    let e = i / masks;
    let m = i % masks;
    assert(i == e * masks + m && 0 <= m < masks && 0 <= e) by (nonlinear_arith)
        requires
            e == i / masks,
            m == i % masks,
            0 < masks,
            0 <= i,
    ;
    assert(e < n) by (nonlinear_arith)
        requires
            e * masks + m < n * masks,
            0 <= m,
            0 < masks,
    ;
    assert(e * stride + m < n * stride && 0 <= e * stride) by (nonlinear_arith)
        requires
            0 <= e < n,
            m < stride,
            0 < stride,
    ;
}

/// How many rows below `r` are touched.
pub open spec fn touched_below(keys: Seq<u32>, r: int) -> int
    decreases r,
{
    if r <= 0 {
        0
    } else {
        touched_below(keys, r - 1) + if count_of(keys, r - 1, keys.len() as int) > 0 {
            1int
        } else {
            0int
        }
    }
}

/// The segments of a long row: parts of at most `SEG` examples, four words each.
pub open spec fn long_segs(t: int, lo: int, hi: int, part: int) -> Seq<u32>
    decreases (if hi > lo {
        hi - lo
    } else {
        0
    }),
{
    if lo >= hi {
        Seq::empty()
    } else {
        let end = if hi < lo + SEG {
            hi
        } else {
            lo + SEG
        };
        seq![t as u32, lo as u32, end as u32, part as u32] + long_segs(t, lo + SEG, hi, part + 1)
    }
}

/// How many partial sums a row of the given length needs.
pub open spec fn parts_of(len: int) -> int {
    if len <= SEG {
        0
    } else {
        (len + SEG - 1) / SEG as int
    }
}

/// How many partial sums the first `t` touched rows need.
pub open spec fn parts_before(rowptr: Seq<u32>, t: int) -> int
    decreases t,
{
    if t <= 0 {
        0
    } else {
        parts_before(rowptr, t - 1) + parts_of(rowptr[t] - rowptr[t - 1])
    }
}

/// The segments of the first `t` touched rows.
pub open spec fn segs_before(rowptr: Seq<u32>, t: int) -> Seq<u32>
    decreases t,
{
    if t <= 0 {
        Seq::empty()
    } else {
        let lo = rowptr[t - 1] as int;
        let hi = rowptr[t] as int;
        segs_before(rowptr, t - 1) + if hi - lo <= SEG {
            seq![(t - 1) as u32, lo as u32, hi as u32, NO_PART]
        } else {
            long_segs(t - 1, lo, hi, parts_before(rowptr, t - 1))
        }
    }
}

/// Those of the first `t` touched rows that have several segments, with their
/// partial sums, three words each.
pub open spec fn multi_before(rowptr: Seq<u32>, t: int) -> Seq<u32>
    decreases t,
{
    if t <= 0 {
        Seq::empty()
    } else if rowptr[t] - rowptr[t - 1] <= SEG {
        multi_before(rowptr, t - 1)
    } else {
        multi_before(rowptr, t - 1) + seq![
            (t - 1) as u32,
            parts_before(rowptr, t - 1) as u32,
            parts_before(rowptr, t) as u32,
        ]
    }
}

/// The rows that a batch touches, and for each the examples that touch it.
#[derive(Debug)]
pub struct Csr {
    /// Where the examples of each touched row start, and behind them the number
    /// of all.
    pub rowptr: Vec<u32>,
    pub exids: Vec<u32>,
    /// Segments of rows, four words each: touched row, start and end among the
    /// examples, and the partial sum, if any.
    pub segs: Vec<u32>,
    /// Rows of several segments, three words each: touched row, first partial
    /// sum and the one behind the last.
    pub multi: Vec<u32>,
    /// For each row one more than its number among the touched rows; zero for a
    /// row that is not touched.
    pub slot: Vec<u32>,
    pub n_touched: usize,
}

impl Csr {
    /// The lists say of the keys (one row for each cell) what they should;
    /// example `e` has `masks` cells.
    pub open spec fn says(self, keys: Seq<u32>, rows: int, masks: int) -> bool {
        let n = keys.len() as int;
        &&& self.n_touched == touched_below(keys, rows)
        &&& self.slot@.len() == rows
        &&& forall|r: int|
            0 <= r < rows ==> #[trigger] self.slot@[r] == if count_of(keys, r, n) > 0 {
                touched_below(keys, r) + 1
            } else {
                0
            }
        &&& self.rowptr@.len() == self.n_touched + 1
        &&& forall|r: int|
            0 <= r < rows && #[trigger] self.slot@[r] > 0 ==> self.rowptr@[self.slot@[r] - 1]
                == start_of(keys, r) && self.rowptr@[self.slot@[r] as int] == start_of(keys, r + 1)
        &&& self.exids@.len() == n
        &&& forall|i: int|
            0 <= i < n ==> self.exids@[#[trigger] place(keys, i)] == i / masks
        &&& self.segs@ == segs_before(self.rowptr@, self.n_touched as int)
        &&& self.multi@ == multi_before(self.rowptr@, self.n_touched as int)
    }
}

/// The row of each cell.
fn keys_of(inp: &Vec<u32>, adds: &Vec<u32>, n: usize, stride: usize, masks: usize, rows: usize) -> (
keys: Vec<u32>)
    requires
        rows_named(inp@, adds@, n as int, stride as int, masks as int, rows as int),
        rows <= 0x8000_0000,
    ensures
        keys@.len() == n * masks,
        keys_below(keys@, rows as int),
        forall|i: int|
            0 <= i < n * masks ==> #[trigger] keys@[i] == row_at(
                inp@,
                adds@,
                stride as int,
                masks as int,
                i,
            ),
{
    let total: usize = n * masks;
    let words: usize = inp.len();
    let mut keys: Vec<u32> = Vec::new();
    let mut i: usize = 0;
    while i < total
        invariant
            rows_named(inp@, adds@, n as int, stride as int, masks as int, rows as int),
            rows <= 0x8000_0000,
            total == n * masks,
            words == inp@.len(),
            words == n * stride,
            i <= total,
            keys@.len() == i,
            keys_below(keys@, rows as int),
            forall|j: int|
                0 <= j < i ==> #[trigger] keys@[j] == row_at(
                    inp@,
                    adds@,
                    stride as int,
                    masks as int,
                    j,
                ),
        decreases total - i,
    {
        proof {
            lemma_some(n as int, masks as int);
            lemma_cell(n as int, stride as int, masks as int, i as int);
            assert(row_at(inp@, adds@, stride as int, masks as int, i as int) < rows);
            let e = i as int / masks as int;
            assert(0 <= e * stride) by (nonlinear_arith)
                requires
                    0 <= e,
                    0 <= stride,
            ;
        }
        let e: usize = i / masks;
        let m: usize = i % masks;
        keys.push(inp[e * stride + m] + adds[e]);
        i = i + 1;
    }
    keys
}

proof fn lemma_touched(keys: Seq<u32>, a: int, b: int)
    requires
        0 <= a <= b,
    ensures
        0 <= touched_below(keys, a) <= touched_below(keys, b) <= b,
        a < b && count_of(keys, a, keys.len() as int) > 0 ==> touched_below(keys, a)
            < touched_below(keys, b),
    decreases b,
{
    if a < b {
        lemma_touched(keys, a, b - 1);
    } else if a > 0 {
        lemma_touched(keys, a - 1, b - 1);
    }
}

proof fn lemma_parts(rowptr: Seq<u32>, t: int)
    requires
        0 <= t < rowptr.len(),
        forall|i: int, j: int|
            0 <= i <= j < rowptr.len() ==> #[trigger] rowptr[i] <= #[trigger] rowptr[j],
        rowptr[0] == 0,
    ensures
        0 <= parts_before(rowptr, t) <= rowptr[t],
    decreases t,
{
    if t > 0 {
        lemma_parts(rowptr, t - 1);
        assert(rowptr[t - 1] <= rowptr[t]);
    }
}

impl Csr {
    /// Sort the cells of a batch by the rows that they name. `inp` holds a
    /// record of `stride` words for each example, which starts with its cells;
    /// `adds` holds what each example adds to its cells.
    pub fn build(
        inp: &Vec<u32>,
        adds: &Vec<u32>,
        n: usize,
        stride: usize,
        masks: usize,
        rows: usize,
    ) -> (c: Csr)
        requires
            rows_named(inp@, adds@, n as int, stride as int, masks as int, rows as int),
            rows <= 0x4000_0000,
        ensures
            c.says(
                Seq::new(
                    (n * masks) as nat,
                    |i: int| row_at(inp@, adds@, stride as int, masks as int, i) as u32,
                ),
                rows as int,
                masks as int,
            ),
    {
        let keys: Vec<u32> = keys_of(inp, adds, n, stride, masks, rows);
        assert(keys@ =~= Seq::new(
            (n * masks) as nat,
            |i: int| row_at(inp@, adds@, stride as int, masks as int, i) as u32,
        ));
        let l: LineUp = line_up(&keys, rows);
        let total: usize = keys.len();
        let mut slot: Vec<u32> = Vec::new();
        let mut rowptr: Vec<u32> = Vec::new();
        rowptr.push(0);
        let mut t: u32 = 0;
        let mut r: usize = 0;
        while r < rows
            invariant
                rows <= 0x4000_0000,
                total == keys@.len(),
                total <= 0x8000_0000,
                keys_below(keys@, rows as int),
                is_line_up(keys@, rows as int, l.starts@, l.order@),
                r <= rows,
                t == touched_below(keys@, r as int),
                t <= r,
                slot@.len() == r,
                rowptr@.len() == t + 1,
                rowptr@[0] == 0,
                rowptr@[t as int] == start_of(keys@, r as int),
                forall|i: int, j: int|
                    0 <= i <= j < rowptr@.len() ==> #[trigger] rowptr@[i] <= #[trigger] rowptr@[j],
                forall|q: int|
                    0 <= q < r ==> #[trigger] slot@[q] == if count_of(keys@, q, total as int) > 0 {
                        touched_below(keys@, q) + 1
                    } else {
                        0
                    },
                forall|q: int|
                    0 <= q < r && #[trigger] slot@[q] > 0 ==> slot@[q] <= t && rowptr@[slot@[q] - 1]
                        == start_of(keys@, q) && rowptr@[slot@[q] as int] == start_of(keys@, q + 1),
            decreases rows - r,
        {
            let from: u32 = l.starts[r];
            let to: u32 = l.starts[r + 1];
            let ghost ptrs = rowptr@;
            let ghost slots = slot@;
            proof {
                lemma_starts(keys@, r as int, r + 1, rows as int);
                lemma_count(keys@, r as int, 0, total as int);
            }
            if from == to {
                slot.push(0);
            } else {
                t = t + 1;
                slot.push(t);
                rowptr.push(to);
            }
            proof {
                assert forall|q: int| 0 <= q < r + 1 && #[trigger] slot@[q] > 0 implies slot@[q] <= t
                    && rowptr@[slot@[q] - 1] == start_of(keys@, q) && rowptr@[slot@[q] as int]
                    == start_of(keys@, q + 1) by {
                    if q < r {
                        assert(slot@[q] == slots[q]);
                        assert(rowptr@[slot@[q] - 1] == ptrs[slot@[q] - 1]);
                        assert(rowptr@[slot@[q] as int] == ptrs[slot@[q] as int]);
                    }
                }
                assert forall|i: int, j: int| 0 <= i <= j < rowptr@.len() implies
                    #[trigger] rowptr@[i] <= #[trigger] rowptr@[j] by {
                    if j < ptrs.len() {
                        assert(ptrs[i] <= ptrs[j]);
                    } else if i < ptrs.len() {
                        assert(ptrs[i] <= ptrs[ptrs.len() - 1]);
                    }
                }
            }
            r = r + 1;
        }
        proof {
            lemma_starts(keys@, rows as int, rows as int, rows as int);
        }
        let (segs, multi): (Vec<u32>, Vec<u32>) = cut_rows(&rowptr);
        let mut exids: Vec<u32> = Vec::new();
        let mut j: usize = 0;
        while j < total
            invariant
                total == keys@.len(),
                l.order@.len() == total,
                total == n * masks,
                j <= total,
                exids@.len() == j,
                forall|q: int| 0 <= q < j ==> #[trigger] exids@[q] == l.order@[q] as int / masks as int,
            decreases total - j,
        {
            let i: usize = l.order[j] as usize;
            proof {
                lemma_some(n as int, masks as int);
            }
            assert(i as int / masks as int <= i) by (nonlinear_arith)
                requires
                    masks > 0,
            ;
            exids.push((i / masks) as u32);
            j = j + 1;
        }
        proof {
            assert forall|i: int| 0 <= i < total implies exids@[#[trigger] place(keys@, i)] == i / masks as int by {
                super::counting::lemma_place(keys@, i, i, rows as int);
                assert(l.order@[place(keys@, i)] == i);
            }
        }
        Csr { rowptr, exids, segs, multi, slot, n_touched: t as usize }
    }
}

/// The segments of the touched rows, and the rows of several segments.
fn cut_rows(rowptr: &Vec<u32>) -> (r: (Vec<u32>, Vec<u32>))
    requires
        rowptr@.len() > 0,
        rowptr@.len() <= 0x4000_0001,
        rowptr@[0] == 0,
        forall|i: int, j: int|
            0 <= i <= j < rowptr@.len() ==> #[trigger] rowptr@[i] <= #[trigger] rowptr@[j],
        rowptr@[rowptr@.len() - 1] <= 0x8000_0000,
    ensures
        r.0@ == segs_before(rowptr@, rowptr@.len() - 1),
        r.1@ == multi_before(rowptr@, rowptr@.len() - 1),
{
    let mut segs: Vec<u32> = Vec::new();
    let mut multi: Vec<u32> = Vec::new();
    let mut part: u32 = 0;
    let n: usize = rowptr.len() - 1;
    let mut t: usize = 0;
    while t < n
        invariant
            n == rowptr@.len() - 1,
            n <= 0x4000_0000,
            rowptr@[0] == 0,
            forall|i: int, j: int|
                0 <= i <= j < rowptr@.len() ==> #[trigger] rowptr@[i] <= #[trigger] rowptr@[j],
            rowptr@[n as int] <= 0x8000_0000,
            t <= n,
            part == parts_before(rowptr@, t as int),
            segs@ == segs_before(rowptr@, t as int),
            multi@ == multi_before(rowptr@, t as int),
        decreases n - t,
    {
        let lo: u32 = rowptr[t];
        let hi: u32 = rowptr[t + 1];
        proof {
            assert(rowptr@[t as int] <= rowptr@[t + 1]);
            assert(rowptr@[t + 1] <= rowptr@[n as int]);
            lemma_parts(rowptr@, t as int);
            lemma_parts(rowptr@, t + 1);
        }
        if hi - lo <= SEG {
            segs.push(t as u32);
            segs.push(lo);
            segs.push(hi);
            segs.push(NO_PART);
            assert(segs@ =~= segs_before(rowptr@, t + 1));
        } else {
            let first: u32 = part;
            let mut a: u32 = lo;
            let ghost before = segs@;
            let ghost whole = long_segs(t as int, lo as int, hi as int, first as int);
            assert(segs@ + long_segs(t as int, a as int, hi as int, part as int) =~= before + whole);
            while a < hi
                invariant
                    lo <= a,
                    hi <= 0x8000_0000,
                    a <= hi + SEG,
                    t <= 0x4000_0000,
                    first <= 0x8000_0000,
                    (a - lo) % 256 == 0,
                    part == first + (a - lo) / 256,
                    a >= hi ==> a - hi < SEG,
                    segs@ + long_segs(t as int, a as int, hi as int, part as int) == before + whole,
                decreases (if hi > a {
                    hi - a
                } else {
                    0
                }),
            {
                let end: u32 = if hi - a < SEG {
                    hi
                } else {
                    a + SEG
                };
                let ghost was = segs@;
                segs.push(t as u32);
                segs.push(a);
                segs.push(end);
                segs.push(part);
                proof {
                    let rest = long_segs(t as int, a + SEG, hi as int, part + 1);
                    assert(segs@ =~= was + seq![t as u32, a, end, part]);
                    assert(segs@ + rest =~= was + (seq![t as u32, a, end, part] + rest));
                }
                a = a + SEG;
                part = part + 1;
            }
            assert(long_segs(t as int, a as int, hi as int, part as int) =~= Seq::<u32>::empty());
            assert(segs@ =~= before + whole);
            assert(part - first == parts_of(hi - lo));
            multi.push(t as u32);
            multi.push(first);
            multi.push(part);
            assert(multi@ =~= multi_before(rowptr@, t + 1));
        }
        t = t + 1;
    }
    (segs, multi)
}

/// A batch, prepared for the device: its records by read-out stage, and the rows
/// that it touches in both sparse tables.
#[derive(Debug)]
pub struct Batch {
    pub n: usize,
    pub inp: Vec<u32>,
    /// Where the records of each stage start, and behind them the number of all.
    pub stage_off: Vec<u32>,
    pub ft: Csr,
    pub pa: Csr,
}

/// The read-out stage of each record, as the word behind its cells names it.
pub open spec fn record_keys(
    scratch: Seq<u32>,
    n: int,
    stride: int,
    masks: int,
    stack_of: Seq<usize>,
) -> Seq<u32> {
    Seq::new(n as nat, |e: int| stack_of[scratch[e * stride + masks] as int] as u32)
}

/// The records stand by their read-out stages.
pub open spec fn by_stage(
    scratch: Seq<u32>,
    inp: Seq<u32>,
    n: int,
    stride: int,
    keys: Seq<u32>,
) -> bool {
    &&& inp.len() == n * stride
    &&& forall|e: int, w: int|
        0 <= e < n && 0 <= w < stride ==> inp[#[trigger] place(keys, e) * stride + w]
            == #[trigger] scratch[e * stride + w]
}

impl Batch {
    /// Line the records of a batch up by read-out stage, and sort their cells
    /// by row. A record of `stride` words starts with its `masks` cells, and
    /// its stage follows.
    pub fn prepare(
        scratch: &Vec<u32>,
        n: usize,
        stride: usize,
        masks: usize,
        stack_of: &Vec<usize>,
        stacks: usize,
        bucket_of: &Vec<usize>,
        buckets: usize,
        rows: usize,
    ) -> (b: Batch)
        requires
            0 < masks < stride,
            stride <= 0x10000,
            scratch@.len() == n * stride,
            n * masks <= 0x8000_0000,
            n <= 0x8000_0000,
            stack_of@.len() == bucket_of@.len(),
            0 < stacks <= 0x10000,
            0 < buckets,
            buckets * rows <= 0x4000_0000,
            0 < rows,
            forall|s: int| 0 <= s < stack_of@.len() ==> #[trigger] stack_of@[s] < stacks,
            forall|s: int| 0 <= s < bucket_of@.len() ==> #[trigger] bucket_of@[s] < buckets,
            forall|e: int|
                0 <= e < n ==> #[trigger] scratch@[e * stride + masks] < stack_of@.len(),
            forall|e: int, m: int|
                0 <= e < n && 0 <= m < masks ==> #[trigger] scratch@[e * stride + m] < rows,
        ensures
            b.n == n,
            ({
                let keys = record_keys(
                    scratch@,
                    n as int,
                    stride as int,
                    masks as int,
                    stack_of@,
                );
                &&& by_stage(scratch@, b.inp@, n as int, stride as int, keys)
                &&& b.stage_off@.len() == stacks + 1
                &&& forall|s: int|
                    0 <= s <= stacks ==> #[trigger] b.stage_off@[s] == start_of(keys, s)
            }),
            b.ft.says(
                Seq::new(
                    (n * masks) as nat,
                    |i: int| b.inp@[i / (masks as int) * stride + i % (masks as int)],
                ),
                rows as int,
                masks as int,
            ),
            b.pa.says(
                Seq::new(
                    (n * masks) as nat,
                    |i: int|
                        (b.inp@[i / (masks as int) * stride + i % (masks as int)]
                            + bucket_of@[b.inp@[i / (masks as int) * stride + masks] as int]
                            * rows) as u32,
                ),
                buckets * rows,
                masks as int,
            ),
    {
        let ghost keys_meant = record_keys(
            scratch@,
            n as int,
            stride as int,
            masks as int,
            stack_of@,
        );
        let words: usize = scratch.len();
        let mut keys: Vec<u32> = Vec::new();
        let mut e: usize = 0;
        while e < n
            invariant
                0 < masks < stride,
                words == scratch@.len(),
                words == n * stride,
                0 < stacks <= 0x10000,
                forall|s: int| 0 <= s < stack_of@.len() ==> #[trigger] stack_of@[s] < stacks,
                forall|e: int|
                    0 <= e < n ==> #[trigger] scratch@[e * stride + masks] < stack_of@.len(),
                keys_meant == record_keys(
                    scratch@,
                    n as int,
                    stride as int,
                    masks as int,
                    stack_of@,
                ),
                e <= n,
                keys@.len() == e,
                forall|q: int| 0 <= q < e ==> #[trigger] keys@[q] == keys_meant[q],
                keys_below(keys@, stacks as int),
            decreases n - e,
        {
            proof {
                lemma_word(e as int, n as int, stride as int, masks as int);
                assert(scratch@[e * stride + masks] < stack_of@.len());
            }
            let s: usize = stack_of[scratch[e * stride + masks] as usize];
            keys.push(s as u32);
            e = e + 1;
        }
        assert(keys@ =~= keys_meant);
        let l: LineUp = line_up(&keys, stacks);
        let mut inp: Vec<u32> = Vec::new();
        let mut adds: Vec<u32> = Vec::new();
        let mut none: Vec<u32> = Vec::new();
        let mut k: usize = 0;
        assert(0 * (stride as int) == 0) by (nonlinear_arith);
        while k < n
            invariant
                0 < masks < stride,
                words == scratch@.len(),
                words == n * stride,
                n == keys@.len(),
                keys_below(keys@, stacks as int),
                is_line_up(keys@, stacks as int, l.starts@, l.order@),
                0 < rows,
                0 < buckets,
                buckets * rows <= 0x4000_0000,
                stack_of@.len() == bucket_of@.len(),
                forall|s: int| 0 <= s < bucket_of@.len() ==> #[trigger] bucket_of@[s] < buckets,
                forall|e: int|
                    0 <= e < n ==> #[trigger] scratch@[e * stride + masks] < stack_of@.len(),
                k <= n,
                inp@.len() == k * stride,
                adds@.len() == k,
                none@.len() == k,
                forall|q: int| 0 <= q < k ==> #[trigger] none@[q] == 0,
                forall|q: int| 0 <= q < k ==> (#[trigger] l.order@[q]) < n,
                forall|q: int, w: int|
                    0 <= q < k && 0 <= w < stride ==> #[trigger] inp@[q * stride + w]
                        == scratch@[l.order@[q] * stride + w],
                forall|q: int|
                    0 <= q < k ==> #[trigger] adds@[q] == bucket_of@[inp@[q * stride + masks] as int]
                        * rows,
            decreases n - k,
        {
            let ghost taken = lemma_taken(keys@, k as int, stacks as int);
            assert(l.order@[place(keys@, taken)] == taken);
            let from: usize = l.order[k] as usize;
            let ghost before = inp@;
            proof {
                lemma_word(from as int, n as int, stride as int, 0);
                lemma_word(k as int, n as int, stride as int, 0);
            }
            let base: usize = from * stride;
            let mut w: usize = 0;
            while w < stride
                invariant
                    words == scratch@.len(),
                    base == from * stride,
                    base + stride <= words,
                    w <= stride,
                    before.len() == k * stride,
                    inp@.len() == k * stride + w,
                    forall|q: int| 0 <= q < before.len() ==> #[trigger] inp@[q] == before[q],
                    forall|q: int|
                        0 <= q < w ==> #[trigger] inp@[k * stride + q] == scratch@[from * stride
                            + q],
                decreases stride - w,
            {
                inp.push(scratch[base + w]);
                w = w + 1;
            }
            proof {
                lemma_word(from as int, n as int, stride as int, masks as int);
                assert(scratch@[from * stride + masks] < stack_of@.len());
                assert forall|q: int, w: int| 0 <= q < k + 1 && 0 <= w < stride implies
                    #[trigger] inp@[q * stride + w] == scratch@[l.order@[q] * stride + w] by {
                    if q < k {
                        lemma_word(q, k as int, stride as int, w);
                        assert(inp@[q * stride + w] == before[q * stride + w]);
                    }
                }
                assert(inp@[k * stride + masks] == scratch@[from * stride + masks]);
            }
            let stage: usize = scratch[base + masks] as usize;
            let bucket: usize = bucket_of[stage];
            proof {
                assert(bucket * rows <= buckets * rows) by (nonlinear_arith)
                    requires
                        bucket < buckets,
                        0 < rows,
                ;
                assert forall|q: int| 0 <= q < k implies #[trigger] adds@[q]
                    == bucket_of@[inp@[q * stride + masks] as int] * rows by {
                    lemma_word(q, k as int, stride as int, masks as int);
                    assert(inp@[q * stride + masks] == before[q * stride + masks]);
                }
            }
            adds.push((bucket * rows) as u32);
            none.push(0);
            proof {
                assert((k + 1) * stride == k * stride + stride) by (nonlinear_arith);
            }
            k = k + 1;
        }
        proof {
            assert forall|e: int, w: int| 0 <= e < n && 0 <= w < stride implies inp@[#[trigger] place(
                keys@,
                e,
            ) * stride + w] == #[trigger] scratch@[e * stride + w] by {
                super::counting::lemma_place(keys@, e, e, stacks as int);
                assert(l.order@[place(keys@, e)] == e);
            }
            assert forall|i: int| 0 <= i < n * masks implies #[trigger] row_at(
                inp@,
                none@,
                stride as int,
                masks as int,
                i,
            ) < rows by {
                lemma_cell(n as int, stride as int, masks as int, i);
                let q = i / masks as int;
                let m = i % masks as int;
                assert(inp@[q * stride + m] == scratch@[l.order@[q] * stride + m]);
                assert(scratch@[l.order@[q] * stride + m] < rows);
                assert(none@[q] == 0);
            }
            assert forall|i: int| 0 <= i < n * masks implies #[trigger] row_at(
                inp@,
                adds@,
                stride as int,
                masks as int,
                i,
            ) < buckets * rows by {
                lemma_cell(n as int, stride as int, masks as int, i);
                let q = i / masks as int;
                let m = i % masks as int;
                assert(inp@[q * stride + m] == scratch@[l.order@[q] * stride + m]);
                assert(scratch@[l.order@[q] * stride + m] < rows);
                assert(inp@[q * stride + masks] == scratch@[l.order@[q] * stride + masks]);
                let k = bucket_of@[inp@[q * stride + masks] as int] as int;
                assert(k * rows + rows <= buckets * rows) by (nonlinear_arith)
                    requires
                        k + 1 <= buckets,
                        0 < rows,
                ;
                assert(adds@[q] == k * rows);
            }
            assert(rows <= buckets * rows) by (nonlinear_arith)
                requires
                    1 <= buckets,
                    0 < rows,
            ;
        }
        let ft: Csr = Csr::build(&inp, &none, n, stride, masks, rows);
        let pa: Csr = Csr::build(&inp, &adds, n, stride, masks, buckets * rows);
        proof {
            let a = Seq::new(
                (n * masks) as nat,
                |i: int| row_at(inp@, none@, stride as int, masks as int, i) as u32,
            );
            let c = Seq::new(
                (n * masks) as nat,
                |i: int| inp@[i / (masks as int) * stride + i % (masks as int)],
            );
            assert forall|i: int| 0 <= i < n * masks implies a[i] == c[i] by {
                lemma_cell(n as int, stride as int, masks as int, i);
                assert(none@[i / masks as int] == 0);
            }
            assert(a =~= c);
            let d = Seq::new(
                (n * masks) as nat,
                |i: int| row_at(inp@, adds@, stride as int, masks as int, i) as u32,
            );
            let f = Seq::new(
                (n * masks) as nat,
                |i: int|
                    (inp@[i / (masks as int) * stride + i % (masks as int)]
                        + bucket_of@[inp@[i / (masks as int) * stride + masks] as int] * rows) as u32,
            );
            assert forall|i: int| 0 <= i < n * masks implies d[i] == f[i] by {
                lemma_cell(n as int, stride as int, masks as int, i);
                assert(adds@[i / masks as int] == bucket_of@[inp@[i / (masks as int) * stride
                    + masks] as int] * rows);
            }
            assert(d =~= f);
        }
        Batch { n, inp, stage_off: l.starts, ft, pa }
    }

    /// The words of the batch as they are handed over: records, stage starts,
    /// and for both tables segments, rows of several segments, examples and
    /// slots.
    pub fn uploads(&self) -> (v: Vec<Vec<u8>>)
        ensures
            v@.len() == 10,
            shows_words(v@[0]@, self.inp@),
            shows_words(v@[1]@, self.stage_off@),
            shows_words(v@[2]@, self.ft.segs@),
            shows_words(v@[3]@, self.ft.multi@),
            shows_words(v@[4]@, self.ft.exids@),
            shows_words(v@[5]@, self.ft.slot@),
            shows_words(v@[6]@, self.pa.segs@),
            shows_words(v@[7]@, self.pa.multi@),
            shows_words(v@[8]@, self.pa.exids@),
            shows_words(v@[9]@, self.pa.slot@),
    {
        let mut v: Vec<Vec<u8>> = Vec::new();
        v.push(upload_of(&self.inp));
        v.push(upload_of(&self.stage_off));
        v.push(upload_of(&self.ft.segs));
        v.push(upload_of(&self.ft.multi));
        v.push(upload_of(&self.ft.exids));
        v.push(upload_of(&self.ft.slot));
        v.push(upload_of(&self.pa.segs));
        v.push(upload_of(&self.pa.multi));
        v.push(upload_of(&self.pa.exids));
        v.push(upload_of(&self.pa.slot));
        v
    }
}

proof fn lemma_word(e: int, n: int, stride: int, w: int)
    requires
        0 <= e < n,
        0 <= w < stride,
    ensures
        0 <= e * stride + w < n * stride,
        e * stride + stride <= n * stride,
        0 <= e * stride,
{
    assert(e * stride + stride <= n * stride && 0 <= e * stride) by (nonlinear_arith)
        requires
            0 <= e,
            e + 1 <= n,
            0 < stride,
    ;
}

/// Words of the buffers on the device.
#[derive(Clone, Copy, Debug, PartialEq, Eq, Structural)]
pub struct BufferSizes {
    /// Records of a batch.
    pub inp: usize,
    /// Cells of a batch.
    pub cells: usize,
    /// Touched rows of each table.
    pub ft_touched: usize,
    pub pa_touched: usize,
    /// Segments of touched rows.
    pub ft_segs: usize,
    pub pa_segs: usize,
    /// Rows of several segments.
    pub multi: usize,
    /// Partial sums.
    pub parts: usize,
    /// Chunks of examples.
    pub chunks: usize,
}

/// How many rows a number of cells can touch.
pub open spec fn most_touched(rows: int, cells: int) -> int {
    if rows < cells {
        rows
    } else {
        cells
    }
}

/// Words of the buffers for batches of up to `batch` examples.
pub fn buffer_sizes(batch: usize, masks: usize, ft_rows: usize, pa_rows: usize) -> (z: BufferSizes)
    requires
        masks <= 0x1000,
        batch * masks <= 0x0800_0000,
        batch <= 0x0800_0000,
    ensures
        z.inp == batch * (masks + 3),
        z.cells == batch * masks,
        z.ft_touched == most_touched(ft_rows as int, batch * masks),
        z.pa_touched == most_touched(pa_rows as int, batch * masks),
        z.ft_segs == 4 * (z.ft_touched + batch * masks / SEG as int),
        z.pa_segs == 4 * (z.pa_touched + batch * masks / SEG as int),
        z.multi == 3 * (2 * (batch * masks) / SEG as int),
        z.parts == 2 * (batch * masks) / SEG as int,
        z.chunks == rounded_up(batch as int, CHUNK as int),
{
    assert(batch * (masks + 3) == batch * masks + 3 * batch) by (nonlinear_arith);
    let cells: usize = batch * masks;
    let ft_touched: usize = if ft_rows < cells {
        ft_rows
    } else {
        cells
    };
    let pa_touched: usize = if pa_rows < cells {
        pa_rows
    } else {
        cells
    };
    let parts: usize = 2 * cells / SEG as usize;
    BufferSizes {
        inp: batch * (masks + 3),
        cells,
        ft_touched,
        pa_touched,
        ft_segs: 4 * (ft_touched + cells / SEG as usize),
        pa_segs: 4 * (pa_touched + cells / SEG as usize),
        multi: 3 * parts,
        parts,
        chunks: (batch + CHUNK - 1) / CHUNK,
    }
}

/// A long row has a segment for each `SEG` examples and one for the rest.
proof fn lemma_long_segs(t: int, lo: int, hi: int, part: int)
    requires
        lo < hi,
    ensures
        long_segs(t, lo, hi, part).len() == 4 * ((hi - lo + SEG - 1) / SEG as int),
    decreases hi - lo,
{
    reveal_with_fuel(long_segs, 2);
    if lo + SEG < hi {
        lemma_long_segs(t, lo + SEG, hi, part + 1);
    }
}

/// What the rows below `r` have in segments, partial sums and rows of several
/// segments.
proof fn lemma_lists(c: Csr, keys: Seq<u32>, rows: int, masks: int, r: int)
    requires
        c.says(keys, rows, masks),
        keys_below(keys, rows),
        0 <= r <= rows,
    ensures
        ({
            let t = touched_below(keys, r);
            let at = start_of(keys, r);
            &&& 0 <= t <= at
            &&& segs_before(c.rowptr@, t).len() % 4 == 0
            &&& SEG * (segs_before(c.rowptr@, t).len() - 4 * t) <= 4 * at
            &&& SEG * parts_before(c.rowptr@, t) <= 2 * at
            &&& 2 * multi_before(c.rowptr@, t).len() <= 3 * parts_before(c.rowptr@, t)
        }),
    decreases r,
{
    if r > 0 {
        let q = r - 1;
        lemma_lists(c, keys, rows, masks, q);
        lemma_count(keys, q, 0, keys.len() as int);
        let t = touched_below(keys, q);
        if count_of(keys, q, keys.len() as int) > 0 {
            assert(c.slot@[q] == t + 1);
            let lo = c.rowptr@[t] as int;
            let hi = c.rowptr@[t + 1] as int;
            assert(lo == start_of(keys, q) && hi == start_of(keys, r));
            if hi - lo > SEG {
                lemma_long_segs(t, lo, hi, parts_before(c.rowptr@, t));
            }
        }
    }
}

/// The lists of any batch fit their buffers: with at most `most` cells it touches
/// no more rows than there are cells, its rows have no more segments than one for
/// each row and one for each `SEG` cells, and no more partial sums than two for
/// each `SEG` cells.
pub proof fn law_lists_fit(c: Csr, keys: Seq<u32>, rows: int, masks: int, most: int)
    requires
        c.says(keys, rows, masks),
        keys_below(keys, rows),
        0 <= rows,
        keys.len() <= most,
    ensures
        c.n_touched <= most_touched(rows, most),
        c.segs@.len() <= 4 * (most_touched(rows, most) + most / SEG as int),
        c.multi@.len() <= 3 * (2 * most / SEG as int),
        parts_before(c.rowptr@, c.n_touched as int) <= 2 * most / SEG as int,
{
    lemma_lists(c, keys, rows, masks, rows);
    lemma_touched(keys, 0, rows);
    lemma_starts(keys, 0, rows, rows);
}

} // verus!
