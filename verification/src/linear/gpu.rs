//! Training of the linear evaluation on a graphics device: tables of the masks
//! under each symmetry, and the words of a batch.

use vstd::prelude::*;

use crate::bitboard::symmetry_of;
use crate::bits::{bit, count, count_ones, lemma_count_bound};
use crate::board::Board;
use crate::color::Color;
use crate::evaluator::{Evaluator, stage_of};
use crate::layout::{mask_starts, table_start};
use crate::nnue::gpu::{shows_words, upload_of};
use crate::pattern::{flat_masks, flat_owners, mask_value, on_board};
use crate::pattern_index::{MAX_MASKS, PatternIndexer, lemma_masks_ok};
use crate::symmetry::{inverse, inverse_form, lemma_inverse, lemma_mapped, lemma_mapped_bit, map_square, mapped};

verus! {

/// Forms in which each position is trained.
pub const FORMS: usize = 8;

/// For each form and square the square of the original that is shown there.
pub fn square_maps() -> (back: Vec<Vec<u8>>)
    ensures
        back@.len() == FORMS,
        forall|f: int| 0 <= f < FORMS ==> (#[trigger] back@[f])@.len() == 64,
        forall|f: int, s: int|
            0 <= f < FORMS && 0 <= s < 64 ==> #[trigger] back@[f]@[s] == mapped(s, inverse(f)),
{
    let mut back: Vec<Vec<u8>> = Vec::new();
    let mut f: u8 = 0;
    while f < 8
        invariant
            f <= 8,
            back@.len() == f,
            forall|g: int| 0 <= g < f ==> (#[trigger] back@[g])@.len() == 64,
            forall|g: int, s: int|
                0 <= g < f && 0 <= s < 64 ==> #[trigger] back@[g]@[s] == mapped(s, inverse(g)),
        decreases 8 - f,
    {
        let i: u8 = inverse_form(f);
        let mut row: Vec<u8> = Vec::new();
        let mut s: u8 = 0;
        while s < 64
            invariant
                f < 8,
                i < 8,
                i == inverse(f as int),
                s <= 64,
                row@.len() == s,
                forall|q: int| 0 <= q < s ==> #[trigger] row@[q] == mapped(q, inverse(f as int)),
            decreases 64 - s,
        {
            row.push(map_square(s, i));
            s = s + 1;
        }
        back.push(row);
        f = f + 1;
    }
    back
}

/// What a form shows at a square is what the original shows at the square that
/// the maps name.
pub proof fn law_square_maps(b: u64, f: int, s: int)
    requires
        0 <= f < FORMS,
        0 <= s < 64,
    ensures
        bit(symmetry_of(b, f), s) == bit(b, mapped(s, inverse(f))),
{
    let t = mapped(s, inverse(f));
    lemma_mapped(s, inverse(f));
    lemma_inverse(s, f);
    lemma_mapped_bit(b, t, f);
}

/// The squares of the original that a mask reads on a form.
pub open spec fn form_mask(mask: Seq<u8>, f: int) -> Seq<u8> {
    Seq::new(mask.len(), |j: int| mapped(mask[j] as int, inverse(f)) as u8)
}

/// A mask's index on a form is the index of the mapped mask on the original.
pub proof fn law_form_index(mask: Seq<u8>, own: u64, opp: u64, f: int)
    requires
        0 <= f < FORMS,
        on_board(mask),
    ensures
        mask_value(mask, symmetry_of(own, f), symmetry_of(opp, f)) == mask_value(
            form_mask(mask, f),
            own,
            opp,
        ),
    decreases mask.len(),
{
    if mask.len() > 0 {
        let init = mask.drop_last();
        assert forall|i: int| 0 <= i < init.len() implies #[trigger] init[i] < 64 by {
            assert(mask[i] < 64);
        }
        law_form_index(init, own, opp, f);
        assert(form_mask(mask, f).drop_last() =~= form_mask(init, f));
        let s = mask.last() as int;
        assert(mask[mask.len() - 1] < 64);
        lemma_mapped(s, inverse(f));
        law_square_maps(own, f, s);
        law_square_maps(opp, f, s);
    }
}

/// How many squares the first `k` masks have.
pub open spec fn squares_before(masks: Seq<Seq<u8>>, k: int) -> int
    decreases k,
{
    if k <= 0 {
        0
    } else {
        squares_before(masks, k - 1) + masks[k - 1].len()
    }
}

/// Where the squares of mask `k` of form `f` start.
pub open spec fn slot_start(masks: Seq<Seq<u8>>, f: int, k: int) -> int {
    f * squares_before(masks, masks.len() as int) + squares_before(masks, k)
}

/// The masks of all forms, for the device.
#[derive(Debug)]
pub struct MaskTables {
    /// The squares of the masks, form by form.
    pub msq: Vec<u32>,
    /// For each form and mask where its squares start, times 256, and how many
    /// there are.
    pub mptr: Vec<u32>,
    /// For each mask where its shape's table starts.
    pub mbase: Vec<u32>,
}

proof fn lemma_squares(masks: Seq<Seq<u8>>, j: int, k: int)
    requires
        0 <= j <= k <= masks.len(),
        forall|m: int| 0 <= m < masks.len() ==> (#[trigger] masks[m]).len() <= 10,
    ensures
        0 <= squares_before(masks, j) <= squares_before(masks, k) <= 10 * k,
        j < k ==> squares_before(masks, j) + masks[j].len() <= squares_before(masks, k),
    decreases k,
{
    if j < k {
        lemma_squares(masks, j, k - 1);
        assert(masks[k - 1].len() <= 10);
    } else if j > 0 {
        lemma_squares(masks, j - 1, k - 1);
        assert(masks[k - 1].len() <= 10);
    }
}

/// The squares of one mask end before those of the next start.
proof fn lemma_slots(masks: Seq<Seq<u8>>, g: int, j: int, f: int, k: int)
    requires
        0 <= j < masks.len(),
        0 <= k <= masks.len(),
        forall|m: int| 0 <= m < masks.len() ==> (#[trigger] masks[m]).len() <= 10,
        masks.len() <= MAX_MASKS,
        0 <= g < f || (0 <= g == f && j < k),
        f <= FORMS,
    ensures
        0 <= slot_start(masks, g, j),
        slot_start(masks, g, j) + masks[j].len() <= slot_start(masks, f, k),
{
    let n = masks.len() as int;
    let all = squares_before(masks, n);
    lemma_squares(masks, j, n);
    lemma_squares(masks, 0, k);
    assert(0 <= g * all) by (nonlinear_arith)
        requires
            0 <= g,
            0 <= all,
    ;
    if g < f {
        lemma_squares(masks, j + 1, n);
        assert(g * all + all <= f * all) by (nonlinear_arith)
            requires
                g + 1 <= f,
                0 <= all,
        ;
    } else {
        lemma_squares(masks, j, k);
    }
}

/// The tables hold the masks of the first forms, and of form `f` the first `k`.
pub open spec fn holds_masks(masks: Seq<Seq<u8>>, f: int, k: int, msq: Seq<u32>, mptr: Seq<u32>) -> bool {
    let n = masks.len() as int;
    &&& msq.len() == slot_start(masks, f, k)
    &&& mptr.len() == f * n + k
    &&& forall|g: int, j: int|
        0 <= j < n && (0 <= g < f || (0 <= g == f && j < k)) ==> #[trigger] mptr[g * n + j] == 256
            * slot_start(masks, g, j) + masks[j].len()
    &&& forall|g: int, j: int, i: int|
        0 <= j < n && (0 <= g < f || (0 <= g == f && j < k)) && 0 <= i < masks[j].len()
            ==> #[trigger] msq[slot_start(masks, g, j) + i] == form_mask(masks[j], g)[i]
}

/// The tables of the masks of all forms.
pub fn mask_tables(ix: &PatternIndexer) -> (t: MaskTables)
    requires
        ix.wf(),
    ensures
        holds_masks(flat_masks(ix.patterns@), FORMS as int, 0, t.msq@, t.mptr@),
        t.mbase@.len() == flat_masks(ix.patterns@).len(),
        forall|k: int|
            0 <= k < t.mbase@.len() ==> #[trigger] t.mbase@[k] == table_start(
                ix.patterns@,
                flat_owners(ix.patterns@)[k],
            ),
{
    let back: Vec<Vec<u8>> = square_maps();
    let mbase: Vec<u32> = mask_starts(ix);
    let n: usize = ix.masks.len();
    let ghost masks = flat_masks(ix.patterns@);
    proof {
        assert forall|m: int| 0 <= m < masks.len() implies (#[trigger] masks[m]).len() <= 10 by {
            lemma_masks_ok(ix.patterns@, m);
        }
    }
    let mut msq: Vec<u32> = Vec::new();
    let mut mptr: Vec<u32> = Vec::new();
    let mut f: usize = 0;
    proof {
        assert(0 * squares_before(masks, n as int) == 0);
        assert(0 * (n as int) == 0);
        assert(holds_masks(masks, 0, 0, msq@, mptr@));
    }
    while f < FORMS
        invariant
            ix.wf(),
            n == ix.masks@.len(),
            masks == flat_masks(ix.patterns@),
            forall|m: int| 0 <= m < masks.len() ==> (#[trigger] masks[m]).len() <= 10,
            back@.len() == FORMS,
            forall|f: int| 0 <= f < FORMS ==> (#[trigger] back@[f])@.len() == 64,
            forall|f: int, s: int|
                0 <= f < FORMS && 0 <= s < 64 ==> #[trigger] back@[f]@[s] == mapped(s, inverse(f)),
            f <= FORMS,
            holds_masks(masks, f as int, 0, msq@, mptr@),
        decreases FORMS - f,
    {
        let mut k: usize = 0;
        while k < n
            invariant
                ix.wf(),
                n == ix.masks@.len(),
                masks == flat_masks(ix.patterns@),
                forall|m: int| 0 <= m < masks.len() ==> (#[trigger] masks[m]).len() <= 10,
                back@.len() == FORMS,
                forall|f: int| 0 <= f < FORMS ==> (#[trigger] back@[f])@.len() == 64,
                forall|f: int, s: int|
                    0 <= f < FORMS && 0 <= s < 64 ==> #[trigger] back@[f]@[s] == mapped(
                        s,
                        inverse(f),
                    ),
                f < FORMS,
                k <= n,
                holds_masks(masks, f as int, k as int, msq@, mptr@),
            decreases n - k,
        {
            let mask: &Vec<u8> = &ix.masks[k];
            let off: usize = msq.len();
            let ghost before = msq@;
            let ghost ptrs = mptr@;
            proof {
                assert(ix.masks@[k as int]@ == masks[k as int]);
                lemma_masks_ok(ix.patterns@, k as int);
                lemma_squares(masks, k as int, n as int);
                lemma_squares(masks, n as int, n as int);
                let all = squares_before(masks, n as int);
                assert(0 <= f * all <= 7 * 1280) by (nonlinear_arith)
                    requires
                        0 <= f <= 7,
                        0 <= all <= 1280,
                ;
            }
            let mut i: usize = 0;
            while i < mask.len()
                invariant
                    f < FORMS,
                    back@.len() == FORMS,
                    forall|f: int| 0 <= f < FORMS ==> (#[trigger] back@[f])@.len() == 64,
                    forall|f: int, s: int|
                        0 <= f < FORMS && 0 <= s < 64 ==> #[trigger] back@[f]@[s] == mapped(
                            s,
                            inverse(f),
                        ),
                    on_board(mask@),
                    off == before.len(),
                    i <= mask@.len(),
                    msq@.len() == off + i,
                    forall|q: int| 0 <= q < off ==> #[trigger] msq@[q] == before[q],
                    forall|q: int|
                        0 <= q < i ==> #[trigger] msq@[off + q] == form_mask(mask@, f as int)[q],
                decreases mask@.len() - i,
            {
                let s: usize = mask[i] as usize;
                assert(mask@[i as int] < 64);
                let x: u8 = back[f][s];
                proof {
                    assert(back@[f as int]@[s as int] == mapped(s as int, inverse(f as int)));
                    lemma_mapped(s as int, inverse(f as int));
                }
                msq.push(x as u32);
                i = i + 1;
            }
            mptr.push(256 * off as u32 + mask.len() as u32);
            proof {
                lemma_held(masks, f as int, k as int, before, ptrs, msq@, mptr@);
            }
            k = k + 1;
        }
        proof {
            lemma_next_form(masks, f as int, msq@, mptr@);
        }
        f = f + 1;
    }
    MaskTables { msq, mptr, mbase }
}

proof fn lemma_held(
    masks: Seq<Seq<u8>>,
    f: int,
    k: int,
    before: Seq<u32>,
    ptrs: Seq<u32>,
    msq: Seq<u32>,
    mptr: Seq<u32>,
)
    requires
        0 <= f < FORMS,
        0 <= k < masks.len() <= MAX_MASKS,
        forall|m: int| 0 <= m < masks.len() ==> (#[trigger] masks[m]).len() <= 10,
        holds_masks(masks, f, k, before, ptrs),
        msq.len() == before.len() + masks[k].len(),
        forall|q: int| 0 <= q < before.len() ==> #[trigger] msq[q] == before[q],
        forall|q: int|
            0 <= q < masks[k].len() ==> #[trigger] msq[before.len() + q] == form_mask(
                masks[k],
                f,
            )[q],
        mptr == ptrs.push(mptr.last()),
        mptr.last() == 256 * before.len() + masks[k].len(),
    ensures
        holds_masks(masks, f, k + 1, msq, mptr),
{
    let n = masks.len() as int;
    assert(squares_before(masks, k + 1) == squares_before(masks, k) + masks[k].len());
    assert forall|g: int, j: int|
        0 <= j < n && (0 <= g < f || (0 <= g == f && j < k + 1)) implies #[trigger] mptr[g * n + j]
        == 256 * slot_start(masks, g, j) + masks[j].len() by {
        if g == f && j == k {
        } else {
            assert(0 <= g * n + j < f * n + k) by (nonlinear_arith)
                requires
                    0 <= j < n,
                    0 <= k,
                    0 <= g,
                    g < f || (g == f && j < k),
            ;
            assert(mptr[g * n + j] == ptrs[g * n + j]);
        }
    }
    assert forall|g: int, j: int, i: int|
        0 <= j < n && (0 <= g < f || (0 <= g == f && j < k + 1)) && 0 <= i < masks[j].len() implies
        #[trigger] msq[slot_start(masks, g, j) + i] == form_mask(masks[j], g)[i] by {
        if g == f && j == k {
            assert(msq[before.len() + i] == form_mask(masks[k], f)[i]);
        } else {
            lemma_slots(masks, g, j, f, k);
            assert(msq[slot_start(masks, g, j) + i] == before[slot_start(masks, g, j) + i]);
        }
    }
}

proof fn lemma_next_form(masks: Seq<Seq<u8>>, f: int, msq: Seq<u32>, mptr: Seq<u32>)
    requires
        0 <= f < FORMS,
        holds_masks(masks, f, masks.len() as int, msq, mptr),
    ensures
        holds_masks(masks, f + 1, 0, msq, mptr),
{
    let n = masks.len() as int;
    let all = squares_before(masks, n);
    assert((f + 1) * all == f * all + all) by (nonlinear_arith);
    assert((f + 1) * n == f * n + n) by (nonlinear_arith);
}

/// A position with Black to move and what it is worth, as the bits of a 32-bit
/// floating-point number.
#[derive(Clone, Copy, Debug, PartialEq, Eq, Structural)]
pub struct Example {
    pub black: u64,
    pub white: u64,
    pub score: u32,
}

impl Example {
    /// The position.
    pub open spec fn shown(self) -> Board {
        Board {
            black: self.black,
            white: self.white,
            player: Color::Black,
            empty_count: (64 - count(self.black | self.white)) as u8,
        }
    }

    /// The position.
    pub fn board(&self) -> (b: Board)
        ensures
            b == self.shown(),
    {
        proof {
            lemma_count_bound(self.black | self.white, 64);
        }
        Board {
            black: self.black,
            white: self.white,
            player: Color::Black,
            empty_count: (64 - count_ones(self.black | self.white)) as u8,
        }
    }

    /// The words that are handed over: both sides, low half first, and the
    /// score.
    pub open spec fn words(self) -> Seq<u32> {
        seq![
            (self.black % 0x1_0000_0000) as u32,
            (self.black / 0x1_0000_0000) as u32,
            (self.white % 0x1_0000_0000) as u32,
            (self.white / 0x1_0000_0000) as u32,
            self.score,
        ]
    }
}

/// The words of those of the first `n` examples whose stage lies in the window.
pub open spec fn packed(examples: Seq<Example>, lo: int, hi: int, n: int) -> Seq<u32>
    decreases n,
{
    if n <= 0 {
        Seq::empty()
    } else if lo <= stage_of(examples[n - 1].shown()) <= hi {
        packed(examples, lo, hi, n - 1) + examples[n - 1].words()
    } else {
        packed(examples, lo, hi, n - 1)
    }
}

/// The words of the examples whose stage lies in the window, and how many
/// examples these are.
pub fn prepare(examples: &Vec<Example>, lo: usize, hi: usize) -> (r: (Vec<u32>, usize))
    ensures
        r.0@ == packed(examples@, lo as int, hi as int, examples@.len() as int),
        r.0@.len() == 5 * r.1,
{
    let mut words: Vec<u32> = Vec::new();
    let mut kept: usize = 0;
    let mut i: usize = 0;
    while i < examples.len()
        invariant
            i <= examples@.len(),
            kept <= i,
            words@ == packed(examples@, lo as int, hi as int, i as int),
            words@.len() == 5 * kept,
        decreases examples@.len() - i,
    {
        let e: Example = examples[i];
        let stage: usize = Evaluator::stage(&e.board());
        if lo <= stage && stage <= hi {
            let ghost before = words@;
            words.push((e.black % 0x1_0000_0000) as u32);
            words.push((e.black / 0x1_0000_0000) as u32);
            words.push((e.white % 0x1_0000_0000) as u32);
            words.push((e.white / 0x1_0000_0000) as u32);
            words.push(e.score);
            assert(words@ =~= before + e.words());
            kept = kept + 1;
        }
        i = i + 1;
    }
    (words, kept)
}

/// What is handed over for one step: the parameter block and the examples.
#[derive(Debug)]
pub struct Upload {
    pub params: Vec<u8>,
    pub examples: Vec<u8>,
    /// Rows of the batch: one for each example and form.
    pub rows: usize,
}

/// What is handed over for a batch; nothing, when no example's stage lies in the
/// window. `lr` is the bits of the learning rate.
pub fn upload(
    examples: &Vec<Example>,
    lo: usize,
    hi: usize,
    n_cells: u32,
    cells_per_row: u32,
    lr: u32,
) -> (u: Option<Upload>)
    requires
        examples@.len() <= 0x1000_0000,
    ensures
        ({
            let words = packed(examples@, lo as int, hi as int, examples@.len() as int);
            match u {
                None => words.len() == 0,
                Some(u) => {
                    &&& words.len() > 0
                    &&& u.rows == FORMS * (words.len() / 5)
                    &&& shows_words(u.examples@, words)
                    &&& shows_words(u.params@, seq![u.rows as u32, n_cells, cells_per_row, lr])
                },
            }
        }),
{
    let (words, kept): (Vec<u32>, usize) = prepare(examples, lo, hi);
    if kept == 0 {
        return None;
    }
    proof {
        lemma_packed(examples@, lo as int, hi as int, examples@.len() as int);
    }
    let rows: usize = FORMS * kept;
    let mut block: Vec<u32> = Vec::new();
    block.push(rows as u32);
    block.push(n_cells);
    block.push(cells_per_row);
    block.push(lr);
    assert(block@ =~= seq![rows as u32, n_cells, cells_per_row, lr]);
    Some(Upload { params: upload_of(&block), examples: upload_of(&words), rows })
}

proof fn lemma_packed(examples: Seq<Example>, lo: int, hi: int, n: int)
    requires
        0 <= n,
    ensures
        packed(examples, lo, hi, n).len() <= 5 * n,
    decreases n,
{
    if n > 0 {
        lemma_packed(examples, lo, hi, n - 1);
    }
}

/// How many of the first `n` examples have a stage in the window, both ends of it
/// included.
pub open spec fn in_window(examples: Seq<Example>, lo: int, hi: int, n: int) -> int
    decreases n,
{
    if n <= 0 {
        0
    } else {
        in_window(examples, lo, hi, n - 1) + if lo <= stage_of(examples[n - 1].shown()) <= hi {
            1int
        } else {
            0int
        }
    }
}

/// What is handed over are the words of the examples in the window, five for each, as
/// they stand: an example in it has its words behind those of the ones before it,
/// and one outside of it has none.
pub proof fn law_window_is_handed_over(examples: Seq<Example>, lo: int, hi: int, n: int, k: int)
    requires
        0 <= k < n <= examples.len(),
    ensures
        packed(examples, lo, hi, n).len() == 5 * in_window(examples, lo, hi, n),
        lo <= stage_of(examples[k].shown()) <= hi ==> {
            let at = 5 * in_window(examples, lo, hi, k);
            at + 5 <= packed(examples, lo, hi, n).len() && packed(examples, lo, hi, n).subrange(
                at,
                at + 5,
            ) == examples[k].words()
        },
        in_window(examples, lo, hi, k) >= 0,
    decreases n,
{
    let before = packed(examples, lo, hi, n - 1);
    let all = packed(examples, lo, hi, n);
    lemma_handed_over(examples, lo, hi, n - 1);
    lemma_handed_over(examples, lo, hi, n);
    lemma_handed_over(examples, lo, hi, k);
    if lo <= stage_of(examples[k].shown()) <= hi {
        let at = 5 * in_window(examples, lo, hi, k);
        if k < n - 1 {
            law_window_is_handed_over(examples, lo, hi, n - 1, k);
            assert(all.subrange(at, at + 5) =~= before.subrange(at, at + 5));
        } else {
            assert(all.subrange(at, at + 5) =~= examples[k].words());
        }
    }
}

proof fn lemma_handed_over(examples: Seq<Example>, lo: int, hi: int, n: int)
    ensures
        packed(examples, lo, hi, n).len() == 5 * in_window(examples, lo, hi, n),
        in_window(examples, lo, hi, n) >= 0,
    decreases n,
{
    if n > 0 {
        lemma_handed_over(examples, lo, hi, n - 1);
    }
}

} // verus!
