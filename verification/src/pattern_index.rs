//! Pattern indices kept up to date square by square.
//!
//! The indices of a position are held in absolute colours: digit 0 is black, 1
//! is white, 2 is empty. A move changes them by the squares that it changes,
//! whichever side moves. White's view of an index is the index with the digits
//! 0 and 1 exchanged.

use vstd::prelude::*;

use crate::bits::{bit, group_bits, test_bit};
use crate::board::{Board, lemma_wf_sides};
use crate::color::Color;
use crate::pattern::{Pattern, digit, first_mask, flat_masks, flat_owners, lemma_first_mask, lemma_mask_of_shape, lemma_mask_value_bound, lemma_pow3_mono, lemma_pow3_values, lemma_shape_of_mask, library_wf, mask_value, on_board, pow3, sum_first};
use crate::position::Position;

verus! {

/// Most masks that a library may have.
pub const MAX_MASKS: usize = 80;

/// A mask's index changes by a digit's change times `pow3` when the square
/// that owns this entry changes.
#[derive(Clone, Copy, Debug)]
pub struct UpdateEntry {
    pub mask: u16,
    pub pow3: u16,
}

/// The indices of a position, mask by mask.
#[derive(Clone, Copy, Debug)]
pub struct PatternIndices {
    pub idx: [u16; 80],
}

/// How much the mask's index grows when the digit of every square of `b` grows
/// by one.
pub open spec fn set_weight(mask: Seq<u8>, b: u64) -> int
    decreases mask.len(),
{
    if mask.len() == 0 {
        0
    } else {
        set_weight(mask.drop_last(), b) * 3 + (if bit(b, mask.last() as int) {
            1int
        } else {
            0int
        })
    }
}

/// How much the mask's index grows when the digit of square `s` grows by one.
pub open spec fn square_weight(mask: Seq<u8>, s: int) -> int
    decreases mask.len(),
{
    if mask.len() == 0 {
        0
    } else {
        square_weight(mask.drop_last(), s) * 3 + (if mask.last() == s {
            1int
        } else {
            0int
        })
    }
}

/// The powers of the entries of mask `m`, added up.
pub open spec fn entry_sum(entries: Seq<UpdateEntry>, m: int) -> int
    decreases entries.len(),
{
    if entries.len() == 0 {
        0
    } else {
        entry_sum(entries.drop_last(), m) + (if entries.last().mask == m {
            entries.last().pow3 as int
        } else {
            0
        })
    }
}

/// A sixteen-bit number after a change, modulo 65536.
pub open spec fn wrapped(x: int, delta: int) -> int {
    (x + delta) % 65536
}

/// The index with the digits 0 and 1 exchanged.
pub open spec fn swap_digits(index: nat, size: nat) -> nat
    decreases size,
{
    if size == 0 {
        0
    } else {
        let d = index % 3;
        let e = if d == 2 {
            2nat
        } else {
            (1 - d) as nat
        };
        swap_digits(index / 3, (size - 1) as nat) * 3 + e
    }
}

/// What the digit of a placed disc's square changes by, and what the digits of
/// turned discs change by.
pub open spec fn placed_change(mover: Color) -> int {
    mover.code() - 2
}

pub open spec fn turned_change(mover: Color) -> int {
    2 * mover.code() - 1
}

/// The digit of a square in absolute colours.
pub fn absolute_digit(black: u64, white: u64, sq: u8) -> (d: u16)
    requires
        sq < 64,
    ensures
        d == digit(black, white, sq as int),
{
    if test_bit(black, sq) {
        0
    } else if test_bit(white, sq) {
        1
    } else {
        2
    }
}

/// Exchange the digits 0 and 1 of an index.
pub(crate) fn exchanged(index: u32, size: usize) -> (e: u32)
    requires
        size <= 10,
    ensures
        e == swap_digits(index as nat, size as nat),
        e < pow3(size as nat),
    decreases size,
{
    if size == 0 {
        0
    } else {
        let d: u32 = index % 3;
        let rest: u32 = exchanged(index / 3, size - 1);
        proof {
            lemma_pow3_mono(size as nat, 10);
            lemma_pow3_values();
        }
        rest * 3 + (if d == 2 {
            2
        } else {
            1 - d
        })
    }
}

/// Exchanging the digits twice gives the index back.
pub proof fn lemma_swap_involution(index: nat, size: nat)
    requires
        index < pow3(size),
    ensures
        swap_digits(index, size) < pow3(size),
        swap_digits(swap_digits(index, size), size) == index,
    decreases size,
{
    if size > 0 {
        lemma_swap_involution(index / 3, (size - 1) as nat);
        let r = swap_digits(index / 3, (size - 1) as nat);
        let s = swap_digits(index, size);
        assert(s / 3 == r);
    }
}

/// White's view of an index is the index with the digits exchanged.
pub proof fn lemma_swap_is_other_view(mask: Seq<u8>, p: u64, o: u64)
    requires
        on_board(mask),
        p & o == 0,
    ensures
        swap_digits(mask_value(mask, p, o), mask.len()) == mask_value(mask, o, p),
    decreases mask.len(),
{
    broadcast use group_bits;

    if mask.len() > 0 {
        let init = mask.drop_last();
        lemma_swap_is_other_view(init, p, o);
        let s = mask.last() as int;
        assert(mask[mask.len() - 1] < 64);
        assert(bit(p & o, s) == (bit(p, s) && bit(o, s)));
        assert(!bit(0u64, s));
        let v = mask_value(init, p, o);
        let d = digit(p, o, s);
        assert((v * 3 + d) / 3 == v);
        assert((v * 3 + d) % 3 == d);
    }
}

/// Indices after a change of some digits.
pub proof fn lemma_value_change(
    mask: Seq<u8>,
    p1: u64,
    o1: u64,
    p2: u64,
    o2: u64,
    s: int,
    a: int,
    set: u64,
    c: int,
)
    requires
        on_board(mask),
        forall|q: int|
            0 <= q < 64 ==> #[trigger] digit(p2, o2, q) == digit(p1, o1, q) + (if q == s {
                a
            } else {
                0
            }) + (if bit(set, q) {
                c
            } else {
                0
            }),
    ensures
        mask_value(mask, p2, o2) == mask_value(mask, p1, o1) + a * square_weight(mask, s) + c
            * set_weight(mask, set),
    decreases mask.len(),
{
    if mask.len() > 0 {
        let init = mask.drop_last();
        lemma_value_change(init, p1, o1, p2, o2, s, a, set, c);
        let q = mask.last() as int;
        assert(mask[mask.len() - 1] < 64);
        assert(digit(p2, o2, q) == digit(p1, o1, q) + (if q == s {
            a
        } else {
            0
        }) + (if bit(set, q) {
            c
        } else {
            0
        }));
        let w = square_weight(init, s);
        let x = set_weight(init, set);
        let t: int = if q == s {
            1
        } else {
            0
        };
        let u: int = if bit(set, q) {
            1
        } else {
            0
        };
        assert(a * (w * 3 + t) == a * w * 3 + a * t) by (nonlinear_arith);
        assert(c * (x * 3 + u) == c * x * 3 + c * u) by (nonlinear_arith);
        assert(a * t == if q == s {
            a
        } else {
            0
        }) by (nonlinear_arith)
            requires
                t == if q == s {
                    1int
                } else {
                    0int
                },
        ;
        assert(c * u == if u == 1 {
            c
        } else {
            0
        }) by (nonlinear_arith)
            requires
                u == 0 || u == 1,
        ;
    } else {
        assert(a * 0 == 0) by (nonlinear_arith);
        assert(c * 0 == 0) by (nonlinear_arith);
    }
}

/// A square more in a set weighs its own weight more.
pub proof fn lemma_set_weight_insert(mask: Seq<u8>, rest: u64, s: int, b: u64)
    requires
        on_board(mask),
        !bit(rest, s),
        forall|i: int| 0 <= i < 64 ==> #[trigger] bit(b, i) == (bit(rest, i) || i == s),
    ensures
        set_weight(mask, b) == set_weight(mask, rest) + square_weight(mask, s),
    decreases mask.len(),
{
    if mask.len() > 0 {
        lemma_set_weight_insert(mask.drop_last(), rest, s, b);
        let q = mask.last() as int;
        assert(mask[mask.len() - 1] < 64);
        assert(bit(b, q) == (bit(rest, q) || q == s));
    }
}

/// Lookup tables of one library: which masks a square changes, and the indices
/// as White sees them.
#[derive(Debug)]
pub struct PatternIndexer {
    pub patterns: Vec<Pattern>,
    /// The masks of all shapes, one behind the other.
    pub masks: Vec<Vec<u8>>,
    /// For each mask the number of its shape.
    pub mask_pattern: Vec<u8>,
    /// The entries of square `s` start at `offsets[s]` and end before
    /// `offsets[s + 1]`.
    pub offsets: Vec<u32>,
    pub entries: Vec<UpdateEntry>,
    /// For each size the indices with the digits 0 and 1 exchanged; empty for
    /// sizes that no shape has.
    pub swap_tables: Vec<Vec<u16>>,
}

/// The library fits the tables: well-formed shapes, and not too many masks.
pub open spec fn indexable(patterns: Seq<Pattern>) -> bool {
    &&& library_wf(patterns)
    &&& patterns.len() <= 256
    &&& flat_masks(patterns).len() <= MAX_MASKS
}

/// Whether the library fits the tables.
pub fn is_indexable(patterns: &Vec<Pattern>) -> (fits: bool)
    ensures
        fits == indexable(patterns@),
{
    if patterns.len() > 256 {
        return false;
    }
    let mut masks: usize = 0;
    let mut k: usize = 0;
    proof {
        assert(patterns@.take(0) =~= Seq::empty());
        assert(patterns@.take(patterns@.len() as int) =~= patterns@);
    }
    while k < patterns.len()
        invariant
            patterns@.len() <= 256,
            k <= patterns@.len(),
            forall|j: int| 0 <= j < k ==> (#[trigger] patterns@[j]).wf(),
            masks == flat_masks(patterns@.take(k as int)).len(),
            masks <= MAX_MASKS,
            patterns@.take(patterns@.len() as int) == patterns@,
        decreases patterns@.len() - k,
    {
        let p: &Pattern = &patterns[k];
        if p.size > 10 {
            assert(!patterns@[k as int].wf());
            return false;
        }
        let mut i: usize = 0;
        while i < p.masks.len()
            invariant
                k < patterns@.len(),
                *p == patterns@[k as int],
                p.size <= 10,
                i <= p.masks@.len(),
                forall|q: int|
                    0 <= q < i ==> (#[trigger] p.masks@[q])@.len() == p.size && on_board(
                        p.masks@[q]@,
                    ),
            decreases p.masks@.len() - i,
        {
            let m: &Vec<u8> = &p.masks[i];
            if m.len() != p.size {
                assert(!patterns@[k as int].wf());
                return false;
            }
            let mut j: usize = 0;
            while j < m.len()
                invariant
                    k < patterns@.len(),
                    *p == patterns@[k as int],
                    i < p.masks@.len(),
                    *m == p.masks@[i as int],
                    j <= m@.len(),
                    forall|q: int| 0 <= q < j ==> #[trigger] m@[q] < 64,
                decreases m@.len() - j,
            {
                if m[j] >= 64 {
                    assert(!on_board(p.masks@[i as int]@));
                    assert(!patterns@[k as int].wf());
                    return false;
                }
                j = j + 1;
            }
            i = i + 1;
        }
        proof {
            assert(patterns@.take(k + 1).drop_last() =~= patterns@.take(k as int));
            lemma_flat_grows(patterns@, k + 1);
        }
        if p.masks.len() > MAX_MASKS - masks {
            return false;
        }
        masks = masks + p.masks.len();
        k = k + 1;
    }
    true
}

proof fn lemma_flat_grows(patterns: Seq<Pattern>, k: int)
    requires
        0 <= k <= patterns.len(),
    ensures
        flat_masks(patterns.take(k)).len() <= flat_masks(patterns).len(),
    decreases patterns.len(),
{
    if k < patterns.len() {
        lemma_flat_grows(patterns.drop_last(), k);
        assert(patterns.drop_last().take(k) =~= patterns.take(k));
    } else {
        assert(patterns.take(k) =~= patterns);
    }
}

/// The entries of square `s`.
pub open spec fn square_part(offsets: Seq<u32>, entries: Seq<UpdateEntry>, s: int) -> Seq<
    UpdateEntry,
> {
    entries.subrange(offsets[s] as int, offsets[s + 1] as int)
}

/// The part of the entries holds what square `s` adds to each mask.
pub open spec fn is_square_part(part: Seq<UpdateEntry>, masks: Seq<Vec<u8>>, s: int) -> bool {
    &&& forall|e: int| 0 <= e < part.len() ==> (#[trigger] part[e]).mask < masks.len()
    &&& forall|m: int|
        0 <= m < masks.len() ==> entry_sum(part, m) == square_weight(#[trigger] masks[m]@, s)
}

/// The table exchanges the digits of indices of the given size.
pub open spec fn is_swap_table(table: Seq<u16>, size: int) -> bool {
    forall|i: int|
        0 <= i < table.len() ==> #[trigger] table[i] == swap_digits(i as nat, size as nat)
}

impl PatternIndexer {
    /// The tables belong to the library.
    pub open spec fn wf(self) -> bool {
        &&& indexable(self.patterns@)
        &&& self.masks@.len() == flat_masks(self.patterns@).len()
        &&& forall|m: int|
            0 <= m < self.masks@.len() ==> (#[trigger] self.masks@[m])@ == flat_masks(
                self.patterns@,
            )[m]
        &&& self.mask_pattern@.len() == self.masks@.len()
        &&& forall|m: int|
            0 <= m < self.masks@.len() ==> #[trigger] self.mask_pattern@[m] == flat_owners(
                self.patterns@,
            )[m]
        &&& self.offsets@.len() == 65
        &&& forall|s: int|
            0 <= s < 64 ==> #[trigger] self.offsets@[s] <= self.offsets@[s + 1]
                <= self.entries@.len()
        &&& forall|s: int|
            0 <= s < 64 ==> is_square_part(
                #[trigger] square_part(self.offsets@, self.entries@, s),
                self.masks@,
                s,
            )
        &&& self.swap_tables@.len() == 11
        &&& forall|z: int|
            0 <= z < 11 ==> is_swap_table(#[trigger] self.swap_tables@[z]@, z)
        &&& forall|k: int|
            0 <= k < self.patterns@.len() ==> self.swap_tables@[(#[trigger] self.patterns@[k]).size as int]@.len()
                == pow3(self.patterns@[k].size as nat)
    }

    /// The index of each mask in the position with the given discs.
    pub open spec fn holds(self, indices: PatternIndices, black: u64, white: u64) -> bool {
        forall|m: int|
            0 <= m < self.masks@.len() ==> #[trigger] indices.idx@[m] == mask_value(
                self.masks@[m]@,
                black,
                white,
            )
    }
}

/// Every mask of a well-formed library has few squares, all on the board.
pub proof fn lemma_masks_ok(patterns: Seq<Pattern>, m: int)
    requires
        library_wf(patterns),
        0 <= m < flat_masks(patterns).len(),
    ensures
        on_board(flat_masks(patterns)[m]),
        flat_masks(patterns)[m].len() <= 10,
        flat_masks(patterns)[m].len() == patterns[flat_owners(patterns)[m]].size,
{
    lemma_shape_of_mask(patterns, m);
    let k = flat_owners(patterns)[m];
    assert(patterns[k].wf());
}

proof fn lemma_entry_sum_add(a: Seq<UpdateEntry>, b: Seq<UpdateEntry>, m: int)
    ensures
        entry_sum(a + b, m) == entry_sum(a, m) + entry_sum(b, m),
    decreases b.len(),
{
    if b.len() == 0 {
        assert(a + b =~= a);
    } else {
        lemma_entry_sum_add(a, b.drop_last(), m);
        assert((a + b).drop_last() =~= a + b.drop_last());
    }
}

proof fn lemma_entry_sum_other(a: Seq<UpdateEntry>, m: int)
    requires
        forall|e: int| 0 <= e < a.len() ==> (#[trigger] a[e]).mask != m,
    ensures
        entry_sum(a, m) == 0,
    decreases a.len(),
{
    if a.len() > 0 {
        assert(a[a.len() - 1].mask != m);
        lemma_entry_sum_other(a.drop_last(), m);
    }
}

/// Three to the power of `n`.
fn power(n: usize) -> (x: u16)
    requires
        n <= 10,
    ensures
        x == pow3(n as nat),
{
    let mut x: u16 = 1;
    let mut i: usize = 0;
    while i < n
        invariant
            i <= n <= 10,
            x == pow3(i as nat),
        decreases n - i,
    {
        proof {
            lemma_pow3_mono((i + 1) as nat, 10);
            lemma_pow3_values();
        }
        x = x * 3;
        i = i + 1;
    }
    x
}

/// Append the entries by which square `s` changes mask `m`.
fn push_mask(entries: &mut Vec<UpdateEntry>, mask: &Vec<u8>, m: u16, s: u8)
    requires
        on_board(mask@),
        mask@.len() <= 10,
    ensures
        final(entries)@.len() <= old(entries)@.len() + 10,
        old(entries)@.len() <= final(entries)@.len(),
        final(entries)@.take(old(entries)@.len() as int) == old(entries)@,
        forall|e: int|
            old(entries)@.len() <= e < final(entries)@.len() ==> (#[trigger] final(entries)@[e]).mask == m,
        entry_sum(final(entries)@.skip(old(entries)@.len() as int), m as int) == square_weight(
            mask@,
            s as int,
        ),
{
    let ghost before = entries@;
    let ghost n0 = entries@.len() as int;
    let n: usize = mask.len();
    let mut j: usize = 0;
    proof {
        assert(mask@.take(0) =~= Seq::empty());
        assert(entries@.skip(n0) =~= Seq::empty());
        assert(0 * pow3(n as nat) == 0) by (nonlinear_arith);
    }
    while j < n
        invariant
            n == mask@.len() <= 10,
            on_board(mask@),
            j <= n,
            n0 == before.len(),
            n0 <= entries@.len() <= n0 + j,
            entries@.take(n0) == before,
            forall|e: int| n0 <= e < entries@.len() ==> (#[trigger] entries@[e]).mask == m,
            entry_sum(entries@.skip(n0), m as int) == square_weight(
                mask@.take(j as int),
                s as int,
            ) * pow3((n - j) as nat),
        decreases n - j,
    {
        let ghost w = square_weight(mask@.take(j as int), s as int);
        let ghost x = pow3((n - j - 1) as nat) as int;
        proof {
            assert(mask@.take(j + 1).drop_last() =~= mask@.take(j as int));
            assert((w * 3) * x == w * (3 * x)) by (nonlinear_arith);
            assert((w * 3 + 1) * x == w * (3 * x) + x) by (nonlinear_arith);
        }
        if mask[j] == s {
            let ghost mid = entries@;
            entries.push(UpdateEntry { mask: m, pow3: power(n - 1 - j) });
            assert(entries@.skip(n0).drop_last() =~= mid.skip(n0));
            assert(entries@.take(n0) =~= mid.take(n0));
        }
        j = j + 1;
    }
    proof {
        assert(mask@.take(n as int) =~= mask@);
        let w = square_weight(mask@, s as int);
        assert(w * 1 == w) by (nonlinear_arith);
    }
}

/// Append the entries by which square `s` changes the masks.
fn push_square(entries: &mut Vec<UpdateEntry>, masks: &Vec<Vec<u8>>, s: u8)
    requires
        masks@.len() <= MAX_MASKS,
        forall|m: int|
            0 <= m < masks@.len() ==> on_board((#[trigger] masks@[m])@) && masks@[m]@.len() <= 10,
    ensures
        old(entries)@.len() <= final(entries)@.len() <= old(entries)@.len() + 10 * masks@.len(),
        final(entries)@.take(old(entries)@.len() as int) == old(entries)@,
        is_square_part(final(entries)@.skip(old(entries)@.len() as int), masks@, s as int),
{
    let ghost before = entries@;
    let ghost n0 = entries@.len() as int;
    let mut m: usize = 0;
    assert(entries@.skip(n0) =~= Seq::empty());
    while m < masks.len()
        invariant
            m <= masks@.len() <= MAX_MASKS,
            forall|k: int|
                0 <= k < masks@.len() ==> on_board((#[trigger] masks@[k])@) && masks@[k]@.len()
                    <= 10,
            n0 == before.len(),
            n0 <= entries@.len() <= n0 + 10 * m,
            entries@.take(n0) == before,
            forall|e: int| n0 <= e < entries@.len() ==> (#[trigger] entries@[e]).mask < m,
            forall|k: int|
                0 <= k < m ==> entry_sum(entries@.skip(n0), k) == square_weight(
                    #[trigger] masks@[k]@,
                    s as int,
                ),
        decreases masks@.len() - m,
    {
        let ghost mid = entries@;
        let ghost n1 = entries@.len() as int;
        push_mask(entries, &masks[m], m as u16, s);
        proof {
            let old_part = mid.skip(n0);
            let new_part = entries@.skip(n1);
            assert(entries@.take(n1) == mid);
            assert forall|e: int| n0 <= e < n1 implies #[trigger] entries@[e] == mid[e] by {
                assert(entries@.take(n1)[e] == mid[e]);
            }
            assert(entries@.skip(n0) =~= old_part + new_part);
            assert(entries@.take(n0) =~= before) by {
                assert forall|e: int| 0 <= e < n0 implies entries@[e] == before[e] by {
                    assert(entries@.take(n1)[e] == mid[e]);
                    assert(mid.take(n0)[e] == before[e]);
                }
            }
            assert forall|k: int| 0 <= k < m + 1 implies entry_sum(entries@.skip(n0), k)
                == square_weight(#[trigger] masks@[k]@, s as int) by {
                lemma_entry_sum_add(old_part, new_part, k);
                if k < m {
                    assert forall|e: int| 0 <= e < new_part.len() implies (
                    #[trigger] new_part[e]).mask != k by {
                        assert(new_part[e] == entries@[n1 + e]);
                    }
                    lemma_entry_sum_other(new_part, k);
                } else {
                    assert forall|e: int| 0 <= e < old_part.len() implies (
                    #[trigger] old_part[e]).mask != k by {
                        assert(old_part[e] == mid[n0 + e]);
                    }
                    lemma_entry_sum_other(old_part, k);
                }
            }
            assert forall|e: int| n0 <= e < entries@.len() implies (#[trigger] entries@[e]).mask < m
                + 1 by {
                if e < n1 {
                    assert(entries@[e] == mid[e]);
                }
            }
        }
        m = m + 1;
    }
    proof {
        let part = entries@.skip(n0);
        assert forall|e: int| 0 <= e < part.len() implies (#[trigger] part[e]).mask < masks@.len() by {
            assert(part[e] == entries@[n0 + e]);
        }
    }
}

/// A copy of a list of squares.
fn copied(mask: &Vec<u8>) -> (c: Vec<u8>)
    ensures
        c@ == mask@,
{
    let mut c: Vec<u8> = Vec::new();
    let mut j: usize = 0;
    while j < mask.len()
        invariant
            j <= mask@.len(),
            c@ == mask@.take(j as int),
        decreases mask@.len() - j,
    {
        c.push(mask[j]);
        j = j + 1;
        assert(c@ =~= mask@.take(j as int));
    }
    assert(c@ =~= mask@);
    c
}

/// The masks of a library one behind the other, each with the number of its
/// shape.
fn flattened(patterns: &Vec<Pattern>) -> (r: (Vec<Vec<u8>>, Vec<u8>))
    requires
        indexable(patterns@),
    ensures
        r.0@.len() == flat_masks(patterns@).len(),
        forall|m: int|
            0 <= m < r.0@.len() ==> (#[trigger] r.0@[m])@ == flat_masks(patterns@)[m],
        r.1@.len() == r.0@.len(),
        forall|m: int| 0 <= m < r.1@.len() ==> #[trigger] r.1@[m] == flat_owners(patterns@)[m],
{
    let mut masks: Vec<Vec<u8>> = Vec::new();
    let mut owners: Vec<u8> = Vec::new();
    let mut k: usize = 0;
    proof {
        if patterns@.len() > 0 {
            lemma_first_mask(patterns@, 0);
        }
    }
    while k < patterns.len()
        invariant
            indexable(patterns@),
            k <= patterns@.len(),
            masks@.len() == if patterns@.len() == 0 {
                0
            } else {
                first_mask(patterns@, k as int)
            },
            owners@.len() == masks@.len(),
            forall|m: int|
                0 <= m < masks@.len() ==> (#[trigger] masks@[m])@ == flat_masks(patterns@)[m],
            forall|m: int|
                0 <= m < owners@.len() ==> #[trigger] owners@[m] == flat_owners(patterns@)[m],
        decreases patterns@.len() - k,
    {
        let mut i: usize = 0;
        proof {
            lemma_first_mask(patterns@, k as int);
        }
        while i < patterns[k as usize].masks.len()
            invariant
                indexable(patterns@),
                k < patterns@.len(),
                i <= patterns@[k as int].masks@.len(),
                masks@.len() == first_mask(patterns@, k as int) + i,
                owners@.len() == masks@.len(),
                forall|m: int|
                    0 <= m < masks@.len() ==> (#[trigger] masks@[m])@ == flat_masks(patterns@)[m],
                forall|m: int|
                    0 <= m < owners@.len() ==> #[trigger] owners@[m] == flat_owners(patterns@)[m],
            decreases patterns@[k as int].masks@.len() - i,
        {
            proof {
                lemma_mask_of_shape(patterns@, k as int, i as int);
            }
            masks.push(copied(&patterns[k].masks[i]));
            owners.push(k as u8);
            i = i + 1;
        }
        k = k + 1;
    }
    proof {
        if patterns@.len() > 0 {
            lemma_first_mask(patterns@, 0);
        }
    }
    (masks, owners)
}

/// The table that exchanges the digits of the indices of a size.
fn swap_table(size: usize) -> (t: Vec<u16>)
    requires
        size <= 10,
    ensures
        t@.len() == pow3(size as nat),
        is_swap_table(t@, size as int),
{
    let n: u16 = power(size);
    let mut t: Vec<u16> = Vec::new();
    let mut i: u16 = 0;
    while i < n
        invariant
            size <= 10,
            n == pow3(size as nat),
            i <= n,
            t@.len() == i,
            is_swap_table(t@, size as int),
        decreases n - i,
    {
        proof {
            lemma_pow3_mono(size as nat, 10);
            lemma_pow3_values();
        }
        t.push(exchanged(i as u32, size) as u16);
        i = i + 1;
    }
    t
}

impl PatternIndexer {
    /// The tables of a library.
    pub fn new(patterns: Vec<Pattern>) -> (ix: PatternIndexer)
        requires
            indexable(patterns@),
        ensures
            ix.wf(),
            ix.patterns == patterns,
    {
        let (masks, mask_pattern) = flattened(&patterns);
        proof {
            assert forall|m: int| 0 <= m < masks@.len() implies on_board((#[trigger] masks@[m])@)
                && masks@[m]@.len() <= 10 by {
                lemma_masks_ok(patterns@, m);
            }
        }
        let mut offsets: Vec<u32> = Vec::new();
        let mut entries: Vec<UpdateEntry> = Vec::new();
        offsets.push(0);
        let mut s: u8 = 0;
        while s < 64
            invariant
                s <= 64,
                masks@.len() <= MAX_MASKS,
                forall|m: int|
                    0 <= m < masks@.len() ==> on_board((#[trigger] masks@[m])@) && masks@[m]@.len()
                        <= 10,
                entries@.len() <= 800 * s,
                offsets@.len() == s + 1,
                offsets@[s as int] == entries@.len(),
                forall|t: int|
                    0 <= t < s ==> #[trigger] offsets@[t] <= offsets@[t + 1] <= entries@.len(),
                forall|t: int|
                    0 <= t < s ==> is_square_part(
                        #[trigger] square_part(offsets@, entries@, t),
                        masks@,
                        t,
                    ),
            decreases 64 - s,
        {
            let ghost before = entries@;
            let ghost old_offsets = offsets@;
            push_square(&mut entries, &masks, s);
            offsets.push(entries.len() as u32);
            proof {
                let n0 = before.len() as int;
                assert forall|t: int| 0 <= t < s + 1 implies is_square_part(
                    #[trigger] square_part(offsets@, entries@, t),
                    masks@,
                    t,
                ) by {
                    if t < s {
                        assert(old_offsets[t] <= old_offsets[t + 1] <= before.len());
                        let part = square_part(offsets@, entries@, t);
                        assert(is_square_part(square_part(old_offsets, before, t), masks@, t));
                        assert(part =~= square_part(old_offsets, before, t)) by {
                            assert forall|e: int| 0 <= e < n0 implies entries@[e] == before[e] by {
                                assert(entries@.take(n0)[e] == before[e]);
                            }
                        }
                    } else {
                        assert(square_part(offsets@, entries@, t) =~= entries@.skip(n0));
                    }
                }
                assert forall|t: int| 0 <= t < s + 1 implies #[trigger] offsets@[t] <= offsets@[t
                    + 1] <= entries@.len() by {
                    if t < s {
                        assert(old_offsets[t] <= old_offsets[t + 1] <= before.len());
                    }
                }
            }
            s = s + 1;
        }
        let mut swap_tables: Vec<Vec<u16>> = Vec::new();
        let mut z: usize = 0;
        while z < 11
            invariant
                z <= 11,
                swap_tables@.len() == z,
                forall|y: int| 0 <= y < z ==> (#[trigger] swap_tables@[y])@.len() == 0,
            decreases 11 - z,
        {
            swap_tables.push(Vec::new());
            z = z + 1;
        }
        let mut k: usize = 0;
        while k < patterns.len()
            invariant
                indexable(patterns@),
                k <= patterns@.len(),
                swap_tables@.len() == 11,
                forall|y: int| 0 <= y < 11 ==> is_swap_table(#[trigger] swap_tables@[y]@, y),
                forall|y: int|
                    0 <= y < 11 ==> (#[trigger] swap_tables@[y])@.len() == 0 || swap_tables@[y]@.len()
                        == pow3(y as nat),
                forall|j: int|
                    0 <= j < k ==> swap_tables@[(#[trigger] patterns@[j]).size as int]@.len()
                        == pow3(patterns@[j].size as nat),
            decreases patterns@.len() - k,
        {
            assert(patterns@[k as int].wf());
            let size: usize = patterns[k].size;
            if swap_tables[size].is_empty() {
                let ghost old_tables = swap_tables@;
                swap_tables.set(size, swap_table(size));
                assert forall|j: int| 0 <= j < k implies swap_tables@[(
                #[trigger] patterns@[j]).size as int]@.len() == pow3(
                    patterns@[j].size as nat,
                ) by {
                    assert(old_tables[patterns@[j].size as int]@.len() == pow3(
                        patterns@[j].size as nat,
                    ));
                    assert(patterns@[j].wf());
                }
            }
            k = k + 1;
        }
        PatternIndexer { patterns, masks, mask_pattern, offsets, entries, swap_tables }
    }

    /// The library.
    pub fn patterns(&self) -> (p: &Vec<Pattern>)
        ensures
            *p == self.patterns,
    {
        &self.patterns
    }

    /// For each mask the number of its shape.
    pub fn mask_patterns(&self) -> (v: &Vec<u8>)
        ensures
            *v == self.mask_pattern,
    {
        &self.mask_pattern
    }

    /// How many masks there are.
    pub fn n_masks(&self) -> (n: usize)
        ensures
            n == self.masks@.len(),
    {
        self.masks.len()
    }

    /// The indices of the position with the given discs.
    pub fn init(&self, black: u64, white: u64) -> (indices: PatternIndices)
        requires
            self.wf(),
        ensures
            self.holds(indices, black, white),
            forall|m: int|
                self.masks@.len() <= m < MAX_MASKS ==> #[trigger] indices.idx@[m] == 0,
    {
        let mut idx: [u16; 80] = [0;80];
        let mut m: usize = 0;
        while m < self.masks.len()
            invariant
                self.wf(),
                m <= self.masks@.len() <= MAX_MASKS,
                idx@.len() == MAX_MASKS,
                forall|k: int|
                    0 <= k < m ==> #[trigger] idx@[k] == mask_value(
                        self.masks@[k]@,
                        black,
                        white,
                    ),
                forall|k: int| m <= k < MAX_MASKS ==> #[trigger] idx@[k] == 0,
            decreases self.masks@.len() - m,
        {
            proof {
                lemma_masks_ok(self.patterns@, m as int);
            }
            let mask: &Vec<u8> = &self.masks[m];
            let mut index: u16 = 0;
            let mut j: usize = 0;
            assert(mask@.take(0) =~= Seq::empty());
            while j < mask.len()
                invariant
                    on_board(mask@),
                    j <= mask@.len() <= 10,
                    index == mask_value(mask@.take(j as int), black, white),
                decreases mask@.len() - j,
            {
                proof {
                    assert(mask@.take(j + 1).drop_last() =~= mask@.take(j as int));
                    lemma_mask_value_bound(mask@.take(j + 1), black, white);
                    lemma_pow3_mono((j + 1) as nat, 10);
                    lemma_pow3_values();
                }
                index = index * 3 + absolute_digit(black, white, mask[j]);
                j = j + 1;
            }
            assert(mask@.take(j as int) =~= mask@);
            idx[m] = index;
            m = m + 1;
        }
        PatternIndices { idx }
    }

    /// The index that White sees where mask `m` has index `idx`.
    pub fn swapped_index(&self, m: usize, idx: usize) -> (e: usize)
        requires
            self.wf(),
            m < self.masks@.len(),
            idx < pow3(self.masks@[m as int]@.len()),
        ensures
            e == swap_digits(idx as nat, self.masks@[m as int]@.len()),
            e < pow3(self.masks@[m as int]@.len()),
    {
        proof {
            lemma_masks_ok(self.patterns@, m as int);
            lemma_shape_of_mask(self.patterns@, m as int);
            lemma_swap_involution(idx as nat, self.masks@[m as int]@.len());
            let k = flat_owners(self.patterns@)[m as int];
            assert(self.mask_pattern@[m as int] == k);
            assert(self.patterns@[k].size == self.masks@[m as int]@.len());
        }
        let k: usize = self.mask_pattern[m] as usize;
        let table: &Vec<u16> = &self.swap_tables[self.patterns[k].size];
        table[idx] as usize
    }
}

/// Two changes one after the other.
proof fn lemma_wrapped_twice(x: int, a: int, b: int)
    ensures
        wrapped(wrapped(x, a), b) == wrapped(x, a + b),
{
}

/// One sixteen-bit step: a change of a digit times a power.
proof fn lemma_wrapping_step(x: u16, change: int, word: u16, p: u16)
    requires
        -2 <= change <= 2,
        word == change % 65536,
    ensures
        x.wrapping_add(word.wrapping_mul(p)) == wrapped(x as int, change * p),
{
    let q = p as int;
    if change == -2 {
        assert(word as int * q == -2 * q + 65536 * q) by (nonlinear_arith)
            requires
                word == 65534,
        ;
    } else if change == -1 {
        assert(word as int * q == -1 * q + 65536 * q) by (nonlinear_arith)
            requires
                word == 65535,
        ;
    } else {
        assert(word as int * q == change * q) by (nonlinear_arith)
            requires
                word == change,
        ;
    }
}

impl PatternIndexer {
    /// Square `sq`'s digit changes by `change`, given as a sixteen-bit word.
    fn update_square(
        &self,
        indices: &mut PatternIndices,
        sq: u8,
        digit_diff: u16,
        Ghost(change): Ghost<int>,
    )
        requires
            self.wf(),
            sq < 64,
            -2 <= change <= 2,
            digit_diff == change % 65536,
        ensures
            forall|m: int|
                0 <= m < self.masks@.len() ==> #[trigger] final(indices).idx@[m] == wrapped(
                    old(indices).idx@[m] as int,
                    change * square_weight(self.masks@[m]@, sq as int),
                ),
            forall|m: int|
                self.masks@.len() <= m < MAX_MASKS ==> #[trigger] final(indices).idx@[m] == old(
                    indices,
                ).idx@[m],
    {
        let ghost before = indices.idx@;
        let ghost part = square_part(self.offsets@, self.entries@, sq as int);
        assert(self.offsets@[sq as int] <= self.offsets@[sq + 1] <= self.entries@.len());
        assert(is_square_part(part, self.masks@, sq as int));
        let start: usize = self.offsets[sq as usize] as usize;
        let end: usize = self.offsets[sq as usize + 1] as usize;
        let mut e: usize = start;
        assert(part.take(0) =~= Seq::empty());
        assert(change * 0 == 0) by (nonlinear_arith);
        while e < end
            invariant
                self.wf(),
                before == old(indices).idx@,
                before.len() == MAX_MASKS,
                indices.idx@.len() == MAX_MASKS,
                -2 <= change <= 2,
                digit_diff == change % 65536,
                start <= e <= end <= self.entries@.len(),
                part == self.entries@.subrange(start as int, end as int),
                is_square_part(part, self.masks@, sq as int),
                forall|m: int|
                    0 <= m < self.masks@.len() ==> #[trigger] indices.idx@[m] == wrapped(
                        before[m] as int,
                        change * entry_sum(part.take(e - start), m),
                    ),
                forall|m: int|
                    self.masks@.len() <= m < MAX_MASKS ==> #[trigger] indices.idx@[m] == before[m],
            decreases end - e,
        {
            let entry: UpdateEntry = self.entries[e];
            let ghost k = e - start;
            proof {
                assert(part[k] == entry);
                assert(part.take(k + 1).drop_last() =~= part.take(k));
                lemma_wrapping_step(
                    indices.idx@[entry.mask as int],
                    change,
                    digit_diff,
                    entry.pow3,
                );
            }
            let slot: usize = entry.mask as usize;
            let ghost mid = indices.idx@;
            indices.idx[slot] = indices.idx[slot].wrapping_add(digit_diff.wrapping_mul(entry.pow3));
            proof {
                assert forall|m: int| 0 <= m < self.masks@.len() implies #[trigger] indices.idx@[m]
                    == wrapped(before[m] as int, change * entry_sum(part.take(k + 1), m)) by {
                    let x = entry_sum(part.take(k), m);
                    let y = entry.pow3 as int;
                    assert(mid[m] == wrapped(before[m] as int, change * x));
                    if m == slot {
                        assert(change * (x + y) == change * x + change * y) by (nonlinear_arith);
                        lemma_wrapped_twice(before[m] as int, change * x, change * y);
                    }
                }
            }
            e = e + 1;
        }
        assert(part.take(end - start) =~= part);
    }

    /// Several squares' digits change by `change`.
    fn update_set(
        &self,
        indices: &mut PatternIndices,
        set: u64,
        digit_diff: u16,
        Ghost(change): Ghost<int>,
    )
        requires
            self.wf(),
            -2 <= change <= 2,
            digit_diff == change % 65536,
        ensures
            forall|m: int|
                0 <= m < self.masks@.len() ==> #[trigger] final(indices).idx@[m] == wrapped(
                    old(indices).idx@[m] as int,
                    change * set_weight(self.masks@[m]@, set),
                ),
            forall|m: int|
                self.masks@.len() <= m < MAX_MASKS ==> #[trigger] final(indices).idx@[m] == old(
                    indices,
                ).idx@[m],
    {
        broadcast use group_bits;

        let ghost before = indices.idx@;
        let ghost mut done: u64 = 0;
        let mut i: u8 = 0;
        proof {
            assert forall|m: int| 0 <= m < self.masks@.len() implies #[trigger] indices.idx@[m]
                == wrapped(before[m] as int, change * set_weight(self.masks@[m]@, 0)) by {
                lemma_masks_ok(self.patterns@, m);
                lemma_set_weight_empty(self.masks@[m]@);
                assert(change * 0 == 0) by (nonlinear_arith);
            }
        }
        while i < 64
            invariant
                self.wf(),
                before == old(indices).idx@,
                before.len() == MAX_MASKS,
                -2 <= change <= 2,
                digit_diff == change % 65536,
                i <= 64,
                forall|q: int| 0 <= q < 64 ==> #[trigger] bit(done, q) == (q < i && bit(set, q)),
                forall|m: int|
                    0 <= m < self.masks@.len() ==> #[trigger] indices.idx@[m] == wrapped(
                        before[m] as int,
                        change * set_weight(self.masks@[m]@, done),
                    ),
                forall|m: int|
                    self.masks@.len() <= m < MAX_MASKS ==> #[trigger] indices.idx@[m] == before[m],
            decreases 64 - i,
        {
            if test_bit(set, i) {
                let ghost mid = indices.idx@;
                let ghost next = done | (1u64 << (i as u64));
                self.update_square(indices, i, digit_diff, Ghost(change));
                proof {
                    broadcast use group_bits;

                    assert forall|q: int| 0 <= q < 64 implies #[trigger] bit(next, q) == (bit(
                        done,
                        q,
                    ) || q == i) by {}
                    assert(!bit(done, i as int));
                    assert forall|m: int| 0 <= m < self.masks@.len() implies
                        #[trigger] indices.idx@[m] == wrapped(
                        before[m] as int,
                        change * set_weight(self.masks@[m]@, next),
                    ) by {
                        lemma_masks_ok(self.patterns@, m);
                        lemma_set_weight_insert(self.masks@[m]@, done, i as int, next);
                        let x = set_weight(self.masks@[m]@, done);
                        let y = square_weight(self.masks@[m]@, i as int);
                        assert(change * (x + y) == change * x + change * y) by (nonlinear_arith);
                        assert(mid[m] == wrapped(before[m] as int, change * x));
                        lemma_wrapped_twice(before[m] as int, change * x, change * y);
                    }
                    done = next;
                }
            }
            i = i + 1;
        }
        proof {
            assert forall|q: int| 0 <= q < 64 implies bit(done, q) == bit(set, q) by {}
            crate::bits::lemma_bit_ext(done, set);
        }
    }

    /// The indices after `mover` has placed a disc on `pos` and turned
    /// `flipped`, modulo 65536.
    pub fn apply(&self, indices: &mut PatternIndices, pos: Position, flipped: u64, mover: Color)
        requires
            self.wf(),
            pos.wf(),
        ensures
            forall|m: int|
                0 <= m < self.masks@.len() ==> #[trigger] final(indices).idx@[m] == wrapped(
                    old(indices).idx@[m] as int,
                    self.change(m, pos, flipped, mover),
                ),
            forall|m: int|
                self.masks@.len() <= m < MAX_MASKS ==> #[trigger] final(indices).idx@[m] == old(
                    indices,
                ).idx@[m],
    {
        let mover_digit: u16 = mover.index() as u16;
        let ghost before = indices.idx@;
        self.update_square(
            indices,
            pos.index(),
            mover_digit.wrapping_sub(2),
            Ghost(placed_change(mover)),
        );
        let ghost mid = indices.idx@;
        let flip_diff: u16 = mover_digit.wrapping_sub(1 - mover_digit);
        self.update_set(indices, flipped, flip_diff, Ghost(turned_change(mover)));
        proof {
            assert forall|m: int| 0 <= m < self.masks@.len() implies #[trigger] indices.idx@[m]
                == wrapped(before[m] as int, self.change(m, pos, flipped, mover)) by {
                let a = placed_change(mover) * square_weight(self.masks@[m]@, pos.0 as int);
                let b = turned_change(mover) * set_weight(self.masks@[m]@, flipped);
                assert(mid[m] == wrapped(before[m] as int, a));
                lemma_wrapped_twice(before[m] as int, a, b);
            }
        }
    }

    /// The indices before `mover` placed a disc on `pos` and turned `flipped`,
    /// modulo 65536.
    pub fn undo(&self, indices: &mut PatternIndices, pos: Position, flipped: u64, mover: Color)
        requires
            self.wf(),
            pos.wf(),
        ensures
            forall|m: int|
                0 <= m < self.masks@.len() ==> #[trigger] final(indices).idx@[m] == wrapped(
                    old(indices).idx@[m] as int,
                    -self.change(m, pos, flipped, mover),
                ),
            forall|m: int|
                self.masks@.len() <= m < MAX_MASKS ==> #[trigger] final(indices).idx@[m] == old(
                    indices,
                ).idx@[m],
    {
        let mover_digit: u16 = mover.index() as u16;
        let ghost before = indices.idx@;
        self.update_square(
            indices,
            pos.index(),
            2u16.wrapping_sub(mover_digit),
            Ghost(-placed_change(mover)),
        );
        let ghost mid = indices.idx@;
        let flip_diff: u16 = (1 - mover_digit).wrapping_sub(mover_digit);
        self.update_set(indices, flipped, flip_diff, Ghost(-turned_change(mover)));
        proof {
            assert forall|m: int| 0 <= m < self.masks@.len() implies #[trigger] indices.idx@[m]
                == wrapped(before[m] as int, -self.change(m, pos, flipped, mover)) by {
                let x = square_weight(self.masks@[m]@, pos.0 as int);
                let y = set_weight(self.masks@[m]@, flipped);
                let c = placed_change(mover);
                let d = turned_change(mover);
                assert((-c) * x == -(c * x)) by (nonlinear_arith);
                assert((-d) * y == -(d * y)) by (nonlinear_arith);
                assert(mid[m] == wrapped(before[m] as int, (-c) * x));
                lemma_wrapped_twice(before[m] as int, (-c) * x, (-d) * y);
            }
        }
    }

    /// What a move changes the index of mask `m` by.
    pub open spec fn change(self, m: int, pos: Position, flipped: u64, mover: Color) -> int {
        placed_change(mover) * square_weight(self.masks@[m]@, pos.0 as int) + turned_change(mover)
            * set_weight(self.masks@[m]@, flipped)
    }

    /// The sum of the bytes that the indices select; `mask_off[m]` is the start
    /// of mask `m`'s table.
    pub fn eval_sum_i8(&self, indices: &PatternIndices, flat: &[i8], mask_off: &[u32]) -> (sum: i32)
        requires
            self.wf(),
            mask_off@.len() >= self.masks@.len(),
            forall|m: int|
                0 <= m < self.masks@.len() ==> #[trigger] mask_off@[m] + indices.idx@[m]
                    < flat@.len(),
        ensures
            sum == sum_first(
                Seq::new(
                    self.masks@.len(),
                    |m: int| flat@[mask_off@[m] + indices.idx@[m]] as int,
                ),
                self.masks@.len() as int,
            ),
    {
        let ghost values = Seq::new(
            self.masks@.len(),
            |m: int| flat@[mask_off@[m] + indices.idx@[m]] as int,
        );
        let n: usize = flat.len();
        let mut sum: i32 = 0;
        let mut m: usize = 0;
        while m < self.masks.len()
            invariant
                self.wf(),
                mask_off@.len() >= self.masks@.len(),
                forall|m: int|
                    0 <= m < self.masks@.len() ==> #[trigger] mask_off@[m] + indices.idx@[m]
                        < flat@.len(),
                values == Seq::new(
                    self.masks@.len(),
                    |m: int| flat@[mask_off@[m] + indices.idx@[m]] as int,
                ),
                n == flat@.len(),
                m <= self.masks@.len(),
                sum == sum_first(values, m as int),
                -128 * m <= sum <= 128 * m,
            decreases self.masks@.len() - m,
        {
            assert(mask_off@[m as int] + indices.idx@[m as int] < flat@.len());
            let at: usize = mask_off[m] as usize + indices.idx[m] as usize;
            sum = sum + flat[at] as i32;
            m = m + 1;
        }
        sum
    }

    /// The sum of the words that the indices select; `mask_off[m]` is the
    /// start of mask `m`'s table.
    pub fn eval_sum_i16(&self, indices: &PatternIndices, flat: &[i16], mask_off: &[u32]) -> (sum:
        i32)
        requires
            self.wf(),
            mask_off@.len() >= self.masks@.len(),
            forall|m: int|
                0 <= m < self.masks@.len() ==> #[trigger] mask_off@[m] + indices.idx@[m]
                    < flat@.len(),
        ensures
            sum == sum_first(
                Seq::new(
                    self.masks@.len(),
                    |m: int| flat@[mask_off@[m] + indices.idx@[m]] as int,
                ),
                self.masks@.len() as int,
            ),
    {
        let ghost values = Seq::new(
            self.masks@.len(),
            |m: int| flat@[mask_off@[m] + indices.idx@[m]] as int,
        );
        let n: usize = flat.len();
        let mut sum: i32 = 0;
        let mut m: usize = 0;
        while m < self.masks.len()
            invariant
                self.wf(),
                mask_off@.len() >= self.masks@.len(),
                forall|m: int|
                    0 <= m < self.masks@.len() ==> #[trigger] mask_off@[m] + indices.idx@[m]
                        < flat@.len(),
                values == Seq::new(
                    self.masks@.len(),
                    |m: int| flat@[mask_off@[m] + indices.idx@[m]] as int,
                ),
                n == flat@.len(),
                m <= self.masks@.len(),
                sum == sum_first(values, m as int),
                -32768 * m <= sum <= 32768 * m,
            decreases self.masks@.len() - m,
        {
            assert(mask_off@[m as int] + indices.idx@[m as int] < flat@.len());
            let at: usize = mask_off[m] as usize + indices.idx[m] as usize;
            sum = sum + flat[at] as i32;
            m = m + 1;
        }
        sum
    }
}

proof fn lemma_set_weight_empty(mask: Seq<u8>)
    requires
        on_board(mask),
    ensures
        set_weight(mask, 0) == 0,
    decreases mask.len(),
{
    broadcast use group_bits;

    if mask.len() > 0 {
        assert(mask[mask.len() - 1] < 64);
        lemma_set_weight_empty(mask.drop_last());
    }
}

/// The indices kept up to date over a move are the indices of the new
/// position.
pub proof fn law_apply_tracks(ix: PatternIndexer, b: Board, pos: Position, flipped: u64, m: int)
    requires
        ix.wf(),
        b.wf(),
        pos.wf(),
        b.vacant(pos.0 as int),
        flipped & b.opp() == flipped,
        0 <= m < ix.masks@.len(),
    ensures
        ({
            let c = b.placed(pos.0 as int, flipped);
            wrapped(
                mask_value(ix.masks@[m]@, b.black, b.white) as int,
                ix.change(m, pos, flipped, b.player),
            ) == mask_value(ix.masks@[m]@, c.black, c.white)
        }),
{
    broadcast use group_bits;

    let c = b.placed(pos.0 as int, flipped);
    let s = pos.0 as int;
    let mask = ix.masks@[m]@;
    lemma_masks_ok(ix.patterns@, m);
    lemma_wf_sides(b);
    let single = 1u64 << (s as u64);
    assert forall|q: int| 0 <= q < 64 implies #[trigger] digit(c.black, c.white, q) == digit(
        b.black,
        b.white,
        q,
    ) + (if q == s {
        placed_change(b.player)
    } else {
        0
    }) + (if bit(flipped, q) {
        turned_change(b.player)
    } else {
        0
    }) by {
        assert(bit(flipped & b.opp(), q) == (bit(flipped, q) && bit(b.opp(), q)));
        assert(!(bit(b.own(), q) && bit(b.opp(), q)));
        assert(bit(single, q) == (q == s));
        assert(bit(b.opp() & !flipped, q) == (bit(b.opp(), q) && bit(!flipped, q)));
        assert(bit(b.own() | flipped | single, q) == (bit(b.own() | flipped, q) || bit(single, q)));
        assert(bit(b.own() | flipped, q) == (bit(b.own(), q) || bit(flipped, q)));
    }
    lemma_value_change(
        mask,
        b.black,
        b.white,
        c.black,
        c.white,
        s,
        placed_change(b.player),
        flipped,
        turned_change(b.player),
    );
    lemma_mask_value_bound(mask, c.black, c.white);
    lemma_pow3_mono(mask.len(), 10);
    lemma_pow3_values();
}

/// Taking a move back gives the indices before it.
pub proof fn law_undo_restores(x: u16, delta: int)
    ensures
        wrapped(wrapped(x as int, delta), -delta) == x,
{
    lemma_wrapped_twice(x as int, delta, -delta);
}

} // verus!
