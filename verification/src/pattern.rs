//! Patterns: shapes on the board whose contents, read as a number in base
//! three, select a weight.
//!
//! A pattern has several masks, one for each orientation. A mask is an ordered
//! list of squares; its index has one digit for each of them, the first square
//! first: 0 for a disc of the side to move, 1 for one of the other side, 2
//! for none.

use vstd::prelude::*;

use crate::bits::{bit, test_bit};
use crate::color::Color;

pub mod library;
pub mod sq;

pub use library::{compact_patterns, edax_patterns, egaroucid_patterns, egaroucid_plus_patterns, nnue_patterns, wide8_patterns};

use library::{is_edax, is_egaroucid};

verus! {

/// A shape: `size` squares for each mask, one mask for each orientation.
#[derive(Debug, Clone)]
pub struct Pattern {
    pub name: &'static str,
    pub size: usize,
    pub masks: Vec<Vec<u8>>,
}

/// Three to the power of `n`.
pub open spec fn pow3(n: nat) -> nat
    decreases n,
{
    if n == 0 {
        1
    } else {
        3 * pow3((n - 1) as nat)
    }
}

/// What square `s` shows: 0 for a disc of `p`, 1 for one of `o`, 2 for none.
pub open spec fn digit(p: u64, o: u64, s: int) -> nat {
    if bit(p, s) {
        0
    } else if bit(o, s) {
        1
    } else {
        2
    }
}

/// The mask's index: the digits of its squares, the first one first.
pub open spec fn mask_value(mask: Seq<u8>, p: u64, o: u64) -> nat
    decreases mask.len(),
{
    if mask.len() == 0 {
        0
    } else {
        mask_value(mask.drop_last(), p, o) * 3 + digit(p, o, mask.last() as int)
    }
}

/// Every entry is a square of the board.
pub open spec fn on_board(mask: Seq<u8>) -> bool {
    forall|i: int| 0 <= i < mask.len() ==> #[trigger] mask[i] < 64
}

/// The discs of a side.
pub open spec fn side(black: u64, white: u64, c: Color) -> u64 {
    match c {
        Color::Black => black,
        Color::White => white,
    }
}

/// Powers of three grow.
pub proof fn lemma_pow3_mono(a: nat, b: nat)
    requires
        a <= b,
    ensures
        0 < pow3(a) <= pow3(b),
    decreases b,
{
    if b == 0 {
    } else if a < b {
        lemma_pow3_mono(a, (b - 1) as nat);
    } else {
        lemma_pow3_mono((a - 1) as nat, (b - 1) as nat);
    }
}

/// Powers of three that matter here.
pub proof fn lemma_pow3_values()
    ensures
        pow3(10) == 59049,
        pow3(20) == 3486784401,
{
    reveal_with_fuel(pow3, 21);
}

/// An index lies within its pattern's table.
pub proof fn lemma_mask_value_bound(mask: Seq<u8>, p: u64, o: u64)
    ensures
        mask_value(mask, p, o) < pow3(mask.len()),
    decreases mask.len(),
{
    if mask.len() > 0 {
        lemma_mask_value_bound(mask.drop_last(), p, o);
    }
}

impl Pattern {
    /// At most ten squares; each mask has as many squares as the shape.
    pub open spec fn wf(self) -> bool {
        &&& self.size <= 10
        &&& forall|i: int|
            0 <= i < self.masks@.len() ==> (#[trigger] self.masks@[i])@.len() == self.size
                && on_board(self.masks@[i]@)
    }

    /// The pattern has the given name and masks.
    pub open spec fn shows<const N: usize, const M: usize>(
        self,
        name: Seq<char>,
        masks: [[u8; N]; M],
    ) -> bool {
        &&& self.name@ == name
        &&& self.size == N
        &&& self.masks@.len() == M
        &&& forall|i: int| 0 <= i < M ==> (#[trigger] self.masks@[i])@ == masks@[i]@
    }

    /// Entries of the pattern's weight table.
    pub fn table_size(&self) -> (n: usize)
        requires
            self.size <= 20,
        ensures
            n == pow3(self.size as nat),
    {
        let mut n: usize = 1;
        let mut i: usize = 0;
        while i < self.size
            invariant
                i <= self.size <= 20,
                n == pow3(i as nat),
            decreases self.size - i,
        {
            proof {
                lemma_pow3_mono((i + 1) as nat, 20);
                lemma_pow3_values();
            }
            n = n * 3;
            i = i + 1;
        }
        n
    }

    /// The index of one mask as `player` sees it.
    pub fn mask_index(mask: &[u8], black: u64, white: u64, player: Color) -> (n: usize)
        requires
            on_board(mask@),
            mask@.len() <= 20,
        ensures
            n == mask_value(
                mask@,
                side(black, white, player),
                side(black, white, player.other()),
            ),
            n < pow3(mask@.len()),
    {
        let (player_bb, opponent_bb): (u64, u64) = match player {
            Color::Black => (black, white),
            Color::White => (white, black),
        };
        let mut n: usize = 0;
        let mut i: usize = 0;
        assert(mask@.take(0) =~= Seq::empty());
        while i < mask.len()
            invariant
                i <= mask@.len() <= 20,
                on_board(mask@),
                n == mask_value(mask@.take(i as int), player_bb, opponent_bb),
            decreases mask@.len() - i,
        {
            let s: u8 = mask[i];
            let d: usize = if test_bit(player_bb, s) {
                0
            } else if test_bit(opponent_bb, s) {
                1
            } else {
                2
            };
            proof {
                assert(mask@.take(i + 1).drop_last() =~= mask@.take(i as int));
                lemma_mask_value_bound(mask@.take(i + 1), player_bb, opponent_bb);
                lemma_pow3_mono((i + 1) as nat, 20);
                lemma_pow3_values();
            }
            n = n * 3 + d;
            i = i + 1;
        }
        assert(mask@.take(i as int) =~= mask@);
        proof {
            lemma_mask_value_bound(mask@, player_bb, opponent_bb);
        }
        n
    }

    /// The indices of all masks as `player` sees them.
    pub fn indices(&self, black: u64, white: u64, player: Color) -> (v: Vec<usize>)
        requires
            self.wf(),
        ensures
            v@.len() == self.masks@.len(),
            forall|i: int|
                0 <= i < v@.len() ==> #[trigger] v@[i] == mask_value(
                    self.masks@[i]@,
                    side(black, white, player),
                    side(black, white, player.other()),
                ) && v@[i] < pow3(self.size as nat),
    {
        let mut v: Vec<usize> = Vec::new();
        let mut i: usize = 0;
        while i < self.masks.len()
            invariant
                self.wf(),
                i <= self.masks@.len(),
                v@.len() == i,
                forall|k: int|
                    0 <= k < i ==> #[trigger] v@[k] == mask_value(
                        self.masks@[k]@,
                        side(black, white, player),
                        side(black, white, player.other()),
                    ) && v@[k] < pow3(self.size as nat),
            decreases self.masks@.len() - i,
        {
            v.push(Pattern::mask_index(self.masks[i].as_slice(), black, white, player));
            i = i + 1;
        }
        v
    }
}

/// Every shape of a library is well-formed.
pub open spec fn library_wf(patterns: Seq<Pattern>) -> bool {
    forall|i: int| 0 <= i < patterns.len() ==> (#[trigger] patterns[i]).wf()
}

/// A shape with the given masks.
pub(crate) fn shape<const N: usize, const M: usize>(
    name: &'static str,
    masks: [[u8; N]; M],
) -> (p: Pattern)
    requires
        N <= 10,
        forall|i: int| 0 <= i < M ==> on_board(#[trigger] masks@[i]@),
    ensures
        p.wf(),
        p.shows(name@, masks),
{
    let mut v: Vec<Vec<u8>> = Vec::new();
    let mut i: usize = 0;
    while i < M
        invariant
            i <= M,
            N <= 10,
            forall|i: int| 0 <= i < M ==> on_board(#[trigger] masks@[i]@),
            v@.len() == i,
            forall|k: int| 0 <= k < i ==> (#[trigger] v@[k])@ == masks@[k]@,
        decreases M - i,
    {
        let row = masks[i];
        let mut mask: Vec<u8> = Vec::new();
        let mut j: usize = 0;
        while j < N
            invariant
                j <= N,
                mask@ == row@.take(j as int),
            decreases N - j,
        {
            mask.push(row[j]);
            j = j + 1;
            assert(mask@ =~= row@.take(j as int));
        }
        assert(mask@ =~= row@);
        v.push(mask);
        i = i + 1;
    }
    Pattern { name, size: N, masks: v }
}

/// The masks of all shapes, one behind the other.
pub open spec fn flat_masks(patterns: Seq<Pattern>) -> Seq<Seq<u8>>
    decreases patterns.len(),
{
    if patterns.len() == 0 {
        Seq::empty()
    } else {
        flat_masks(patterns.drop_last()) + patterns.last().masks@.map_values(|m: Vec<u8>| m@)
    }
}

/// For each of the masks one behind the other, the number of its shape.
pub open spec fn flat_owners(patterns: Seq<Pattern>) -> Seq<int>
    decreases patterns.len(),
{
    if patterns.len() == 0 {
        Seq::empty()
    } else {
        flat_owners(patterns.drop_last()) + Seq::new(
            patterns.last().masks@.len(),
            |i: int| patterns.len() - 1,
        )
    }
}

/// How many masks the shapes before number `k` have.
pub open spec fn first_mask(patterns: Seq<Pattern>, k: int) -> int {
    flat_masks(patterns.take(k)).len() as int
}

/// Where a shape's mask stands among the masks one behind the other.
pub proof fn lemma_mask_of_shape(patterns: Seq<Pattern>, k: int, i: int)
    requires
        0 <= k < patterns.len(),
        0 <= i < patterns[k].masks@.len(),
    ensures
        flat_owners(patterns).len() == flat_masks(patterns).len(),
        0 <= first_mask(patterns, k) + i < flat_masks(patterns).len(),
        flat_owners(patterns)[first_mask(patterns, k) + i] == k,
        flat_masks(patterns)[first_mask(patterns, k) + i] == patterns[k].masks@[i]@,
    decreases patterns.len(),
{
    let init = patterns.drop_last();
    let n = init.len() as int;
    lemma_flat_len(patterns);
    lemma_flat_len(init);
    if k < n {
        lemma_mask_of_shape(init, k, i);
        assert(patterns.take(k) =~= init.take(k));
    } else {
        assert(patterns.take(n) =~= init);
        assert(patterns.last().masks@.map_values(|m: Vec<u8>| m@)[i] == patterns[k].masks@[i]@);
    }
}

/// The shape to which one of the masks one behind the other belongs.
pub proof fn lemma_shape_of_mask(patterns: Seq<Pattern>, m: int)
    requires
        0 <= m < flat_masks(patterns).len(),
    ensures
        flat_owners(patterns).len() == flat_masks(patterns).len(),
        0 <= flat_owners(patterns)[m] < patterns.len(),
        0 <= m - first_mask(patterns, flat_owners(patterns)[m])
            < patterns[flat_owners(patterns)[m]].masks@.len(),
        flat_masks(patterns)[m] == patterns[flat_owners(patterns)[m]].masks@[m - first_mask(
            patterns,
            flat_owners(patterns)[m],
        )]@,
    decreases patterns.len(),
{
    let init = patterns.drop_last();
    let n = init.len() as int;
    lemma_flat_len(patterns);
    lemma_flat_len(init);
    if m < flat_masks(init).len() {
        lemma_shape_of_mask(init, m);
        let k = flat_owners(init)[m];
        assert(patterns.take(k) =~= init.take(k));
    } else {
        assert(patterns.take(n) =~= init);
    }
}

proof fn lemma_flat_len(patterns: Seq<Pattern>)
    ensures
        flat_owners(patterns).len() == flat_masks(patterns).len(),
    decreases patterns.len(),
{
    if patterns.len() > 0 {
        lemma_flat_len(patterns.drop_last());
    }
}

/// The next shape's masks follow those of the shape before.
pub proof fn lemma_first_mask(patterns: Seq<Pattern>, k: int)
    requires
        0 <= k < patterns.len(),
    ensures
        first_mask(patterns, 0) == 0,
        first_mask(patterns, k + 1) == first_mask(patterns, k) + patterns[k].masks@.len(),
        first_mask(patterns, patterns.len() as int) == flat_masks(patterns).len(),
{
    assert(patterns.take(0) =~= Seq::empty());
    assert(patterns.take(k + 1).drop_last() =~= patterns.take(k));
    assert(patterns.take(patterns.len() as int) =~= patterns);
}

/// The sum of the first `n` numbers.
pub open spec fn sum_first(values: Seq<int>, n: int) -> int
    decreases n,
{
    if n <= 0 {
        0
    } else {
        sum_first(values, n - 1) + values[n - 1]
    }
}

/// The two libraries.
#[derive(Debug, Clone)]
pub struct PatternSet {
    pub egaroucid: Vec<Pattern>,
    pub edax: Vec<Pattern>,
}

impl PatternSet {
    /// The Egaroucid and the Edax shapes.
    pub fn all() -> (s: PatternSet)
        ensures
            is_egaroucid(s.egaroucid@),
            is_edax(s.edax@),
            library_wf(s.egaroucid@),
            library_wf(s.edax@),
    {
        PatternSet { egaroucid: egaroucid_patterns(), edax: edax_patterns() }
    }
}

/// Weight tables of a library: a weight for each shape and index.
#[derive(Debug, Clone)]
pub struct PatternWeights {
    pub patterns: Vec<Pattern>,
    pub weights: Vec<Vec<i32>>,
}

impl PatternWeights {
    /// One table for each shape, with a weight for each index.
    pub open spec fn wf(self) -> bool {
        &&& library_wf(self.patterns@)
        &&& self.weights@.len() == self.patterns@.len()
        &&& forall|i: int|
            0 <= i < self.weights@.len() ==> (#[trigger] self.weights@[i])@.len() == pow3(
                self.patterns@[i].size as nat,
            )
    }

    /// The weights that a position selects, mask by mask.
    pub open spec fn selected(self, p: u64, o: u64) -> Seq<int> {
        Seq::new(
            flat_masks(self.patterns@).len(),
            |m: int|
                self.weights@[flat_owners(self.patterns@)[m]]@[mask_value(
                    flat_masks(self.patterns@)[m],
                    p,
                    o,
                ) as int] as int,
        )
    }

    /// The running sums of the selected weights are within the range of the
    /// result.
    pub open spec fn sums_fit(self, p: u64, o: u64) -> bool {
        forall|n: int|
            0 <= n <= flat_masks(self.patterns@).len() ==> i32::MIN <= #[trigger] sum_first(
                self.selected(p, o),
                n,
            ) <= i32::MAX
    }

    /// All weights zero.
    pub fn zeros(patterns: Vec<Pattern>) -> (w: PatternWeights)
        requires
            library_wf(patterns@),
        ensures
            w.wf(),
            w.patterns@ == patterns@,
            forall|i: int, k: int|
                0 <= i < w.weights@.len() && 0 <= k < w.weights@[i]@.len()
                    ==> #[trigger] w.weights@[i]@[k] == 0,
    {
        let mut weights: Vec<Vec<i32>> = Vec::new();
        let mut i: usize = 0;
        while i < patterns.len()
            invariant
                library_wf(patterns@),
                i <= patterns@.len(),
                weights@.len() == i,
                forall|k: int|
                    0 <= k < i ==> (#[trigger] weights@[k])@.len() == pow3(
                        patterns@[k].size as nat,
                    ),
                forall|k: int, j: int|
                    0 <= k < i && 0 <= j < weights@[k]@.len() ==> #[trigger] weights@[k]@[j] == 0,
            decreases patterns@.len() - i,
        {
            assert(patterns@[i as int].wf());
            let table: Vec<i32> = vec![0; patterns[i].table_size()];
            weights.push(table);
            i = i + 1;
        }
        PatternWeights { patterns, weights }
    }

    /// The library.
    pub fn patterns(&self) -> (p: &Vec<Pattern>)
        ensures
            *p == self.patterns,
    {
        &self.patterns
    }

    /// Change one weight.
    pub fn set(&mut self, pattern_idx: usize, index: usize, value: i32)
        requires
            pattern_idx < old(self).weights@.len(),
            index < old(self).weights@[pattern_idx as int]@.len(),
        ensures
            final(self).patterns == old(self).patterns,
            final(self).weights@.len() == old(self).weights@.len(),
            forall|i: int|
                0 <= i < old(self).weights@.len() && i != pattern_idx
                    ==> #[trigger] final(self).weights@[i] == old(self).weights@[i],
            final(self).weights@[pattern_idx as int]@ == old(
                self,
            ).weights@[pattern_idx as int]@.update(index as int, value),
            old(self).wf() ==> final(self).wf(),
    {
        self.weights[pattern_idx][index] = value;
    }

    /// One weight.
    pub fn get(&self, pattern_idx: usize, index: usize) -> (value: i32)
        requires
            pattern_idx < self.weights@.len(),
            index < self.weights@[pattern_idx as int]@.len(),
        ensures
            value == self.weights@[pattern_idx as int]@[index as int],
    {
        self.weights[pattern_idx][index]
    }

    /// The sum of the weights that the position selects as `player` sees it.
    pub fn evaluate(&self, black: u64, white: u64, player: Color) -> (score: i32)
        requires
            self.wf(),
            self.sums_fit(side(black, white, player), side(black, white, player.other())),
        ensures
            score == sum_first(
                self.selected(side(black, white, player), side(black, white, player.other())),
                flat_masks(self.patterns@).len() as int,
            ),
    {
        let ghost p = side(black, white, player);
        let ghost o = side(black, white, player.other());
        let ghost values = self.selected(p, o);
        let ghost mut m: int = 0;
        let mut score: i32 = 0;
        let mut i: usize = 0;
        proof {
            if self.patterns@.len() > 0 {
                lemma_first_mask(self.patterns@, 0);
            } else {
                assert(flat_masks(self.patterns@).len() == 0);
            }
        }
        while i < self.patterns.len()
            invariant
                self.wf(),
                self.sums_fit(p, o),
                values == self.selected(p, o),
                p == side(black, white, player),
                o == side(black, white, player.other()),
                i <= self.patterns@.len(),
                m == if self.patterns@.len() == 0 {
                    0
                } else {
                    first_mask(self.patterns@, i as int)
                },
                m <= flat_masks(self.patterns@).len(),
                score == sum_first(values, m),
            decreases self.patterns@.len() - i,
        {
            assert(self.patterns@[i as int].wf());
            let list: Vec<usize> = self.patterns[i].indices(black, white, player);
            let mut j: usize = 0;
            proof {
                lemma_first_mask(self.patterns@, i as int);
            }
            let ghost base = m;
            while j < list.len()
                invariant
                    self.wf(),
                    self.sums_fit(p, o),
                    values == self.selected(p, o),
                    i < self.patterns@.len(),
                    list@.len() == self.patterns@[i as int].masks@.len(),
                    forall|k: int|
                        0 <= k < list@.len() ==> #[trigger] list@[k] == mask_value(
                            self.patterns@[i as int].masks@[k]@,
                            p,
                            o,
                        ) && list@[k] < pow3(self.patterns@[i as int].size as nat),
                    j <= list@.len(),
                    base == first_mask(self.patterns@, i as int),
                    m == base + j,
                    m <= flat_masks(self.patterns@).len(),
                    score == sum_first(values, m),
                decreases list@.len() - j,
            {
                let k: usize = list[j];
                proof {
                    lemma_mask_of_shape(self.patterns@, i as int, j as int);
                    assert(values[m] == self.weights@[i as int]@[k as int]);
                    assert(sum_first(values, m + 1) == sum_first(values, m) + values[m]);
                    m = m + 1;
                }
                score = score + self.weights[i][k];
                j = j + 1;
            }
            i = i + 1;
        }
        proof {
            if self.patterns@.len() > 0 {
                lemma_first_mask(self.patterns@, 0);
            }
        }
        score
    }
}

/// An index tells what each square of its mask shows, the first one in the highest
/// place: 0 for a disc of the first side, 1 for one of the other, 2 for none.
pub proof fn law_index_tells_the_squares(mask: Seq<u8>, p: u64, o: u64, k: int)
    requires
        0 <= k < mask.len(),
    ensures
        ({
            let d = mask_value(mask, p, o) / pow3((mask.len() - 1 - k) as nat) % 3;
            &&& bit(p, mask[k] as int) ==> d == 0
            &&& !bit(p, mask[k] as int) && bit(o, mask[k] as int) ==> d == 1
            &&& !bit(p, mask[k] as int) && !bit(o, mask[k] as int) ==> d == 2
        }),
        mask_value(mask, p, o) < pow3(mask.len()),
    decreases mask.len(),
{
    lemma_mask_value_bound(mask, p, o);
    let v = mask_value(mask, p, o) as int;
    let init = mask.drop_last();
    if k < mask.len() - 1 {
        law_index_tells_the_squares(init, p, o, k);
        let m = pow3((init.len() - 1 - k) as nat) as int;
        lemma_pow3_mono(0, (init.len() - 1 - k) as nat);
        assert(pow3((mask.len() - 1 - k) as nat) == 3 * m);
        assert(v / 3 == mask_value(init, p, o));
        vstd::arithmetic::div_mod::lemma_div_denominator(v, 3, m);
        assert(init[k] == mask[k]);
    } else {
        assert(pow3(0) == 1);
        assert(v / 1 == v);
    }
}

} // verus!
