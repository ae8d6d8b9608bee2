//! Bitboards: which squares a disc placed on the board turns, which squares
//! can be played, and the symmetries of the board.
//!
//! A square's number is `file * 8 + rank`, and bit `n` of a word stands for
//! square `n`.

use vstd::prelude::*;
use vstd::std_specs::bits::u64_trailing_zeros;

use crate::bits::{bit, count, group_bits, lemma_bit_ext, lemma_clear_lowest, lemma_count_insert, lemma_count_zero, lemma_word_of, word_of};

verus! {

/// The coordinates lie on the board.
pub open spec fn inside(f: int, r: int) -> bool {
    0 <= f < 8 && 0 <= r < 8
}

/// The square at the coordinates is on the board and in the set.
pub open spec fn holds(b: u64, f: int, r: int) -> bool {
    inside(f, r) && bit(b, f * 8 + r)
}

/// File step of direction `d`.
pub open spec fn step_file(d: int) -> int {
    if d == 0 || d == 1 {
        0
    } else if d == 2 || d == 4 || d == 6 {
        1
    } else {
        -1
    }
}

/// Rank step of direction `d`.
pub open spec fn step_rank(d: int) -> int {
    if d == 2 || d == 3 {
        0
    } else if d == 0 || d == 4 || d == 7 {
        1
    } else {
        -1
    }
}

/// A step to one of the eight neighbours.
pub open spec fn unit_step(a: int, c: int) -> bool {
    -1 <= a <= 1 && -1 <= c <= 1 && !(a == 0 && c == 0)
}

/// Squares left before the walk leaves the board.
pub open spec fn room(f: int, r: int, a: int, c: int) -> int {
    if a > 0 {
        8 - f
    } else if a < 0 {
        f + 1
    } else if c > 0 {
        8 - r
    } else {
        r + 1
    }
}

/// Length of the unbroken row of discs of `o` that starts at the square and
/// goes in the direction of the step.
pub open spec fn run(o: u64, f: int, r: int, a: int, c: int) -> int
    decreases room(f, r, a, c),
{
    if unit_step(a, c) && holds(o, f, r) {
        1 + run(o, f + a, r + c, a, c)
    } else {
        0
    }
}

/// The row of discs of `o` that starts at the square ends at a disc of `p`.
pub open spec fn closed_by(p: u64, o: u64, f: int, r: int, a: int, c: int) -> bool
    decreases room(f, r, a, c),
{
    if unit_step(a, c) && holds(o, f, r) {
        closed_by(p, o, f + a, r + c, a, c)
    } else {
        holds(p, f, r)
    }
}

/// Square `q` is in the row of discs of `o` that starts at the square.
pub open spec fn on_run(o: u64, f: int, r: int, a: int, c: int, q: int) -> bool
    decreases room(f, r, a, c),
{
    unit_step(a, c) && holds(o, f, r) && (q == f * 8 + r || on_run(o, f + a, r + c, a, c, q))
}

/// A disc of `p` placed on `s` turns square `q` in direction `d`.
pub open spec fn turns_in(p: u64, o: u64, s: int, q: int, d: int) -> bool {
    let a = step_file(d);
    let c = step_rank(d);
    closed_by(p, o, s / 8 + a, s % 8 + c, a, c) && on_run(o, s / 8 + a, s % 8 + c, a, c, q)
}

/// A disc of `p` placed on `s` turns square `q`.
pub open spec fn turns(p: u64, o: u64, s: int, q: int) -> bool {
    exists|d: int| 0 <= d < 8 && #[trigger] turns_in(p, o, s, q, d)
}

/// A disc of `p` placed on `s` turns something in direction `d`.
pub open spec fn captures_in(p: u64, o: u64, s: int, d: int) -> bool {
    let a = step_file(d);
    let c = step_rank(d);
    holds(o, s / 8 + a, s % 8 + c) && closed_by(p, o, s / 8 + a, s % 8 + c, a, c)
}

/// A disc of `p` may be placed on `s`: the square is empty and some disc of
/// `o` is turned.
pub open spec fn playable(p: u64, o: u64, s: int) -> bool {
    !bit(p, s) && !bit(o, s) && exists|d: int| 0 <= d < 8 && #[trigger] captures_in(p, o, s, d)
}

/// The set of squares that a disc of `p` placed on `s` turns.
pub open spec fn is_flips(p: u64, o: u64, s: int, flips: u64) -> bool {
    forall|q: int| 0 <= q < 64 ==> #[trigger] bit(flips, q) == turns(p, o, s, q)
}

/// The turned squares as a word.
pub open spec fn flips_of(p: u64, o: u64, s: int) -> u64 {
    word_of(|q: int| turns(p, o, s, q))
}

/// The word of turned squares holds the turned squares.
pub proof fn lemma_flips_of(p: u64, o: u64, s: int)
    ensures
        is_flips(p, o, s, flips_of(p, o, s)),
{
    lemma_word_of(|q: int| turns(p, o, s, q));
    assert forall|q: int| 0 <= q < 64 implies #[trigger] bit(flips_of(p, o, s), q) == turns(
        p,
        o,
        s,
        q,
    ) by {
        assert(bit(word_of(|q: int| turns(p, o, s, q)), q) == (|q: int| turns(p, o, s, q))(q));
    }
}

/// Every square of a row holds a disc of the row's side.
proof fn lemma_on_run(o: u64, f: int, r: int, a: int, c: int, q: int)
    requires
        on_run(o, f, r, a, c, q),
    ensures
        0 <= q < 64,
        bit(o, q),
    decreases room(f, r, a, c),
{
    if q != f * 8 + r {
        lemma_on_run(o, f + a, r + c, a, c, q);
    }
}

/// What is turned is the opponent's.
pub proof fn lemma_flips_are_opponents(p: u64, o: u64, s: int)
    ensures
        forall|q: int| #[trigger] turns(p, o, s, q) ==> 0 <= q < 64 && bit(o, q),
        flips_of(p, o, s) & o == flips_of(p, o, s),
{
    broadcast use group_bits;

    assert forall|q: int| #[trigger] turns(p, o, s, q) implies 0 <= q < 64 && bit(o, q) by {
        let d = choose|d: int| 0 <= d < 8 && #[trigger] turns_in(p, o, s, q, d);
        let a = step_file(d);
        let c = step_rank(d);
        lemma_on_run(o, s / 8 + a, s % 8 + c, a, c, q);
    }
    let w = flips_of(p, o, s);
    lemma_flips_of(p, o, s);
    assert forall|q: int| 0 <= q < 64 implies bit(w & o, q) == bit(w, q) by {
        assert(bit(w, q) == turns(p, o, s, q));
    }
    lemma_bit_ext(w & o, w);
}

/// A square can be played exactly when it is empty and something is turned.
pub proof fn lemma_playable_iff_flips(p: u64, o: u64, s: int)
    requires
        0 <= s < 64,
    ensures
        playable(p, o, s) <==> !bit(p, s) && !bit(o, s) && flips_of(p, o, s) != 0,
{
    broadcast use group_bits;

    let w = flips_of(p, o, s);
    lemma_flips_of(p, o, s);
    if playable(p, o, s) {
        let d = choose|d: int| 0 <= d < 8 && #[trigger] captures_in(p, o, s, d);
        let a = step_file(d);
        let c = step_rank(d);
        let q = (s / 8 + a) * 8 + (s % 8 + c);
        assert(on_run(o, s / 8 + a, s % 8 + c, a, c, q));
        assert(turns_in(p, o, s, q, d));
        assert(bit(w, q));
        assert(!bit(0u64, q));
    }
    if w != 0 {
        lemma_count_zero(w, 64);
        lemma_clear_lowest(w);
        let q = choose|q: int| 0 <= q < 64 && bit(w, q);
        assert(turns(p, o, s, q));
        let d = choose|d: int| 0 <= d < 8 && #[trigger] turns_in(p, o, s, q, d);
        assert(captures_in(p, o, s, d));
    }
}

/// File and rank step of a direction.
fn step(d: u8) -> (st: (i8, i8))
    requires
        d < 8,
    ensures
        st.0 == step_file(d as int),
        st.1 == step_rank(d as int),
{
    if d == 0 {
        (0, 1)
    } else if d == 1 {
        (0, -1)
    } else if d == 2 {
        (1, 0)
    } else if d == 3 {
        (-1, 0)
    } else if d == 4 {
        (1, 1)
    } else if d == 5 {
        (-1, -1)
    } else if d == 6 {
        (1, -1)
    } else {
        (-1, 1)
    }
}

/// The discs of `o` that a disc of `p` on `s` turns in direction `d`.
fn flips_in(p: u64, o: u64, s: u8, d: u8) -> (flips: u64)
    requires
        s < 64,
        d < 8,
    ensures
        forall|q: int|
            0 <= q < 64 ==> #[trigger] bit(flips, q) == turns_in(p, o, s as int, q, d as int),
{
    broadcast use group_bits;

    let (a, c) = step(d);
    let ghost f0 = s as int / 8 + a;
    let ghost r0 = s as int % 8 + c;
    let mut f: i8 = (s / 8) as i8 + a;
    let mut r: i8 = (s % 8) as i8 + c;
    let mut seen: u64 = 0;
    while 0 <= f && f < 8 && 0 <= r && r < 8 && (o >> ((f * 8 + r) as u64)) & 1 == 1
        invariant
            unit_step(a as int, c as int),
            -1 <= f <= 8,
            -1 <= r <= 8,
            closed_by(p, o, f as int, r as int, a as int, c as int) == closed_by(
                p,
                o,
                f0,
                r0,
                a as int,
                c as int,
            ),
            forall|q: int|
                0 <= q < 64 ==> (#[trigger] bit(seen, q) || on_run(
                    o,
                    f as int,
                    r as int,
                    a as int,
                    c as int,
                    q,
                )) == on_run(o, f0, r0, a as int, c as int, q),
        decreases room(f as int, r as int, a as int, c as int),
    {
        broadcast use group_bits;

        let n: u64 = (f * 8 + r) as u64;
        assert(holds(o, f as int, r as int));
        let next: u64 = seen | (1u64 << n);
        assert forall|q: int| 0 <= q < 64 implies (#[trigger] bit(next, q) || on_run(
            o,
            f + a,
            r + c,
            a as int,
            c as int,
            q,
        )) == on_run(o, f0, r0, a as int, c as int, q) by {
            assert(bit(next, q) == (bit(seen, q) || q == n));
        }
        seen = next;
        f = f + a;
        r = r + c;
    }
    assert(!holds(o, f as int, r as int));
    if 0 <= f && f < 8 && 0 <= r && r < 8 && (p >> ((f * 8 + r) as u64)) & 1 == 1 {
        assert(holds(p, f as int, r as int));
        seen
    } else {
        assert(!holds(p, f as int, r as int));
        0
    }
}

/// The discs of `opponent` that a disc of `player` on square `s` turns.
pub fn flips_at(player: u64, opponent: u64, s: u8) -> (flips: u64)
    requires
        s < 64,
    ensures
        is_flips(player, opponent, s as int, flips),
        flips == flips_of(player, opponent, s as int),
{
    broadcast use group_bits;

    let mut flips: u64 = 0;
    let mut d: u8 = 0;
    while d < 8
        invariant
            s < 64,
            d <= 8,
            forall|q: int|
                0 <= q < 64 ==> #[trigger] bit(flips, q) == (exists|e: int|
                    0 <= e < d && #[trigger] turns_in(player, opponent, s as int, q, e)),
        decreases 8 - d,
    {
        broadcast use group_bits;

        let more: u64 = flips_in(player, opponent, s, d);
        let ghost before = flips;
        flips = flips | more;
        assert forall|q: int| 0 <= q < 64 implies #[trigger] bit(flips, q) == (exists|e: int|
            0 <= e < d + 1 && #[trigger] turns_in(player, opponent, s as int, q, e)) by {
            assert(bit(flips, q) == (bit(before, q) || bit(more, q)));
            assert(bit(more, q) == turns_in(player, opponent, s as int, q, d as int));
        }
        d = d + 1;
    }
    proof {
        let chosen = flips_of(player, opponent, s as int);
        lemma_flips_of(player, opponent, s as int);
        assert(is_flips(player, opponent, s as int, flips));
        assert(is_flips(player, opponent, s as int, chosen));
        assert forall|q: int| 0 <= q < 64 implies bit(flips, q) == bit(chosen, q) by {}
        lemma_bit_ext(flips, chosen);
    }
    flips
}

/// The discs of `opponent` that a disc of `player` on the square of
/// `pos_bit` turns.
pub fn flippable(player: u64, opponent: u64, pos_bit: u64) -> (flips: u64)
    requires
        exists|s: u64| s < 64 && pos_bit == #[trigger] (1u64 << s),
    ensures
        forall|s: u64|
            s < 64 && pos_bit == #[trigger] (1u64 << s) ==> flips == flips_of(
                player,
                opponent,
                s as int,
            ) && is_flips(player, opponent, s as int, flips),
{
    broadcast use group_bits;

    let t: u8 = pos_bit.trailing_zeros() as u8;
    proof {
        let w = choose|s: u64| s < 64 && pos_bit == #[trigger] (1u64 << s);
        assert(bit(pos_bit, w as int));
        lemma_count_zero(pos_bit, 64);
        assert(pos_bit != 0) by {
            if pos_bit == 0 {
                assert(!bit(0u64, w as int));
            }
        }
        lemma_clear_lowest(pos_bit);
        assert(t == w);
        assert forall|s: u64| s < 64 && pos_bit == #[trigger] (1u64 << s) implies s == t by {
            assert(bit(1u64 << s, t as int));
        }
    }
    flips_at(player, opponent, t)
}

/// The set moved one rank up.
fn up_rank(b: u64) -> (m: u64)
    ensures
        forall|f: int, r: int| inside(f, r) ==> #[trigger] holds(m, f, r) == holds(b, f, r - 1),
{
    let m: u64 = (b & 0x7f7f_7f7f_7f7f_7f7f) << 1;
    assert forall|f: int, r: int| inside(f, r) implies #[trigger] holds(m, f, r) == holds(
        b,
        f,
        r - 1,
    ) by {
        let j = (f * 8 + r) as u64;
        assert(j < 64 ==> ((((b & 0x7f7f_7f7f_7f7f_7f7f) << 1) >> j) & 1 == 1 <==> (j % 8 != 0 && (
        b >> ((j - 1) as u64)) & 1 == 1))) by (bit_vector);
    }
    m
}

/// The set moved one rank down.
fn down_rank(b: u64) -> (m: u64)
    ensures
        forall|f: int, r: int| inside(f, r) ==> #[trigger] holds(m, f, r) == holds(b, f, r + 1),
{
    let m: u64 = (b & 0xfefe_fefe_fefe_fefe) >> 1;
    assert forall|f: int, r: int| inside(f, r) implies #[trigger] holds(m, f, r) == holds(
        b,
        f,
        r + 1,
    ) by {
        let j = (f * 8 + r) as u64;
        assert(j < 64 ==> ((((b & 0xfefe_fefe_fefe_fefe) >> 1) >> j) & 1 == 1 <==> (j % 8 != 7 && (
        b >> ((j + 1) as u64)) & 1 == 1))) by (bit_vector);
    }
    m
}

/// The set moved one file up.
fn up_file(b: u64) -> (m: u64)
    ensures
        forall|f: int, r: int| inside(f, r) ==> #[trigger] holds(m, f, r) == holds(b, f - 1, r),
{
    let m: u64 = b << 8;
    assert forall|f: int, r: int| inside(f, r) implies #[trigger] holds(m, f, r) == holds(
        b,
        f - 1,
        r,
    ) by {
        let j = (f * 8 + r) as u64;
        assert(j < 64 ==> (((b << 8) >> j) & 1 == 1 <==> (j >= 8 && (b >> ((j - 8) as u64)) & 1
            == 1))) by (bit_vector);
    }
    m
}

/// The set moved one file down.
fn down_file(b: u64) -> (m: u64)
    ensures
        forall|f: int, r: int| inside(f, r) ==> #[trigger] holds(m, f, r) == holds(b, f + 1, r),
{
    let m: u64 = b >> 8;
    assert forall|f: int, r: int| inside(f, r) implies #[trigger] holds(m, f, r) == holds(
        b,
        f + 1,
        r,
    ) by {
        let j = (f * 8 + r) as u64;
        assert(j < 64 ==> (((b >> 8) >> j) & 1 == 1 <==> (j + 8 < 64 && (b >> ((j + 8) as u64)) & 1
            == 1))) by (bit_vector);
    }
    m
}

/// The set of squares whose neighbour in the direction of the step is in `b`.
fn behind(b: u64, a: i8, c: i8) -> (m: u64)
    requires
        unit_step(a as int, c as int),
    ensures
        forall|f: int, r: int| inside(f, r) ==> #[trigger] holds(m, f, r) == holds(b, f + a, r + c),
{
    let x: u64 = if c == 1 {
        down_rank(b)
    } else if c == -1 {
        up_rank(b)
    } else {
        b
    };
    let m: u64 = if a == 1 {
        down_file(x)
    } else if a == -1 {
        up_file(x)
    } else {
        x
    };
    assert forall|f: int, r: int| inside(f, r) implies #[trigger] holds(m, f, r) == holds(
        b,
        f + a,
        r + c,
    ) by {
        assert(holds(m, f, r) == holds(x, f + a, r));
        if inside(f + a, r) {
            assert(holds(x, f + a, r) == holds(b, f + a, r + c));
        }
    }
    m
}

/// A closed row ends before the walk leaves the board.
proof fn lemma_run_bound(p: u64, o: u64, f: int, r: int, a: int, c: int)
    requires
        unit_step(a, c),
        closed_by(p, o, f, r, a, c),
    ensures
        0 <= run(o, f, r, a, c) < room(f, r, a, c),
    decreases room(f, r, a, c),
{
    if holds(o, f, r) {
        lemma_run_bound(p, o, f + a, r + c, a, c);
    }
}

/// Runs have a length.
proof fn lemma_run_nonneg(o: u64, f: int, r: int, a: int, c: int)
    ensures
        0 <= run(o, f, r, a, c),
    decreases room(f, r, a, c),
{
    if unit_step(a, c) && holds(o, f, r) {
        lemma_run_nonneg(o, f + a, r + c, a, c);
    }
}

/// A closed row of at most `k` discs starts at the square.
spec fn row_within(p: u64, o: u64, f: int, r: int, a: int, c: int, k: int) -> bool {
    holds(o, f, r) && closed_by(p, o, f, r, a, c) && run(o, f, r, a, c) <= k
}

/// The squares from which a disc of `player` captures in direction `d`.
fn mobility_in(player: u64, opponent: u64, d: u8) -> (m: u64)
    requires
        d < 8,
        player & opponent == 0,
    ensures
        forall|s: int|
            0 <= s < 64 ==> #[trigger] bit(m, s) == captures_in(player, opponent, s, d as int),
{
    broadcast use group_bits;

    let (a, c) = step(d);
    let ghost ai = a as int;
    let ghost ci = c as int;
    proof {
        assert forall|f: int, r: int| inside(f, r) implies !(#[trigger] holds(player, f, r) && holds(
            opponent,
            f,
            r,
        )) by {
            assert(bit(player & opponent, f * 8 + r) == (bit(player, f * 8 + r) && bit(
                opponent,
                f * 8 + r,
            )));
            assert(!bit(0u64, f * 8 + r));
        }
    }
    let seeds: u64 = behind(player, a, c);
    let mut row: u64 = opponent & seeds;
    proof {
        assert forall|f: int, r: int| inside(f, r) implies #[trigger] holds(row, f, r) == row_within(
            player,
            opponent,
            f,
            r,
            ai,
            ci,
            1,
        ) by {
            reveal_with_fuel(closed_by, 2);
            reveal_with_fuel(run, 2);
            assert(holds(seeds, f, r) == holds(player, f + ai, r + ci));
            lemma_run_nonneg(opponent, f + ai + ai, r + ci + ci, ai, ci);
            lemma_run_nonneg(opponent, f + ai, r + ci, ai, ci);
        }
    }
    let mut k: u8 = 1;
    while k < 6
        invariant
            unit_step(a as int, c as int),
            ai == a as int,
            ci == c as int,
            1 <= k <= 6,
            forall|f: int, r: int|
                inside(f, r) ==> #[trigger] holds(row, f, r) == row_within(
                    player,
                    opponent,
                    f,
                    r,
                    ai,
                    ci,
                    k as int,
                ),
        decreases 6 - k,
    {
        let more: u64 = behind(row, a, c);
        let next: u64 = row | (opponent & more);
        proof {
            broadcast use group_bits;

            assert forall|f: int, r: int| inside(f, r) implies #[trigger] holds(
                next,
                f,
                r,
            ) == row_within(player, opponent, f, r, ai, ci, k + 1) by {
                assert(holds(more, f, r) == holds(row, f + ai, r + ci));
                assert(holds(row, f, r) == row_within(player, opponent, f, r, ai, ci, k as int));
                if inside(f + ai, r + ci) {
                    assert(holds(row, f + ai, r + ci) == row_within(
                        player,
                        opponent,
                        f + ai,
                        r + ci,
                        ai,
                        ci,
                        k as int,
                    ));
                }
                lemma_run_nonneg(opponent, f + ai, r + ci, ai, ci);
            }
        }
        row = next;
        k = k + 1;
    }
    let m: u64 = behind(row, a, c);
    assert forall|s: int| 0 <= s < 64 implies #[trigger] bit(m, s) == captures_in(
        player,
        opponent,
        s,
        d as int,
    ) by {
        let f = s / 8;
        let r = s % 8;
        assert(s == f * 8 + r);
        assert(holds(m, f, r) == holds(row, f + ai, r + ci));
        if inside(f + ai, r + ci) {
            assert(holds(row, f + ai, r + ci) == row_within(
                player,
                opponent,
                f + ai,
                r + ci,
                ai,
                ci,
                6,
            ));
            if closed_by(player, opponent, f + ai, r + ci, ai, ci) {
                lemma_run_bound(player, opponent, f + ai, r + ci, ai, ci);
            }
        }
    }
    m
}

/// The squares on which a disc of `player` may be placed.
pub fn mobility(player: u64, opponent: u64) -> (m: u64)
    requires
        player & opponent == 0,
    ensures
        forall|s: int| 0 <= s < 64 ==> #[trigger] bit(m, s) == playable(player, opponent, s),
{
    let mut seen: u64 = 0;
    let mut d: u8 = 0;
    assert forall|s: int| 0 <= s < 64 implies !(#[trigger] bit(seen, s)) by {
        broadcast use group_bits;

    }
    while d < 8
        invariant
            player & opponent == 0,
            d <= 8,
            forall|s: int|
                0 <= s < 64 ==> #[trigger] bit(seen, s) == (exists|e: int|
                    0 <= e < d && #[trigger] captures_in(player, opponent, s, e)),
        decreases 8 - d,
    {
        let more: u64 = mobility_in(player, opponent, d);
        let next: u64 = seen | more;
        assert forall|s: int| 0 <= s < 64 implies #[trigger] bit(next, s) == (exists|e: int|
            0 <= e < d + 1 && #[trigger] captures_in(player, opponent, s, e)) by {
            broadcast use group_bits;

            assert(bit(next, s) == (bit(seen, s) || bit(more, s)));
            assert(bit(more, s) == captures_in(player, opponent, s, d as int));
        }
        seen = next;
        d = d + 1;
    }
    let m: u64 = seen & !(player | opponent);
    assert forall|s: int| 0 <= s < 64 implies #[trigger] bit(m, s) == playable(
        player,
        opponent,
        s,
    ) by {
        broadcast use group_bits;

        assert(bit(m, s) == (bit(seen, s) && bit(!(player | opponent), s)));
    }
    m
}

/// The square that is moved to square `t` by the `m`-th elementary
/// transform: 0 exchanges files and ranks, 1 reverses the files, 2 turns the
/// board a quarter.
pub open spec fn source_square(m: int, t: int) -> int {
    if m == 0 {
        t % 8 * 8 + t / 8
    } else if m == 1 {
        (7 - t / 8) * 8 + t % 8
    } else {
        t % 8 * 8 + (7 - t / 8)
    }
}

/// Each square of `moved` shows what its source square shows in `b`.
pub open spec fn is_moved(b: u64, m: int, moved: u64) -> bool {
    forall|t: int| 0 <= t < 64 ==> #[trigger] bit(moved, t) == bit(b, source_square(m, t))
}

/// The set after the `m`-th elementary transform.
pub open spec fn moved_of(b: u64, m: int) -> u64 {
    word_of(|t: int| bit(b, source_square(m, t)))
}

/// The transformed word shows each square's source.
pub proof fn lemma_moved_of(b: u64, m: int)
    ensures
        is_moved(b, m, moved_of(b, m)),
{
    let g = |t: int| bit(b, source_square(m, t));
    lemma_word_of(g);
    assert forall|t: int| 0 <= t < 64 implies #[trigger] bit(moved_of(b, m), t) == bit(
        b,
        source_square(m, t),
    ) by {
        assert(bit(word_of(g), t) == g(t));
    }
}

/// The set after an elementary transform.
fn moved(b: u64, m: u8) -> (w: u64)
    requires
        m < 3,
    ensures
        is_moved(b, m as int, w),
        w == moved_of(b, m as int),
{
    broadcast use group_bits;

    let mut w: u64 = 0;
    let mut t: u8 = 0;
    while t < 64
        invariant
            m < 3,
            t <= 64,
            forall|i: int|
                0 <= i < 64 ==> #[trigger] bit(w, i) == (i < t && bit(
                    b,
                    source_square(m as int, i),
                )),
        decreases 64 - t,
    {
        broadcast use group_bits;

        let s: u8 = if m == 0 {
            t % 8 * 8 + t / 8
        } else if m == 1 {
            (7 - t / 8) * 8 + t % 8
        } else {
            t % 8 * 8 + (7 - t / 8)
        };
        let ghost before = w;
        if (b >> (s as u64)) & 1 == 1 {
            w = w | (1u64 << (t as u64));
        }
        assert forall|i: int| 0 <= i < 64 implies #[trigger] bit(w, i) == (i < t + 1 && bit(
            b,
            source_square(m as int, i),
        )) by {
            assert(bit(before, i) == (i < t && bit(b, source_square(m as int, i))));
            assert(bit(b, source_square(m as int, t as int)) == ((b >> (s as u64)) & 1 == 1));
        }
        t = t + 1;
    }
    proof {
        lemma_moved_of(b, m as int);
        let other = moved_of(b, m as int);
        assert forall|i: int| 0 <= i < 64 implies bit(w, i) == bit(other, i) by {}
        lemma_bit_ext(w, other);
    }
    w
}

/// Exchange files and ranks.
pub fn transpose(b: u64) -> (w: u64)
    ensures
        is_moved(b, 0, w),
        w == moved_of(b, 0),
{
    moved(b, 0)
}

/// Reverse the files.
pub fn mirror_horizontal(b: u64) -> (w: u64)
    ensures
        is_moved(b, 1, w),
        w == moved_of(b, 1),
{
    moved(b, 1)
}

/// Turn the board a quarter.
pub fn rotate_90(b: u64) -> (w: u64)
    ensures
        is_moved(b, 2, w),
        w == moved_of(b, 2),
{
    moved(b, 2)
}

/// Exchanging files and ranks twice changes nothing.
pub proof fn lemma_transpose_involution(b: u64)
    ensures
        moved_of(moved_of(b, 0), 0) == b,
{
    lemma_moved_of(b, 0);
    lemma_moved_of(moved_of(b, 0), 0);
    let w = moved_of(moved_of(b, 0), 0);
    assert forall|t: int| 0 <= t < 64 implies bit(w, t) == bit(b, t) by {
        lemma_square_paths(0, t);
    }
    lemma_bit_ext(w, b);
}

/// Reversing the files twice changes nothing.
pub proof fn law_mirror_twice(b: u64)
    ensures
        moved_of(moved_of(b, 1), 1) == b,
{
    lemma_moved_of(b, 1);
    lemma_moved_of(moved_of(b, 1), 1);
    let w = moved_of(moved_of(b, 1), 1);
    assert forall|t: int| 0 <= t < 64 implies bit(w, t) == bit(b, t) by {
        lemma_square_paths(1, t);
    }
    lemma_bit_ext(w, b);
}

/// Where a square goes and comes from.
proof fn lemma_square_paths(m: int, t: int)
    requires
        0 <= m < 3,
        0 <= t < 64,
    ensures
        0 <= source_square(m, t) < 64,
        0 <= target_square(m, t) < 64,
        source_square(m, target_square(m, t)) == t,
        target_square(m, source_square(m, t)) == t,
        m == 2 ==> source_square(m, source_square(m, t)) == 63 - t,
{
    let f = t / 8;
    let r = t % 8;
    let s = source_square(m, t);
    let g = target_square(m, t);
    if m == 0 {
        assert(s / 8 == r && s % 8 == f);
    } else if m == 1 {
        assert(s / 8 == 7 - f && s % 8 == r);
    } else {
        assert(s / 8 == r && s % 8 == 7 - f);
        assert(g / 8 == 7 - r && g % 8 == f);
    }
}

/// Two quarter turns show each square's opposite.
proof fn lemma_half_turn(b: u64, t: int)
    requires
        0 <= t < 64,
    ensures
        bit(moved_of(moved_of(b, 2), 2), t) == bit(b, 63 - t),
{
    let b1 = moved_of(b, 2);
    lemma_moved_of(b, 2);
    lemma_moved_of(b1, 2);
    lemma_square_paths(2, t);
    assert(bit(moved_of(b1, 2), t) == bit(b1, source_square(2, t)));
}

/// Four quarter turns change nothing.
pub proof fn law_four_turns(b: u64)
    ensures
        moved_of(moved_of(moved_of(moved_of(b, 2), 2), 2), 2) == b,
{
    let b2 = moved_of(moved_of(b, 2), 2);
    let b4 = moved_of(moved_of(b2, 2), 2);
    assert forall|t: int| 0 <= t < 64 implies bit(b4, t) == bit(b, t) by {
        lemma_half_turn(b2, t);
        lemma_half_turn(b, 63 - t);
    }
    lemma_bit_ext(b4, b);
}

/// The square to which the `m`-th elementary transform moves square `s`.
pub open spec fn target_square(m: int, s: int) -> int {
    if m == 0 {
        s % 8 * 8 + s / 8
    } else if m == 1 {
        (7 - s / 8) * 8 + s % 8
    } else {
        (7 - s % 8) * 8 + s / 8
    }
}

/// A transform moves as many squares as there are.
pub proof fn lemma_moved_count(b: u64, m: int)
    requires
        0 <= m < 3,
    ensures
        count(moved_of(b, m)) == count(b),
    decreases b,
{
    broadcast use group_bits;

    let w = moved_of(b, m);
    lemma_moved_of(b, m);
    if b == 0 {
        assert forall|t: int| 0 <= t < 64 implies bit(w, t) == bit(0u64, t) by {
            assert(bit(w, t) == bit(b, source_square(m, t)));
        }
        lemma_bit_ext(w, 0);
    } else {
        lemma_clear_lowest(b);
        let s = u64_trailing_zeros(b) as int;
        let rest = b & (b - 1) as u64;
        assert(rest < b) by (bit_vector)
            requires
                rest == b & (b - 1) as u64,
                b != 0,
        ;
        lemma_moved_count(rest, m);
        lemma_moved_of(rest, m);
        lemma_count_insert(rest, s, b);
        let w2 = moved_of(rest, m);
        let g = target_square(m, s);
        lemma_square_paths(m, s);
        assert forall|t: int| 0 <= t < 64 implies #[trigger] bit(w, t) == (bit(w2, t) || t == g) by {
            lemma_square_paths(m, t);
            assert(bit(w, t) == bit(b, source_square(m, t)));
            assert(bit(w2, t) == bit(rest, source_square(m, t)));
        }
        assert(!bit(w2, g)) by {
            assert(bit(w2, g) == bit(rest, source_square(m, g)));
        }
        lemma_count_insert(w2, g, w);
    }
}

/// A transform keeps sets apart.
pub proof fn lemma_moved_disjoint(a: u64, b: u64, m: int)
    requires
        a & b == 0,
        0 <= m < 3,
    ensures
        moved_of(a, m) & moved_of(b, m) == 0,
{
    broadcast use group_bits;

    let x = moved_of(a, m);
    let y = moved_of(b, m);
    lemma_moved_of(a, m);
    lemma_moved_of(b, m);
    assert forall|t: int| 0 <= t < 64 implies bit(x & y, t) == bit(0u64, t) by {
        let s = source_square(m, t);
        assert(bit(a & b, s) == (bit(a, s) && bit(b, s)));
        assert(!bit(0u64, s));
        assert(bit(x, t) == bit(a, s));
        assert(bit(y, t) == bit(b, s));
    }
    lemma_bit_ext(x & y, 0);
}

/// The set after `k` quarter turns.
pub open spec fn turned(b: u64, k: int) -> u64
    decreases k,
{
    if k <= 0 {
        b
    } else {
        moved_of(turned(b, k - 1), 2)
    }
}

/// The set under the `i`-th of the eight symmetries: the quarter turns, then
/// the quarter turns of the mirrored board.
pub open spec fn symmetry_of(b: u64, i: int) -> u64 {
    if i >= 4 {
        turned(moved_of(b, 1), i - 4)
    } else {
        turned(b, i)
    }
}

/// Quarter turns keep the number of squares and keep sets apart.
pub proof fn lemma_turned(a: u64, b: u64, k: int)
    ensures
        count(turned(b, k)) == count(b),
        a & b == 0 ==> turned(a, k) & turned(b, k) == 0,
    decreases k,
{
    if k > 0 {
        lemma_turned(a, b, k - 1);
        lemma_moved_count(turned(b, k - 1), 2);
        if a & b == 0 {
            lemma_moved_disjoint(turned(a, k - 1), turned(b, k - 1), 2);
        }
    }
}

/// Symmetries keep the number of squares and keep sets apart.
pub proof fn lemma_symmetry(a: u64, b: u64, i: int)
    ensures
        count(symmetry_of(b, i)) == count(b),
        a & b == 0 ==> symmetry_of(a, i) & symmetry_of(b, i) == 0,
{
    if i >= 4 {
        lemma_moved_count(b, 1);
        if a & b == 0 {
            lemma_moved_disjoint(a, b, 1);
        }
        lemma_turned(moved_of(a, 1), moved_of(b, 1), i - 4);
    } else {
        lemma_turned(a, b, i);
    }
}

/// The set under the `i`-th symmetry.
pub fn symmetric(b: u64, i: u8) -> (w: u64)
    ensures
        w == symmetry_of(b, i as int),
{
    let mut w: u64 = b;
    let mut k: u8 = i;
    if i >= 4 {
        w = mirror_horizontal(b);
        k = i - 4;
    }
    let ghost base = w;
    let mut n: u8 = 0;
    while n < k
        invariant
            n <= k,
            w == turned(base, n as int),
        decreases k - n,
    {
        w = rotate_90(w);
        n = n + 1;
    }
    w
}

/// From square `s` on, `n` discs of `o` stand in a row in the direction of the step,
/// and a disc of `p` behind them.
pub open spec fn bracketed(p: u64, o: u64, s: int, a: int, c: int, n: int) -> bool {
    &&& unit_step(a, c)
    &&& n >= 1
    &&& forall|i: int| 1 <= i <= n ==> #[trigger] holds(o, s / 8 + i * a, s % 8 + i * c)
    &&& holds(p, s / 8 + (n + 1) * a, s % 8 + (n + 1) * c)
}

/// The square that `k` steps lead to.
pub open spec fn stepped(f: int, r: int, a: int, c: int, k: int) -> int {
    (f + k * a) * 8 + (r + k * c)
}

/// Where the row of discs ends, and which squares are in it.
proof fn lemma_row_ends(p: u64, o: u64, f: int, r: int, a: int, c: int) -> (n: int)
    requires
        unit_step(a, c),
        closed_by(p, o, f, r, a, c),
    ensures
        0 <= n,
        forall|i: int| 0 <= i < n ==> #[trigger] holds(o, f + i * a, r + i * c),
        holds(p, f + n * a, r + n * c),
        forall|q: int| #[trigger]
            on_run(o, f, r, a, c, q) ==> exists|k: int|
                0 <= k < n && q == #[trigger] stepped(f, r, a, c, k),
    decreases room(f, r, a, c),
{
    assert(0 * a == 0 && 0 * c == 0);
    if holds(o, f, r) {
        let m = lemma_row_ends(p, o, f + a, r + c, a, c);
        assert forall|i: int| 0 <= i < m + 1 implies #[trigger] holds(o, f + i * a, r + i * c) by {
            if i > 0 {
                lemma_next_step(f, r, a, c, i - 1);
                assert(holds(o, (f + a) + (i - 1) * a, (r + c) + (i - 1) * c));
            }
        }
        lemma_next_step(f, r, a, c, m);
        assert forall|q: int| #[trigger] on_run(o, f, r, a, c, q) implies exists|k: int|
            0 <= k < m + 1 && q == #[trigger] stepped(f, r, a, c, k) by {
            if q == f * 8 + r {
                assert(q == stepped(f, r, a, c, 0));
            } else {
                assert(on_run(o, f + a, r + c, a, c, q));
                let k = choose|k: int| 0 <= k < m && q == #[trigger] stepped(f + a, r + c, a, c, k);
                lemma_next_step(f, r, a, c, k);
                assert(q == stepped(f, r, a, c, k + 1));
            }
        }
        m + 1
    } else {
        0
    }
}

proof fn lemma_next_step(f: int, r: int, a: int, c: int, i: int)
    ensures
        (f + a) + i * a == f + (i + 1) * a,
        (r + c) + i * c == r + (i + 1) * c,
{
    assert((f + a) + i * a == f + (i + 1) * a) by (nonlinear_arith);
    assert((r + c) + i * c == r + (i + 1) * c) by (nonlinear_arith);
}

/// A row of discs with a disc of the other side behind it is closed by that.
proof fn lemma_row_closed(p: u64, o: u64, f: int, r: int, a: int, c: int, n: int, k: int)
    requires
        unit_step(a, c),
        p & o == 0,
        0 <= n,
        forall|i: int| 0 <= i < n ==> #[trigger] holds(o, f + i * a, r + i * c),
        holds(p, f + n * a, r + n * c),
    ensures
        closed_by(p, o, f, r, a, c),
        0 <= k < n ==> on_run(o, f, r, a, c, stepped(f, r, a, c, k)),
    decreases n,
{
    broadcast use group_bits;

    assert(0 * a == 0 && 0 * c == 0);
    if n == 0 {
        let q = f * 8 + r;
        assert(!bit(p & o, q));
    } else {
        assert(holds(o, f + 0 * a, r + 0 * c));
        assert forall|i: int| 0 <= i < n - 1 implies #[trigger] holds(
            o,
            (f + a) + i * a,
            (r + c) + i * c,
        ) by {
            lemma_next_step(f, r, a, c, i);
            assert(holds(o, f + (i + 1) * a, r + (i + 1) * c));
        }
        lemma_next_step(f, r, a, c, n - 1);
        lemma_row_closed(p, o, f + a, r + c, a, c, n - 1, k - 1);
        lemma_next_step(f, r, a, c, k - 1);
    }
}

/// What a move turns: a disc is turned exactly where it stands in an unbroken row of
/// the opponent's discs that starts next to the square and has a disc of the mover
/// behind it, in any of the eight directions.
pub proof fn law_turned_discs_are_bracketed(p: u64, o: u64, s: int, q: int)
    requires
        p & o == 0,
        0 <= s < 64,
    ensures
        turns(p, o, s, q) <==> exists|a: int, c: int, n: int, k: int|
            1 <= k <= n && #[trigger] bracketed(p, o, s, a, c, n) && q == #[trigger] stepped(
                s / 8,
                s % 8,
                a,
                c,
                k,
            ),
{
    let (f, r) = (s / 8, s % 8);
    if turns(p, o, s, q) {
        let d = choose|d: int| 0 <= d < 8 && #[trigger] turns_in(p, o, s, q, d);
        let (a, c) = (step_file(d), step_rank(d));
        let n = lemma_row_ends(p, o, f + a, r + c, a, c);
        assert(on_run(o, f + a, r + c, a, c, q));
        let j = choose|j: int|
            0 <= j < n && q == #[trigger] stepped(f + a, r + c, a, c, j);
        lemma_next_step(f, r, a, c, j);
        lemma_next_step(f, r, a, c, n);
        assert forall|i: int| 1 <= i <= n implies #[trigger] holds(o, f + i * a, r + i * c) by {
            lemma_next_step(f, r, a, c, i - 1);
            assert(holds(o, (f + a) + (i - 1) * a, (r + c) + (i - 1) * c));
        }
        assert(bracketed(p, o, s, a, c, n));
        assert(q == stepped(f, r, a, c, j + 1));
    }
    if exists|a: int, c: int, n: int, k: int|
        1 <= k <= n && #[trigger] bracketed(p, o, s, a, c, n) && q == #[trigger] stepped(f, r, a, c, k) {
        let (a, c, n, k) = choose|a: int, c: int, n: int, k: int|
            1 <= k <= n && #[trigger] bracketed(p, o, s, a, c, n) && q == #[trigger] stepped(
                f,
                r,
                a,
                c,
                k,
            );
        assert forall|i: int| 0 <= i < n implies #[trigger] holds(
            o,
            (f + a) + i * a,
            (r + c) + i * c,
        ) by {
            lemma_next_step(f, r, a, c, i);
            assert(holds(o, f + (i + 1) * a, r + (i + 1) * c));
        }
        lemma_next_step(f, r, a, c, n);
        lemma_row_closed(p, o, f + a, r + c, a, c, n, k - 1);
        lemma_next_step(f, r, a, c, k - 1);
        let d: int = if a == 0 && c == 1 {
            0
        } else if a == 0 {
            1
        } else if c == 0 && a == 1 {
            2
        } else if c == 0 {
            3
        } else if a == 1 && c == 1 {
            4
        } else if a == -1 && c == -1 {
            5
        } else if a == 1 {
            6
        } else {
            7
        };
        assert(step_file(d) == a && step_rank(d) == c);
        assert(turns_in(p, o, s, q, d));
    }
}

} // verus!
