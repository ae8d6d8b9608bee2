//! The eight symmetries of the board on squares and moves.

use vstd::prelude::*;

use crate::bitboard::{captures_in, closed_by, holds, inside, lemma_flips_of, lemma_moved_of, moved_of, on_run, playable, room, source_square, step_file, step_rank, symmetry_of, turned, turns, turns_in, unit_step};
use crate::bits::{bit, group_bits, lemma_bit_ext};
use crate::board::Board;

verus! {

/// The symmetries: four quarter turns, and four of the mirrored board.
pub const FORMS: usize = 8;

/// File to which the `i`-th symmetry moves a square.
#[verifier::opaque]
pub open spec fn mapped_file(f: int, r: int, i: int) -> int {
    if i == 0 {
        f
    } else if i == 1 {
        7 - r
    } else if i == 2 {
        7 - f
    } else if i == 3 {
        r
    } else if i == 4 {
        7 - f
    } else if i == 5 {
        7 - r
    } else if i == 6 {
        f
    } else {
        r
    }
}

/// Rank to which the `i`-th symmetry moves a square.
#[verifier::opaque]
pub open spec fn mapped_rank(f: int, r: int, i: int) -> int {
    if i == 0 {
        r
    } else if i == 1 {
        f
    } else if i == 2 {
        7 - r
    } else if i == 3 {
        7 - f
    } else if i == 4 {
        r
    } else if i == 5 {
        7 - f
    } else if i == 6 {
        7 - r
    } else {
        f
    }
}

/// The square to which the `i`-th symmetry moves square `s`.
pub open spec fn mapped(s: int, i: int) -> int {
    mapped_file(s / 8, s % 8, i) * 8 + mapped_rank(s / 8, s % 8, i)
}

/// The symmetry that takes the `i`-th back.
pub open spec fn inverse(i: int) -> int {
    if i == 1 {
        3
    } else if i == 3 {
        1
    } else {
        i
    }
}

/// The symmetry that does what the `j`-th and then the `i`-th do.
pub open spec fn composed(j: int, i: int) -> int {
    let k = if i < 4 {
        j % 4 + i
    } else {
        i - 4 - j % 4
    };
    let turn = if k >= 4 {
        k - 4
    } else if k < 0 {
        k + 4
    } else {
        k
    };
    if (j < 4) == (i < 4) {
        turn
    } else {
        4 + turn
    }
}

/// A mapped square lies on the board; its file and rank are those mapped.
pub proof fn lemma_mapped(s: int, i: int)
    requires
        0 <= s < 64,
        0 <= i < 8,
    ensures
        0 <= mapped(s, i) < 64,
        mapped(s, i) / 8 == mapped_file(s / 8, s % 8, i),
        mapped(s, i) % 8 == mapped_rank(s / 8, s % 8, i),
{
    reveal(mapped_file);
    reveal(mapped_rank);
}

/// Mapping and mapping back gives the square.
pub proof fn lemma_inverse(s: int, i: int)
    requires
        0 <= s < 64,
        0 <= i < 8,
    ensures
        mapped(mapped(s, i), inverse(i)) == s,
        mapped(mapped(s, inverse(i)), i) == s,
{
    reveal(mapped_file);
    reveal(mapped_rank);
    lemma_mapped(s, i);
    lemma_mapped(s, inverse(i));
}

/// The same of files and ranks.
proof fn lemma_composed_at(f: int, r: int, j: int, i: int)
    requires
        0 <= i < 8,
        0 <= j < 8,
    ensures
        0 <= composed(j, i) < 8,
        mapped_file(mapped_file(f, r, j), mapped_rank(f, r, j), i) == mapped_file(
            f,
            r,
            composed(j, i),
        ),
        mapped_rank(mapped_file(f, r, j), mapped_rank(f, r, j), i) == mapped_rank(
            f,
            r,
            composed(j, i),
        ),
{
    reveal(mapped_file);
    reveal(mapped_rank);
    assert(j == 0 || j == 1 || j == 2 || j == 3 || j == 4 || j == 5 || j == 6 || j == 7);
}

/// A step moves with its square.
proof fn lemma_step(f: int, r: int, a: int, c: int, i: int)
    requires
        0 <= i < 8,
    ensures
        mapped_file(f + a, r + c, i) == mapped_file(f, r, i) + step_mapped_file(a, c, i),
        mapped_rank(f + a, r + c, i) == mapped_rank(f, r, i) + step_mapped_rank(a, c, i),
        unit_step(a, c) == unit_step(step_mapped_file(a, c, i), step_mapped_rank(a, c, i)),
        inside(f, r) == inside(mapped_file(f, r, i), mapped_rank(f, r, i)),
{
    reveal(mapped_file);
    reveal(mapped_rank);
}

/// Two symmetries one after the other are one symmetry.
pub proof fn lemma_composed(s: int, j: int, i: int)
    requires
        0 <= s < 64,
        0 <= i < 8,
        0 <= j < 8,
    ensures
        0 <= composed(j, i) < 8,
        mapped(mapped(s, j), i) == mapped(s, composed(j, i)),
{
    lemma_mapped(s, j);
    lemma_composed_at(s / 8, s % 8, j, i);
}

/// A quarter turn moves each square as the first symmetry does.
proof fn lemma_turn(b: u64, s: int)
    requires
        0 <= s < 64,
    ensures
        bit(moved_of(b, 2), mapped(s, 1)) == bit(b, s),
        bit(moved_of(b, 1), mapped(s, 4)) == bit(b, s),
{
    lemma_moved_of(b, 2);
    lemma_moved_of(b, 1);
    reveal(mapped_file);
    reveal(mapped_rank);
    lemma_mapped(s, 1);
    lemma_mapped(s, 4);
    assert(source_square(2, mapped(s, 1)) == s);
    assert(source_square(1, mapped(s, 4)) == s);
}

proof fn lemma_turned_bit(b: u64, s: int, k: int)
    requires
        0 <= s < 64,
        0 <= k < 4,
    ensures
        bit(turned(b, k), mapped(s, k)) == bit(b, s),
    decreases k,
{
    if k > 0 {
        lemma_turned_bit(b, s, k - 1);
        lemma_mapped(s, k - 1);
        lemma_turn(turned(b, k - 1), mapped(s, k - 1));
        lemma_composed(s, k - 1, 1);
    } else {
        reveal(mapped_file);
        reveal(mapped_rank);
    }
}

/// A set under a symmetry holds the mapped squares.
pub proof fn lemma_mapped_bit(b: u64, s: int, i: int)
    requires
        0 <= s < 64,
        0 <= i < 8,
    ensures
        bit(symmetry_of(b, i), mapped(s, i)) == bit(b, s),
{
    if i >= 4 {
        lemma_turn(b, s);
        lemma_mapped(s, 4);
        lemma_turned_bit(moved_of(b, 1), mapped(s, 4), i - 4);
        lemma_composed(s, 4, i - 4);
    } else {
        lemma_turned_bit(b, s, i);
    }
}

/// A set under two symmetries is the set under the composed one.
pub proof fn lemma_symmetry_composed(b: u64, j: int, i: int)
    requires
        0 <= i < 8,
        0 <= j < 8,
    ensures
        symmetry_of(symmetry_of(b, j), i) == symmetry_of(b, composed(j, i)),
{
    let x = symmetry_of(symmetry_of(b, j), i);
    let y = symmetry_of(b, composed(j, i));
    lemma_composed(0, j, i);
    assert forall|t: int| 0 <= t < 64 implies bit(x, t) == bit(y, t) by {
        let u = mapped(t, inverse(i));
        lemma_mapped(t, inverse(i));
        let s = mapped(u, inverse(j));
        lemma_mapped(u, inverse(j));
        lemma_inverse(t, i);
        lemma_inverse(u, j);
        lemma_mapped_bit(symmetry_of(b, j), u, i);
        lemma_mapped_bit(b, s, j);
        lemma_mapped_bit(b, s, composed(j, i));
        lemma_composed(s, j, i);
    }
    lemma_bit_ext(x, y);
}

/// The square to which the `i`-th symmetry moves a square.
pub fn map_square(s: u8, i: u8) -> (t: u8)
    requires
        s < 64,
        i < 8,
    ensures
        t == mapped(s as int, i as int),
        t < 64,
{
    proof {
        reveal(mapped_file);
        reveal(mapped_rank);
        lemma_mapped(s as int, i as int);
    }
    let f: u8 = s / 8;
    let r: u8 = s % 8;
    let (a, c): (u8, u8) = if i == 0 {
        (f, r)
    } else if i == 1 {
        (7 - r, f)
    } else if i == 2 {
        (7 - f, 7 - r)
    } else if i == 3 {
        (r, 7 - f)
    } else if i == 4 {
        (7 - f, r)
    } else if i == 5 {
        (7 - r, 7 - f)
    } else if i == 6 {
        (f, 7 - r)
    } else {
        (r, f)
    };
    a * 8 + c
}

/// The symmetry that takes the `i`-th back.
pub fn inverse_form(i: u8) -> (j: u8)
    requires
        i < 8,
    ensures
        j == inverse(i as int),
        j < 8,
{
    if i == 1 {
        3
    } else if i == 3 {
        1
    } else {
        i
    }
}

/// File step under the `i`-th symmetry.
pub open spec fn step_mapped_file(a: int, c: int, i: int) -> int {
    mapped_file(a, c, i) - mapped_file(0, 0, i)
}

/// Rank step under the `i`-th symmetry.
pub open spec fn step_mapped_rank(a: int, c: int, i: int) -> int {
    mapped_rank(a, c, i) - mapped_rank(0, 0, i)
}

/// A square shows the same after a symmetry, also off the board.
proof fn lemma_mapped_holds(b: u64, f: int, r: int, i: int)
    requires
        0 <= i < 8,
    ensures
        holds(symmetry_of(b, i), mapped_file(f, r, i), mapped_rank(f, r, i)) == holds(b, f, r),
{
    lemma_step(f, r, 0, 0, i);
    if inside(f, r) {
        let s = f * 8 + r;
        assert(s / 8 == f && s % 8 == r);
        lemma_mapped(s, i);
        lemma_mapped_bit(b, s, i);
    }
}

proof fn lemma_mapped_closed(p: u64, o: u64, f: int, r: int, a: int, c: int, i: int)
    requires
        0 <= i < 8,
        unit_step(a, c),
    ensures
        closed_by(
            symmetry_of(p, i),
            symmetry_of(o, i),
            mapped_file(f, r, i),
            mapped_rank(f, r, i),
            step_mapped_file(a, c, i),
            step_mapped_rank(a, c, i),
        ) == closed_by(p, o, f, r, a, c),
    decreases room(f, r, a, c),
{
    lemma_mapped_holds(o, f, r, i);
    lemma_mapped_holds(p, f, r, i);
    lemma_step(f, r, a, c, i);
    if holds(o, f, r) {
        lemma_mapped_closed(p, o, f + a, r + c, a, c, i);
    }
}

proof fn lemma_mapped_on_run(o: u64, f: int, r: int, a: int, c: int, q: int, i: int)
    requires
        0 <= i < 8,
        unit_step(a, c),
        0 <= q < 64,
    ensures
        on_run(
            symmetry_of(o, i),
            mapped_file(f, r, i),
            mapped_rank(f, r, i),
            step_mapped_file(a, c, i),
            step_mapped_rank(a, c, i),
            mapped(q, i),
        ) == on_run(o, f, r, a, c, q),
    decreases room(f, r, a, c),
{
    lemma_mapped_holds(o, f, r, i);
    lemma_step(f, r, a, c, i);
    if holds(o, f, r) {
        lemma_mapped_on_run(o, f + a, r + c, a, c, q, i);
        lemma_mapped(q, i);
        let s = f * 8 + r;
        assert(s / 8 == f && s % 8 == r);
        lemma_mapped(s, i);
        lemma_inverse(s, i);
        lemma_inverse(q, i);
    }
}

/// Every step to a neighbour is one of the directions.
proof fn lemma_direction(a: int, c: int) -> (d: int)
    requires
        unit_step(a, c),
    ensures
        0 <= d < 8,
        step_file(d) == a,
        step_rank(d) == c,
{
    if a == 0 {
        if c == 1 {
            0
        } else {
            1
        }
    } else if c == 0 {
        if a == 1 {
            2
        } else {
            3
        }
    } else if a == 1 {
        if c == 1 {
            4
        } else {
            6
        }
    } else if c == 1 {
        7
    } else {
        5
    }
}

/// A playable square stays playable under a symmetry.
proof fn lemma_mapped_playable_one(p: u64, o: u64, s: int, i: int)
    requires
        0 <= i < 8,
        0 <= s < 64,
        playable(p, o, s),
    ensures
        playable(symmetry_of(p, i), symmetry_of(o, i), mapped(s, i)),
{
    let d = choose|d: int| 0 <= d < 8 && #[trigger] captures_in(p, o, s, d);
    let a = step_file(d);
    let c = step_rank(d);
    lemma_mapped(s, i);
    lemma_mapped_bit(p, s, i);
    lemma_mapped_bit(o, s, i);
    lemma_step(s / 8, s % 8, a, c, i);
    lemma_mapped_holds(o, s / 8 + a, s % 8 + c, i);
    lemma_mapped_closed(p, o, s / 8 + a, s % 8 + c, a, c, i);
    let e = lemma_direction(step_mapped_file(a, c, i), step_mapped_rank(a, c, i));
    assert(captures_in(symmetry_of(p, i), symmetry_of(o, i), mapped(s, i), e));
}

/// A turned square stays turned under a symmetry.
proof fn lemma_mapped_turns_one(p: u64, o: u64, s: int, q: int, i: int)
    requires
        0 <= i < 8,
        0 <= s < 64,
        0 <= q < 64,
        turns(p, o, s, q),
    ensures
        turns(symmetry_of(p, i), symmetry_of(o, i), mapped(s, i), mapped(q, i)),
{
    let d = choose|d: int| 0 <= d < 8 && #[trigger] turns_in(p, o, s, q, d);
    let a = step_file(d);
    let c = step_rank(d);
    lemma_mapped(s, i);
    lemma_step(s / 8, s % 8, a, c, i);
    lemma_mapped_closed(p, o, s / 8 + a, s % 8 + c, a, c, i);
    lemma_mapped_on_run(o, s / 8 + a, s % 8 + c, a, c, q, i);
    let e = lemma_direction(step_mapped_file(a, c, i), step_mapped_rank(a, c, i));
    assert(turns_in(symmetry_of(p, i), symmetry_of(o, i), mapped(s, i), mapped(q, i), e));
}

/// A symmetry and the one that takes it back leave a set as it was.
pub proof fn lemma_symmetry_inverse(b: u64, i: int)
    requires
        0 <= i < 8,
    ensures
        symmetry_of(symmetry_of(b, i), inverse(i)) == b,
{
    lemma_symmetry_composed(b, i, inverse(i));
    assert(composed(i, inverse(i)) == 0);
}

/// Symmetric positions have symmetric moves: what is legal in one is legal in
/// the other on the mapped square, and leads to symmetric positions.
pub proof fn law_symmetric_moves(b: Board, s: int, i: int)
    requires
        0 <= i < 8,
        0 <= s < 64,
    ensures
        b.symmetry(i).legal(mapped(s, i)) == b.legal(s),
        b.symmetry(i).after(mapped(s, i)) == b.after(s).symmetry(i),
{
    let c = b.symmetry(i);
    let t = mapped(s, i);
    lemma_mapped(s, i);
    lemma_inverse(s, i);
    assert(0 <= inverse(i) < 8);
    lemma_symmetry_inverse(b.own(), i);
    lemma_symmetry_inverse(b.opp(), i);
    if b.legal(s) {
        lemma_mapped_playable_one(b.own(), b.opp(), s, i);
    }
    if c.legal(t) {
        lemma_mapped_playable_one(c.own(), c.opp(), t, inverse(i));
    }
    lemma_flips_of(b.own(), b.opp(), s);
    lemma_flips_of(c.own(), c.opp(), t);
    let flips = b.flips(s);
    let moved = c.flips(t);
    assert forall|u: int| 0 <= u < 64 implies bit(moved, u) == bit(symmetry_of(flips, i), u) by {
        let q = mapped(u, inverse(i));
        lemma_mapped(u, inverse(i));
        lemma_inverse(u, i);
        lemma_mapped_bit(flips, q, i);
        if turns(b.own(), b.opp(), s, q) {
            lemma_mapped_turns_one(b.own(), b.opp(), s, q, i);
        }
        if turns(c.own(), c.opp(), t, u) {
            lemma_mapped_turns_one(c.own(), c.opp(), t, u, inverse(i));
        }
    }
    lemma_bit_ext(moved, symmetry_of(flips, i));
    let own = b.opp() & !flips;
    let opp = b.own() | flips | (1u64 << (s as u64));
    let own2 = c.opp() & !moved;
    let opp2 = c.own() | moved | (1u64 << (t as u64));
    assert forall|u: int| 0 <= u < 64 implies bit(own2, u) == bit(symmetry_of(own, i), u) && bit(
        opp2,
        u,
    ) == bit(symmetry_of(opp, i), u) by {
        broadcast use group_bits;

        let q = mapped(u, inverse(i));
        lemma_mapped(u, inverse(i));
        lemma_inverse(u, i);
        lemma_inverse(q, i);
        lemma_mapped_bit(own, q, i);
        lemma_mapped_bit(opp, q, i);
        lemma_mapped_bit(b.own(), q, i);
        lemma_mapped_bit(b.opp(), q, i);
        lemma_mapped_bit(flips, q, i);
        assert(bit(1u64 << (s as u64), q) == (q == s));
        assert(bit(1u64 << (t as u64), u) == (u == t));
        assert(bit(!flips, q) == !bit(flips, q));
        assert(bit(!moved, u) == !bit(moved, u));
    }
    lemma_bit_ext(own2, symmetry_of(own, i));
    lemma_bit_ext(opp2, symmetry_of(opp, i));
}

} // verus!
