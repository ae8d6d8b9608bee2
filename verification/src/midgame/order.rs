//! The order in which moves are searched.

use vstd::prelude::*;

use crate::bits::{bit, count, count_ones, group_bits, iter_bits, lemma_bit_ext, lemma_bit_shl, lemma_bit_shr, lemma_count_bound, lemma_squares, lemma_word_of, squares, word_of};
use crate::board::{Board, lemma_after_wf, lemma_wf_sides};
use crate::pattern_index::PatternIndices;
use crate::position::Position;
use crate::search::{LeafEval, child_indices};
use crate::sorting::{comes_before, is_stable_order, listed, stable_order};

verus! {

/// The corners.
pub const CORNERS: u64 = 0x8100_0000_0000_0081;

/// Squares by how promising they are: corners, the ring round the centre, the
/// rest, and last the squares next to the corners. The four squares in the
/// middle are in none: they are taken from the start.
pub const STATIC_CELL_PRIORITY: [u64; 4] = [
    0x8100_0000_0000_0081,
    0x0000_3C24_243C_0000,
    0x3C3C_C3C3_C3C3_3C3C,
    0x42C3_0000_0000_C342,
];

/// A disc stands on the square from which one step in the direction leads to
/// square `s`.
pub open spec fn beside(discs: u64, s: int, df: int, dr: int) -> bool {
    let f = s / 8 - df;
    let r = s % 8 - dr;
    &&& 0 <= f < 8
    &&& 0 <= r < 8
    &&& bit(discs, f * 8 + r)
}

/// A disc stands on one of the squares round square `s`.
pub open spec fn touched(discs: u64, s: int) -> bool {
    ||| beside(discs, s, 0, 1)
    ||| beside(discs, s, 0, -1)
    ||| beside(discs, s, 1, 0)
    ||| beside(discs, s, -1, 0)
    ||| beside(discs, s, 1, -1)
    ||| beside(discs, s, -1, 1)
    ||| beside(discs, s, 1, 1)
    ||| beside(discs, s, -1, -1)
}

/// The empty squares next to discs.
pub open spec fn frontier(discs: u64, empties: u64) -> u64 {
    word_of(|s: int| touched(discs, s) && bit(empties, s))
}

/// What the masks of all squares but those of the last or the first rank hold.
proof fn lemma_ranks(t: u64)
    requires
        t < 64,
    ensures
        bit(0x7F7F_7F7F_7F7F_7F7F, t as int) == (t % 8 <= 6),
        bit(0xFEFE_FEFE_FEFE_FEFE, t as int) == (1 <= t % 8),
{
    assert(((0x7F7F_7F7F_7F7F_7F7Fu64 >> t) & 1 == 1) == (t % 8 <= 6)
        && ((0xFEFE_FEFE_FEFE_FEFEu64 >> t) & 1 == 1) == (1 <= t % 8)) by (bit_vector)
        requires
            t < 64,
    ;
}

/// One step up the squares.
proof fn lemma_step_up(discs: u64, k: u64, s: int, df: int, dr: int)
    requires
        0 <= s < 64,
        k == 1 && df == 0 && dr == 1 || k == 8 && df == 1 && dr == 0 || k == 7 && df == 1 && dr == -1
            || k == 9 && df == 1 && dr == 1,
    ensures
        dr == 1 ==> bit((discs & 0x7F7F_7F7F_7F7F_7F7F) << k, s) == beside(discs, s, df, dr),
        dr == 0 ==> bit(discs << k, s) == beside(discs, s, df, dr),
        dr == -1 ==> bit((discs & 0xFEFE_FEFE_FEFE_FEFE) << k, s) == beside(discs, s, df, dr),
{
    broadcast use group_bits;

    lemma_bit_shl(discs, k, s);
    lemma_bit_shl(discs & 0x7F7F_7F7F_7F7F_7F7F, k, s);
    lemma_bit_shl(discs & 0xFEFE_FEFE_FEFE_FEFE, k, s);
    if s >= k {
        lemma_ranks((s - k) as u64);
    }
}

/// One step down the squares.
proof fn lemma_step_down(discs: u64, k: u64, s: int, df: int, dr: int)
    requires
        0 <= s < 64,
        k == 1 && df == 0 && dr == -1 || k == 8 && df == -1 && dr == 0 || k == 7 && df == -1 && dr
            == 1 || k == 9 && df == -1 && dr == -1,
    ensures
        dr == 1 ==> bit((discs & 0x7F7F_7F7F_7F7F_7F7F) >> k, s) == beside(discs, s, df, dr),
        dr == 0 ==> bit(discs >> k, s) == beside(discs, s, df, dr),
        dr == -1 ==> bit((discs & 0xFEFE_FEFE_FEFE_FEFE) >> k, s) == beside(discs, s, df, dr),
{
    broadcast use group_bits;

    lemma_bit_shr(discs, k, s);
    lemma_bit_shr(discs & 0x7F7F_7F7F_7F7F_7F7F, k, s);
    lemma_bit_shr(discs & 0xFEFE_FEFE_FEFE_FEFE, k, s);
    if s + k < 64 {
        lemma_ranks((s + k) as u64);
    }
}

/// How many empty squares lie next to discs.
pub fn potential_mobility(discs: u64, empties: u64) -> (n: u32)
    ensures
        n == count(frontier(discs, empties)),
        n <= 64,
{
    let u: u64 = discs & 0x7F7F_7F7F_7F7F_7F7F;
    let d: u64 = discs & 0xFEFE_FEFE_FEFE_FEFE;
    let res: u64 = (u << 1u64) | (d >> 1u64) | (discs << 8u64) | (discs >> 8u64) | (d << 7u64) | (u
        >> 7u64) | (u << 9u64) | (d >> 9u64);
    let near: u64 = res & empties;
    proof {
        let g = |s: int| touched(discs, s) && bit(empties, s);
        let w = frontier(discs, empties);
        lemma_word_of(g);
        assert forall|s: int| 0 <= s < 64 implies bit(near, s) == bit(w, s) by {
            broadcast use group_bits;

            assert(bit(w, s) == g(s));
            lemma_step_up(discs, 1, s, 0, 1);
            lemma_step_down(discs, 1, s, 0, -1);
            lemma_step_up(discs, 8, s, 1, 0);
            lemma_step_down(discs, 8, s, -1, 0);
            lemma_step_up(discs, 7, s, 1, -1);
            lemma_step_down(discs, 7, s, -1, 1);
            lemma_step_up(discs, 9, s, 1, 1);
            lemma_step_down(discs, 9, s, -1, -1);
        }
        lemma_bit_ext(near, w);
        lemma_count_bound(near, 64);
    }
    count_ones(near)
}

/// A move with the discs that it turns and its place in the order.
#[derive(Clone, Copy, Debug)]
pub struct Kid {
    pub pos: Position,
    pub flipped: u64,
    /// Moves with a higher key are searched first.
    pub key: i64,
}

/// How the moves of a node are to be ordered.
#[derive(Clone, Copy, Debug)]
pub struct MoveOrder {
    /// The children are evaluated.
    pub by_value: bool,
    /// The node has a window of one unit.
    pub null_window: bool,
    pub tt_move: u8,
    pub tt_move2: u8,
}

/// Few answers are good: corners count once more.
pub open spec fn answers(nb: Board) -> int {
    38 - (2 * count(nb.moves()) + count(nb.moves() & CORNERS))
}

/// Few empty squares next to the mover's discs are good.
pub open spec fn shelter(nb: Board) -> int {
    38 - count(frontier(nb.opp(), !(nb.black | nb.white)))
}

/// The place of a move in the order. The table's moves come first. At nodes
/// with a window of one unit the answers weigh most, elsewhere the value.
pub open spec fn order_key<E: LeafEval>(e: E, b: Board, s: int, o: MoveOrder) -> int {
    let nb = b.after(s);
    let v = if o.by_value {
        -e.leaf(nb)
    } else {
        0
    };
    if s == o.tt_move {
        i64::MAX as int
    } else if s == o.tt_move2 {
        i64::MAX - 1
    } else if o.null_window {
        1700 * answers(nb) + 7 * v
    } else {
        3500 * answers(nb) + 1700 * shelter(nb) + 269 * v
    }
}

/// The kids are the moves of the set.
pub open spec fn kids_fit(v: Seq<Kid>, b: Board, moves: u64) -> bool {
    &&& forall|i: int|
        0 <= i < v.len() ==> (#[trigger] v[i]).pos.wf() && bit(moves, v[i].pos.0 as int) && b.legal(
            v[i].pos.0 as int,
        ) && v[i].flipped == b.flips(v[i].pos.0 as int)
    &&& forall|s: int|
        0 <= s < 64 && #[trigger] bit(moves, s) ==> exists|i: int|
            0 <= i < v.len() && (#[trigger] v[i]).pos.0 == s
}

/// The moves of the set, in the order of the board.
pub fn listed_kids(b: &Board, moves: u64) -> (v: Vec<Kid>)
    requires
        b.wf(),
        forall|s: int| 0 <= s < 64 && #[trigger] bit(moves, s) ==> b.legal(s),
    ensures
        kids_fit(v@, *b, moves),
        v@.len() == squares(moves).len(),
        forall|i: int| 0 <= i < v@.len() ==> (#[trigger] v@[i]).pos.0 == squares(moves)[i],
{
    let list: Vec<u8> = iter_bits(moves);
    proof {
        lemma_squares(moves, 64);
    }
    let mut v: Vec<Kid> = Vec::new();
    let mut i: usize = 0;
    while i < list.len()
        invariant
            b.wf(),
            list@ == squares(moves),
            forall|k: int|
                0 <= k < list@.len() ==> #[trigger] list@[k] < 64 && bit(moves, list@[k] as int),
            forall|s: int| 0 <= s < 64 && #[trigger] bit(moves, s) ==> b.legal(s),
            i <= list@.len(),
            v@.len() == i,
            forall|k: int|
                0 <= k < i ==> (#[trigger] v@[k]).pos.0 == list@[k] && v@[k].flipped == b.flips(
                    list@[k] as int,
                ),
        decreases list@.len() - i,
    {
        let pos = Position(list[i]);
        assert(list@[i as int] < 64);
        assert(bit(moves, pos.0 as int));
        proof {
            lemma_wf_sides(*b);
            lemma_after_wf(*b, pos.0 as int);
        }
        let mut nb: Board = *b;
        let flipped: u64 = nb.make_move_bits(pos);
        v.push(Kid { pos, flipped, key: 0 });
        i = i + 1;
    }
    proof {
        assert forall|s: int| 0 <= s < 64 && #[trigger] bit(moves, s) implies exists|i: int|
            0 <= i < v@.len() && (#[trigger] v@[i]).pos.0 == s by {
            let k = choose|k: int| 0 <= k < list@.len() && #[trigger] list@[k] == s;
            assert(v@[k].pos.0 == s);
        }
    }
    v
}

/// The place of a move in the order.
fn kid_key<E: LeafEval>(
    evaluator: &E,
    b: &Board,
    indices: &PatternIndices,
    kid: &Kid,
    o: &MoveOrder,
) -> (key: i64)
    requires
        evaluator.valid(),
        b.wf(),
        evaluator.tables().holds(*indices, b.black, b.white),
        kid.pos.wf(),
        b.legal(kid.pos.0 as int),
        kid.flipped == b.flips(kid.pos.0 as int),
    ensures
        key == order_key(*evaluator, *b, kid.pos.0 as int, *o),
        key > i64::MIN,
{
    let s: u8 = kid.pos.0;
    if s == o.tt_move {
        return i64::MAX;
    }
    if s == o.tt_move2 {
        return i64::MAX - 1;
    }
    let ghost next = b.after(s as int);
    proof {
        lemma_wf_sides(*b);
        lemma_after_wf(*b, s as int);
        lemma_count_bound(next.moves(), 64);
        lemma_count_bound(next.moves() & CORNERS, 64);
        evaluator.leaf_bounded(next);
    }
    let mut nb: Board = *b;
    let _ = nb.make_move_bits(kid.pos);
    let legal: u64 = nb.movable();
    let mob: i64 = 38 - (count_ones(legal) as i64 * 2 + count_ones(legal & CORNERS) as i64);
    let v: i64 = if o.by_value {
        let ix: PatternIndices = child_indices(
            evaluator.indexer(),
            b,
            indices,
            kid.pos,
            kid.flipped,
        );
        -(evaluator.eval_indices(&nb, &ix) as i64)
    } else {
        0
    };
    if o.null_window {
        1700 * mob + 7 * v
    } else {
        let pm: i64 = 38 - potential_mobility(nb.opponent_bb(), !(nb.black | nb.white)) as i64;
        3500 * mob + 1700 * pm + 269 * v
    }
}

/// The moves of the set, those with the highest keys first.
pub fn ordered_into<E: LeafEval>(
    evaluator: &E,
    b: &Board,
    indices: &PatternIndices,
    moves: u64,
    o: &MoveOrder,
) -> (v: Vec<Kid>)
    requires
        evaluator.valid(),
        b.wf(),
        evaluator.tables().holds(*indices, b.black, b.white),
        forall|s: int| 0 <= s < 64 && #[trigger] bit(moves, s) ==> b.legal(s),
    ensures
        kids_fit(v@, *b, moves),
        v@.len() == squares(moves).len(),
        forall|i: int|
            0 <= i < v@.len() ==> (#[trigger] v@[i]).key == order_key(
                *evaluator,
                *b,
                v@[i].pos.0 as int,
                *o,
            ),
        forall|i: int, j: int| 0 <= i < j < v@.len() ==> v@[i].key >= v@[j].key,
{
    let list: Vec<Kid> = listed_kids(b, moves);
    let mut keys: Vec<i64> = Vec::new();
    let mut i: usize = 0;
    while i < list.len()
        invariant
            evaluator.valid(),
            b.wf(),
            evaluator.tables().holds(*indices, b.black, b.white),
            kids_fit(list@, *b, moves),
            i <= list@.len(),
            keys@.len() == i,
            forall|k: int|
                0 <= k < i ==> #[trigger] keys@[k] == -order_key(
                    *evaluator,
                    *b,
                    list@[k].pos.0 as int,
                    *o,
                ),
            forall|k: int| 0 <= k < i ==> #[trigger] keys@[k] > i64::MIN,
        decreases list@.len() - i,
    {
        assert(list@[i as int].pos.wf());
        let key: i64 = kid_key(evaluator, b, indices, &list[i], o);
        keys.push(-key);
        i = i + 1;
    }
    let order: Vec<usize> = stable_order(&keys);
    let mut v: Vec<Kid> = Vec::new();
    let mut t: usize = 0;
    while t < order.len()
        invariant
            is_stable_order(keys@, order@, keys@.len() as int),
            keys@.len() == list@.len(),
            forall|k: int| 0 <= k < keys@.len() ==> #[trigger] keys@[k] > i64::MIN,
            t <= order@.len(),
            v@.len() == t,
            forall|k: int|
                0 <= k < t ==> (#[trigger] v@[k]).pos == list@[order@[k] as int].pos && v@[k].flipped
                    == list@[order@[k] as int].flipped && v@[k].key == -keys@[order@[k] as int],
        decreases order@.len() - t,
    {
        assert(order@[t as int] < keys@.len());
        let at: usize = order[t];
        assert(keys@[at as int] > i64::MIN);
        let kid: Kid = list[at];
        v.push(Kid { pos: kid.pos, flipped: kid.flipped, key: -keys[at] });
        t = t + 1;
    }
    proof {
        let n = v@.len() as int;
        assert forall|i: int| 0 <= i < n implies (#[trigger] v@[i]).pos.wf() && bit(
            moves,
            v@[i].pos.0 as int,
        ) && b.legal(v@[i].pos.0 as int) && v@[i].flipped == b.flips(v@[i].pos.0 as int)
            && v@[i].key == order_key(*evaluator, *b, v@[i].pos.0 as int, *o) by {
            assert(order@[i] < n);
            assert(list@[order@[i] as int].pos.wf());
            assert(keys@[order@[i] as int] == -order_key(
                *evaluator,
                *b,
                list@[order@[i] as int].pos.0 as int,
                *o,
            ));
        }
        assert forall|s: int| 0 <= s < 64 && #[trigger] bit(moves, s) implies exists|i: int|
            0 <= i < n && (#[trigger] v@[i]).pos.0 == s by {
            let k = choose|k: int| 0 <= k < list@.len() && (#[trigger] list@[k]).pos.0 == s;
            assert(listed(order@, k));
            let i = choose|i: int| 0 <= i < order@.len() && #[trigger] order@[i] == k;
            assert(v@[i].pos.0 == s);
        }
        assert forall|i: int, j: int| 0 <= i < j < n implies v@[i].key >= v@[j].key by {
            assert(comes_before(keys@, order@[i] as int, order@[j] as int));
        }
    }
    v
}

/// The table's move comes before every other, its second move before every other
/// but that one. Among the rest, other things being equal, a move comes before
/// another that leaves more answers, more empty squares next to the mover's discs,
/// or a position that is worth more to the opponent.
pub proof fn law_order<E: LeafEval>(e: E, b: Board, s: int, t: int, o: MoveOrder)
    requires
        e.valid(),
        b.wf(),
        0 <= s < 64,
        0 <= t < 64,
        b.legal(s),
        b.legal(t),
        s != t,
    ensures
        s == o.tt_move ==> order_key(e, b, s, o) > order_key(e, b, t, o),
        s == o.tt_move2 && t != o.tt_move && s != o.tt_move ==> order_key(e, b, s, o) > order_key(
            e,
            b,
            t,
            o,
        ),
        s != o.tt_move && s != o.tt_move2 && t != o.tt_move && t != o.tt_move2 ==> {
            let (x, y) = (b.after(s), b.after(t));
            let fewer = 2 * count(x.moves()) + count(x.moves() & CORNERS) < 2 * count(y.moves()) + count(
                y.moves() & CORNERS,
            );
            let same = 2 * count(x.moves()) + count(x.moves() & CORNERS) == 2 * count(y.moves()) + count(
                y.moves() & CORNERS,
            );
            let (open_x, open_y) = (
                count(frontier(x.opp(), !(x.black | x.white))),
                count(frontier(y.opp(), !(y.black | y.white))),
            );
            &&& fewer && e.leaf(x) == e.leaf(y) && (o.null_window || open_x == open_y) ==> order_key(
                e,
                b,
                s,
                o,
            ) > order_key(e, b, t, o)
            &&& same && e.leaf(x) == e.leaf(y) && !o.null_window && open_x < open_y ==> order_key(
                e,
                b,
                s,
                o,
            ) > order_key(e, b, t, o)
            &&& same && o.by_value && e.leaf(x) < e.leaf(y) && (o.null_window || open_x == open_y)
                ==> order_key(e, b, s, o) > order_key(e, b, t, o)
        },
{
    lemma_after_wf(b, s);
    lemma_after_wf(b, t);
    let (x, y) = (b.after(s), b.after(t));
    e.leaf_bounded(x);
    e.leaf_bounded(y);
    lemma_count_bound(x.moves(), 64);
    lemma_count_bound(y.moves(), 64);
    lemma_count_bound(x.moves() & CORNERS, 64);
    lemma_count_bound(y.moves() & CORNERS, 64);
    lemma_count_bound(frontier(x.opp(), !(x.black | x.white)), 64);
    lemma_count_bound(frontier(y.opp(), !(y.black | y.white)), 64);
}

} // verus!
