//! What the engine's answers mean, in terms of the positions they are about.

use vstd::prelude::*;

use crate::bits::{bit, lemma_masked, lemma_squares, squares};
use crate::board::{Board, lemma_after_wf, lemma_moves};
use crate::book::{Candidate, EntryView, close_ones, entry_for, law_best_candidate, law_close_ones, shown};
use crate::midgame::{Deepened, NnueSearch, found, raised, settled};
use crate::midgame::table::{lemma_slot_below, lemma_slot_for, seeded, slot_below, slot_for};
use crate::midgame::value::{FINISHED, lemma_nn_bound, nn_value, view_hash};
use crate::position::Position;
use crate::search::{LeafEval, final_score_of, law_winner_gets_the_rest};
use crate::solver::{EndSolverResult, law_best_play, law_midgame_full_depth_is_solved, result_of};
use crate::sorting::{comes_before, is_stable_order, listed};
use super::{BACKUP_DEPTH, Engine, EngineConfig, LEARN_EMPTIES, MoveEval, Plan, Scoring, all_exact, by_value, child_depth, highest, is_evaluation, learn_limit, pages_or_none, pass_after, scores_first, search_answer, select_answer, solve_answer, stone_or_zero, whole_book};

verus! {

/// Values in discs keep their sign: from the other side a value is the same the
/// other way round. Ordinary values stay as they are, those of games searched to
/// their end are a hundred to a disc, and none is beyond the board.
pub proof fn law_stones_turn_round(v: i32)
    ensures
        stone_or_zero(Some(v), -1) == -stone_or_zero(Some(v), 1),
        -6400 <= v <= 6400 ==> stone_or_zero(Some(v), 1) == v,
        forall|k: int| -64 <= k <= 64 && v == #[trigger] (k * FINISHED) ==> stone_or_zero(Some(v), 1) == 100 * k,
        v >= 0 ==> 0 <= stone_or_zero(Some(v), 1) <= 6400,
        v > 0 ==> stone_or_zero(Some(v), 1) > 0,
        v < 0 ==> -6400 <= stone_or_zero(Some(v), 1) < 0,
        6400 < v < 99_900 || v > 6_400_000 ==> stone_or_zero(Some(v), 1) == 6400,
        99_900 <= v <= 6_400_000 ==> 1000 * stone_or_zero(Some(v), 1) <= v < 1000 * stone_or_zero(
            Some(v),
            1,
        ) + 1000,
        stone_or_zero(None, 1) == 0 && stone_or_zero(None, -1) == 0,
{
}

/// A scored move is worth to the mover what the position after it is worth to the
/// other side, the other way round: the game's result where the game is over then,
/// that of best play where few enough squares are left, and else what a search on
/// an empty table found there.
pub proof fn law_move_is_the_reply_turned_round<E: LeafEval>(how: Scoring<E>, b: Board, p: Position, m: MoveEval)
    requires
        b.wf(),
        p.wf(),
        b.legal(p.0 as int),
        how.gives(b, p, m),
    ensures
        m.pos == Some(p),
        !m.from_book && !m.learned && !m.cut,
        ({
            let child = b.after(p.0 as int);
            &&& child.finished() ==> m.exact && m.value == -100 * final_score_of(child)
            &&& !child.finished() && child.empty_count <= how.limit ==> m.exact && m.value == -100
                * result_of(child)
            &&& !child.finished() && child.empty_count > how.limit ==> !m.exact && exists|
                s: NnueSearch,
                d: Deepened,
            | #[trigger]
                found(s, how.evaluator, child, how.depth, d) && s.blank() && s.same_setting(
                    how.search,
                ) && (d.value matches Some(v) ==> (-6400 <= v <= 6400 ==> m.value == -v) && (v > 0
                    ==> m.value < 0) && (v < 0 ==> m.value > 0)) && (d.value is None ==> m.value == 0)
                    && (how.counted && d.depth < u32::MAX ==> m.depth == d.depth + 1) && (!how.counted
                    ==> m.depth == 0)
        }),
{
    let child = b.after(p.0 as int);
    lemma_after_wf(b, p.0 as int);
    law_best_play(b);
    law_best_play(child);
    law_winner_gets_the_rest(child);
    if !child.finished() && child.empty_count > how.limit {
        let (s, d) = choose|s: NnueSearch, d: Deepened| #[trigger]
            found(s, how.evaluator, child, how.depth, d) && s.blank() && s.same_setting(how.search)
                && m == (MoveEval {
                depth: if how.counted && d.depth < u32::MAX {
                    (d.depth + 1) as u32
                } else {
                    0
                },
                ..MoveEval::plain(Some(p), stone_or_zero(d.value, -1), false)
            });
        if let Some(v) = d.value {
            law_stones_turn_round(v);
        }
        assert(found(s, how.evaluator, child, how.depth, d));
    }
}

/// A move that is scored by a search to the end of the game gets the score that a
/// solve gives it, where nothing stops the search and it is settled.
pub proof fn law_search_and_solve_agree<E: LeafEval>(
    solving: Scoring<E>,
    searching: Scoring<E>,
    b: Board,
    p: Position,
    m: MoveEval,
    n: MoveEval,
)
    requires
        b.wf(),
        p.wf(),
        b.legal(p.0 as int),
        searching.evaluator.valid(),
        b.after(p.0 as int).can_move(),
        searching.limit < b.after(p.0 as int).empty_count <= solving.limit,
        searching.depth >= b.after(p.0 as int).empty_count,
        !raised(searching.search.stop),
        forall|s: NnueSearch|
            s.blank() && s.same_setting(searching.search) ==> #[trigger] settled(
                s,
                searching.evaluator,
                b.after(p.0 as int),
                searching.depth as int,
            ),
        solving.gives(b, p, m),
        searching.gives(b, p, n),
    ensures
        n.value == m.value,
        m.value == -100 * result_of(b.after(p.0 as int)),
{
    let child = b.after(p.0 as int);
    lemma_after_wf(b, p.0 as int);
    law_move_is_the_reply_turned_round(solving, b, p, m);
    law_midgame_full_depth_is_solved(searching.evaluator, child, searching.depth as nat);
    lemma_nn_bound(searching.evaluator, child, searching.depth as nat);
    law_best_play(child);
    let (s, d) = choose|s: NnueSearch, d: Deepened| #[trigger]
        found(s, searching.evaluator, child, searching.depth, d) && s.blank() && s.same_setting(
            searching.search,
        ) && n == (MoveEval {
            depth: if searching.counted && d.depth < u32::MAX {
                (d.depth + 1) as u32
            } else {
                0
            },
            ..MoveEval::plain(Some(p), stone_or_zero(d.value, -1), false)
        });
    let reply = choose|r: int| 0 <= r < 64 && #[trigger] child.legal(r);
    lemma_after_wf(child, reply);
    assert(settled(s, searching.evaluator, child, searching.depth as int));
    assert(d.depth == searching.depth);
    let v = nn_value(searching.evaluator, child, searching.depth as nat) as i32;
    let k = result_of(child);
    law_stones_turn_round(v);
    assert(v == k * FINISHED);
    assert(stone_or_zero(Some(v), 1) == 100 * k);
}

/// A move that is scored exactly and the position after it that is evaluated
/// exactly are worth the same, the other way round.
pub proof fn law_move_and_position_agree<E: LeafEval>(
    how: Scoring<E>,
    s: NnueSearch,
    e: E,
    b: Board,
    p: Position,
    depth: u32,
    limit: int,
    m: MoveEval,
    n: MoveEval,
)
    requires
        b.wf(),
        p.wf(),
        b.legal(p.0 as int),
        how.gives(b, p, m),
        is_evaluation(s, e, b.after(p.0 as int), depth, limit, n),
        m.exact,
        n.exact,
    ensures
        n.value == -m.value,
        n.value == 100 * result_of(b.after(p.0 as int)),
{
    let child = b.after(p.0 as int);
    lemma_after_wf(b, p.0 as int);
    law_move_is_the_reply_turned_round(how, b, p, m);
    law_best_play(child);
}

/// An evaluation says what the position is worth to the side to move: the score of
/// a finished game, the result of best play where it is exact, with a move that
/// reaches it, and else what a search found.
pub proof fn law_evaluation_is_the_position_worth<E: LeafEval>(
    s: NnueSearch,
    e: E,
    b: Board,
    depth: u32,
    limit: int,
    m: MoveEval,
)
    requires
        b.wf(),
        is_evaluation(s, e, b, depth, limit, m),
    ensures
        b.finished() ==> m.exact && m.pos is None && m.value == 100 * final_score_of(b),
        m.exact ==> b.finished() || b.empty_count <= limit,
        m.exact ==> m.value == 100 * result_of(b),
        m.exact && b.can_move() ==> (m.pos matches Some(p) && b.legal(p.0 as int) && m.value == -100
            * result_of(b.after(p.0 as int))),
        !b.finished() && b.empty_count > limit ==> exists|d: Deepened| #[trigger]
            found(s, e, b, depth, d) && m.pos == d.best_move && (d.value matches Some(v) ==> (-6400
                <= v <= 6400 ==> m.value == v) && (v > 0 ==> m.value > 0) && (v < 0 ==> m.value < 0)),
{
    law_best_play(b);
    law_winner_gets_the_rest(b);
    if !b.finished() && b.empty_count > limit {
        let d = choose|d: Deepened| #[trigger]
            found(s, e, b, depth, d) && m == MoveEval::plain(
                d.best_move,
                stone_or_zero(d.value, 1),
                false,
            );
        if let Some(v) = d.value {
            law_stones_turn_round(v);
        }
        assert(found(s, e, b, depth, d));
    }
}

/// What is chosen. The book comes first. A finished game is worth its score. Where
/// few squares are empty, and no stop was seen, the choice is best play, and counts
/// as such; where a few more are, it is best play and does not count so. Elsewhere
/// it is what a search of the whole depth found, unless a stop was seen.
pub proof fn law_choice<E: LeafEval>(engine: Engine<E>, b: Board, m: MoveEval)
    requires
        b.wf(),
        engine.chooses(b, m),
    ensures
        engine.book_answer(b) matches Some((pos, value, depth)) ==> m.from_book && m.pos == Some(pos)
            && m.value == value && !m.exact && m.learned == (entry_for(engine.learned@, b) is Some),
        engine.book_answer(b) is None ==> !m.from_book,
        engine.book_answer(b) is None && b.finished() ==> m.exact && m.pos is None && m.value == 100
            * final_score_of(b),
        m.exact ==> m.value == 100 * result_of(b),
        engine.book_answer(b) is None && !b.finished() && b.empty_count <= engine.config.solve_empties
            && !raised(engine.solver.stop) ==> {
            &&& m.exact
            &&& m.value == 100 * result_of(b)
            &&& b.can_move() ==> (m.pos matches Some(p) && b.legal(p.0 as int) && m.value == -100
                * result_of(b.after(p.0 as int)))
        },
        engine.book_answer(b) is None && !b.finished() && engine.config.solve_empties < b.empty_count
            <= engine.config.solve_empties + engine.config.band && b.empty_count
            <= engine.config.solve_empties + 6 && !raised(engine.solver.stop) ==> {
            &&& !m.exact
            &&& m.value == 100 * result_of(b)
            &&& b.can_move() ==> (m.pos matches Some(p) && b.legal(p.0 as int) && m.value == -100
                * result_of(b.after(p.0 as int)))
        },
        engine.book_answer(b) is None && !b.finished() && b.empty_count > engine.config.solve_empties
            && (b.empty_count > engine.config.solve_empties + engine.config.band || b.empty_count
            > engine.config.solve_empties + 6) ==> {
            &&& !m.exact
            &&& b.can_move() ==> (m.pos matches Some(p) && b.legal(p.0 as int))
            &&& b.can_move() && !raised(engine.search.stop) ==> m.depth == engine.config.depth
            &&& exists|d: Deepened| #[trigger]
                found(engine.search, engine.evaluator, b, engine.config.depth, d) && m.depth == d.depth
                    && m.pos == d.best_move && (d.value matches Some(v) ==> (-6400 <= v <= 6400
                    ==> m.value == v) && (v > 0 ==> m.value > 0) && (v < 0 ==> m.value < 0))
        },
{
    law_best_play(b);
    law_winner_gets_the_rest(b);
    match engine.planned(b) {
        Plan::Answer(a) => {},
        Plan::Solve => {
            let r = choose|r: Option<EndSolverResult>|
                engine.solves(b, r) && m == #[trigger] solve_answer(r, false, None);
        },
        Plan::Select(t) => {
            let r = choose|r: Option<EndSolverResult>|
                engine.solves(b, r) && m == #[trigger] select_answer(r, false, None);
        },
        Plan::Search => {
            let d = choose|d: Deepened| #[trigger]
                found(engine.search, engine.evaluator, b, engine.config.depth, d) && m
                    == search_answer(d, false);
            if let Some(v) = d.value {
                law_stones_turn_round(v);
            }
            assert(found(engine.search, engine.evaluator, b, engine.config.depth, d));
        },
    }
}

/// No more candidates are close than there are.
proof fn lemma_few_close(moves: Seq<Candidate>, floor: int, n: int)
    requires
        0 <= n,
    ensures
        close_ones(moves, floor, n).len() <= n,
    decreases n,
{
    if n > 0 {
        lemma_few_close(moves, floor, n - 1);
    }
}

/// The book answers where it is consulted and has a candidate, with one of the
/// position's candidates, shown on the board as it lies, that is at most the
/// tolerance worse than every other; without a tolerance none is better.
pub proof fn law_book_answer_is_close<E: LeafEval>(engine: Engine<E>, b: Board)
    requires
        entry_for(pages_or_none(engine.book), b) matches Some(e) ==> e.moves.len() <= usize::MAX,
    ensures
        ({
            let entry = entry_for(pages_or_none(engine.book), b);
            &&& engine.book_answer(b) is Some == (engine.config.use_book && (entry matches Some(e)
                && e.moves.len() > 0))
            &&& engine.book_answer(b) matches Some((pos, value, depth)) ==> {
                let e = entry->Some_0;
                &&& depth == e.depth
                &&& exists|k: int|
                    0 <= k < e.moves.len() && (#[trigger] e.moves[k]).value == value && shown(
                        e.moves[k],
                        b,
                    ) == pos
                &&& forall|j: int|
                    0 <= j < e.moves.len() ==> (#[trigger] e.moves[j]).value - engine.config.book_tolerance
                        <= value
            }
        }),
{
    let pages = pages_or_none(engine.book);
    if let Some(e) = entry_for(pages, b) {
        let n = e.moves.len() as int;
        law_best_candidate(e);
        if n > 0 {
            let c = e.best()->Some_0;
            let floor = c.value - engine.config.book_tolerance;
            let k = choose|k: int| 0 <= k < n && #[trigger] e.moves[k] == c;
            law_close_ones(e.moves, floor, n);
            let near = close_ones(e.moves, floor, n);
            assert(e.moves[k].value >= floor);
            assert(near.contains(k));
            if engine.consults() && engine.config.book_tolerance > 0 {
                let pick = engine.rand_after() >> 11;
                let at = (pick % (near.len() as u64)) as int;
                lemma_few_close(e.moves, floor, n);
                assert(0 <= at < near.len());
                let i = near[at];
                assert(near.contains(i));
                assert(e.moves[i].value >= floor);
            }
        }
    }
}

/// The list of scored moves: every scored move once, the highest value first, and
/// equal values as they stood.
pub proof fn law_best_moves_first(marks: Seq<(Position, MoveEval)>, out: Seq<(Position, MoveEval)>)
    requires
        by_value(marks, out),
    ensures
        out.len() == marks.len(),
        forall|i: int, j: int|
            0 <= i < j < out.len() ==> (#[trigger] out[i]).1.value >= (#[trigger] out[j]).1.value,
        forall|k: int| 0 <= k < marks.len() ==> out.contains(#[trigger] marks[k]),
        forall|i: int| 0 <= i < out.len() ==> marks.contains(#[trigger] out[i]),
        forall|i: int, j: int|
            0 <= i < j < marks.len() && marks[i].1.value == marks[j].1.value ==> exists|
                a: int,
                c: int,
            |
                0 <= a < c < out.len() && out[a] == #[trigger] marks[i] && out[c] == #[trigger] marks[j],
{
    let keys = Seq::new(marks.len(), |i: int| (-(marks[i].1.value as int)) as i64);
    let order = choose|order: Seq<usize>| #[trigger]
        is_stable_order(keys, order, marks.len() as int) && out == Seq::new(
            order.len(),
            |i: int| marks[order[i] as int],
        );
    assert forall|i: int, j: int| 0 <= i < j < out.len() implies (#[trigger] out[i]).1.value >= (
    #[trigger] out[j]).1.value by {
        assert(comes_before(keys, order[i] as int, order[j] as int));
    }
    assert forall|k: int| 0 <= k < marks.len() implies out.contains(#[trigger] marks[k]) by {
        assert(listed(order, k));
        let i = choose|i: int| 0 <= i < order.len() && #[trigger] order[i] == k;
        assert(out[i] == marks[k]);
    }
    assert forall|i: int, j: int|
        0 <= i < j < marks.len() && marks[i].1.value == marks[j].1.value implies exists|
        a: int,
        c: int,
    |
        0 <= a < c < out.len() && out[a] == #[trigger] marks[i] && out[c] == #[trigger] marks[j] by {
        assert(listed(order, i));
        assert(listed(order, j));
        let a = choose|a: int| 0 <= a < order.len() && #[trigger] order[a] == i;
        let c = choose|c: int| 0 <= c < order.len() && #[trigger] order[c] == j;
        if c < a {
            assert(comes_before(keys, order[c] as int, order[a] as int));
        }
        assert(out[a] == marks[i] && out[c] == marks[j]);
    }
}

/// An analysis that scored every move lists each legal move once with its score.
/// Where all are exact, the first is worth what best play from the position is.
pub proof fn law_analysis_covers_the_moves<E: LeafEval>(
    how: Scoring<E>,
    b: Board,
    marks: Seq<(Position, MoveEval)>,
    out: Seq<(Position, MoveEval)>,
)
    requires
        b.wf(),
        scores_first(how, b, marks),
        marks.len() == squares(b.moves()).len(),
        by_value(marks, out),
    ensures
        forall|s: int| 0 <= s < 64 && #[trigger] b.legal(s) ==> exists|i: int|
            0 <= i < out.len() && (#[trigger] out[i]).0.0 == s,
        forall|i: int|
            0 <= i < out.len() ==> (#[trigger] out[i]).0.wf() && b.legal(out[i].0.0 as int) && how.gives(
                b,
                out[i].0,
                out[i].1,
            ),
        b.can_move() == (out.len() > 0),
        b.can_move() && all_exact(marks, marks.len() as int) ==> out[0].1.value == 100 * result_of(b),
{
    let list = squares(b.moves());
    lemma_squares(b.moves(), 64);
    lemma_moves(b);
    law_best_moves_first(marks, out);
    assert forall|s: int| 0 <= s < 64 && #[trigger] b.legal(s) implies exists|i: int|
        0 <= i < out.len() && (#[trigger] out[i]).0.0 == s by {
        assert(bit(b.moves(), s));
        let k = choose|k: int| 0 <= k < list.len() && #[trigger] list[k] == s;
        assert(marks[k].0.0 == s);
        assert(out.contains(marks[k]));
        let i = choose|i: int| 0 <= i < out.len() && out[i] == marks[k];
        assert(out[i].0.0 == s);
    }
    assert forall|i: int| 0 <= i < out.len() implies (#[trigger] out[i]).0.wf() && b.legal(
        out[i].0.0 as int,
    ) && how.gives(b, out[i].0, out[i].1) by {
        assert(marks.contains(out[i]));
        let k = choose|k: int| 0 <= k < marks.len() && marks[k] == out[i];
        assert(list[k] < 64);
        assert(bit(b.moves(), list[k] as int));
    }
    if out.len() > 0 {
        assert(b.legal(out[0].0.0 as int));
    }
    if b.can_move() && all_exact(marks, marks.len() as int) {
        law_best_play(b);
        lemma_each_exact(marks, marks.len() as int);
        assert forall|i: int| 0 <= i < out.len() implies (#[trigger] out[i]).1.value == -100
            * result_of(b.after(out[i].0.0 as int)) by {
            assert(marks.contains(out[i]));
            let k = choose|k: int| 0 <= k < marks.len() && marks[k] == out[i];
            law_move_is_the_reply_turned_round(how, b, out[i].0, out[i].1);
            lemma_after_wf(b, out[i].0.0 as int);
            law_best_play(b.after(out[i].0.0 as int));
        }
        let s = choose|s: int|
            0 <= s < 64 && #[trigger] b.legal(s) && -result_of(b.after(s)) == result_of(b);
        let i = choose|i: int| 0 <= i < out.len() && (#[trigger] out[i]).0.0 == s;
        assert(out[0].1.value >= out[i].1.value);
    }
}

proof fn lemma_each_exact(marks: Seq<(Position, MoveEval)>, n: int)
    requires
        0 <= n <= marks.len(),
        all_exact(marks, n),
    ensures
        forall|i: int| 0 <= i < n ==> (#[trigger] marks[i]).1.exact,
    decreases n,
{
    if n > 0 {
        lemma_each_exact(marks, n - 1);
    }
}

/// The position to think about is that after a legal reply, with one empty square
/// fewer; it is not finished, and would not be solved.
pub proof fn law_pondered_position<E: LeafEval>(engine: Engine<E>, after: Board)
    requires
        after.wf(),
        engine.search.wf(),
    ensures
        engine.pondered(after) matches Some(c) ==> {
            &&& c.wf()
            &&& !c.finished()
            &&& c.empty_count == after.empty_count - 1
            &&& c.empty_count > engine.config.solve_empties
            &&& c.player != after.player
            &&& exists|s: int| 0 <= s < 64 && #[trigger] after.legal(s) && c == after.after(s)
        },
{
    if let Some(p) = engine.expected(after) {
        lemma_after_wf(after, p.0 as int);
        assert(after.legal(p.0 as int));
    }
}

/// Where time ran out and a move was kept, that move is the answer, with its sign
/// and the depth to which it was searched; where time did not run out, no kept move
/// matters. An answer that time cut is never exact.
pub proof fn law_kept_move_answers(r: Option<EndSolverResult>, cut: bool, backup: Option<Deepened>)
    ensures
        cut ==> (backup matches Some(d) ==> (d.best_move is Some ==> {
            let m = solve_answer(r, cut, backup);
            &&& m.pos == d.best_move
            &&& m.cut && !m.exact && m.depth == BACKUP_DEPTH
            &&& d.value matches Some(v) ==> (-6400 <= v <= 6400 ==> m.value == v) && (v > 0
                ==> m.value > 0) && (v < 0 ==> m.value < 0)
        })),
        !cut ==> solve_answer(r, cut, backup) == solve_answer(r, cut, None),
        !cut && r is Some ==> solve_answer(r, cut, backup).exact,
        !cut ==> !solve_answer(r, cut, backup).cut,
        cut ==> !solve_answer(r, cut, backup).exact,
        r is None ==> !solve_answer(r, cut, backup).exact,
        !select_answer(r, cut, backup).exact,
        select_answer(r, cut, backup).pos == solve_answer(r, cut, backup).pos,
        select_answer(r, cut, backup).value == solve_answer(r, cut, backup).value,
{
    if let Some(d) = backup {
        if let Some(v) = d.value {
            law_stones_turn_round(v);
        }
    }
}

/// The book that is played from shows what was learned of a position, and what was
/// read of it where nothing was learned.
pub proof fn law_learned_comes_first(
    read: Option<Map<u128, EntryView>>,
    learned: Map<u128, EntryView>,
    b: Board,
)
    ensures
        ({
            let all = match whole_book(read, learned) {
                Some(m) => m,
                None => Map::empty(),
            };
            let base = match read {
                Some(m) => m,
                None => Map::empty(),
            };
            &&& entry_for(learned, b) is Some ==> entry_for(all, b) == entry_for(learned, b)
            &&& entry_for(learned, b) is None ==> entry_for(all, b) == entry_for(base, b)
        }),
{
}

/// The best value of a position of the book is that of one of its candidates, and
/// none is worth more.
pub proof fn law_highest_candidate(e: EntryView, n: int)
    requires
        0 <= n <= e.moves.len(),
    ensures
        forall|i: int| 0 <= i < n ==> (#[trigger] e.moves[i]).value <= highest(e, n),
        n > 0 ==> exists|i: int| 0 <= i < n && (#[trigger] e.moves[i]).value == highest(e, n),
        n == 0 ==> highest(e, n) == i32::MIN,
    decreases n,
{
    if n > 0 {
        law_highest_candidate(e, n - 1);
        if e.moves[n - 1].value > highest(e, n - 1) {
            assert(e.moves[n - 1].value == highest(e, n));
        } else if n == 1 {
            assert(e.moves[0].value == highest(e, n));
        } else {
            let i = choose|i: int| 0 <= i < n - 1 && (#[trigger] e.moves[i]).value == highest(e, n - 1);
            assert(e.moves[i].value == highest(e, n));
        }
    }
}

/// Depths and limits that follow from others: the positions after the moves are
/// searched one ply less deep than was asked, and one ply at least; an import has
/// positions solved from no more empty squares than play, nor than is set for
/// imports; an analysis goes one ply deeper with each pass, until all is solved or
/// the last depth was reached.
pub proof fn law_depths_and_limits(depth: u32, go_on: bool, all: bool, c: EngineConfig)
    ensures
        depth >= 2 ==> child_depth(depth) + 1 == depth,
        child_depth(depth) >= 1,
        learn_limit(c) <= c.solve_empties && learn_limit(c) <= LEARN_EMPTIES,
        learn_limit(c) == c.solve_empties || learn_limit(c) == LEARN_EMPTIES,
        pass_after(depth, go_on, all) matches Some(d) ==> go_on && !all && d == depth + 1 && d <= 60,
        go_on && !all && depth < 60 ==> pass_after(depth, go_on, all) is Some,
{
}

/// A move that was hinted at is the one that is remembered, where the position has a
/// slot in the table or its place has one that is free or was not searched.
pub proof fn law_hint_is_remembered<E: LeafEval>(before: Engine<E>, after: Engine<E>, b: Board, pos: Position)
    requires
        before.search.tt.wf(),
        after.search.tt.wf(),
        pos.wf(),
        after.search.tt.bucket(view_hash(b)) == seeded(
            before.search.tt.bucket(view_hash(b)),
            view_hash(b),
            pos.0,
        ),
        exists|i: int|
            0 <= i < 4 && ({
                let t = #[trigger] before.search.tt.bucket(view_hash(b))[i];
                t.is_for(view_hash(b)) || !t.used || t.depth == 0 && t.relax == 0
            }),
    ensures
        after.remembered(b) == Some(pos),
{
    let h = view_hash(b);
    let bucket = before.search.tt.bucket(h);
    let mask = before.search.tt.mask;
    lemma_masked(h, mask);
    let next = seeded(bucket, h, pos.0);
    lemma_slot_for(bucket, h, 0);
    lemma_slot_below(bucket, 0, 0);
    lemma_slot_for(next, h, 0);
    let (i, j) = (slot_for(bucket, h, 0), slot_below(bucket, 0, 0));
    let k = slot_for(next, h, 0);
    assert(bucket.len() == 4);
    if i < 4 {
        assert(next[i].is_for(h));
        if k < i {
            assert(next[k] == bucket[k]);
        }
    } else {
        assert(j < 4);
        assert(next[j].is_for(h));
        if k < j {
            assert(next[k] == bucket[k]);
        }
    }
}

/// The three ways to ask about a position agree where all are exact: the first move of
/// an analysis, the choice and the evaluation are worth the same.
pub proof fn law_exact_answers_agree<E: LeafEval>(
    engine: Engine<E>,
    how: Scoring<E>,
    b: Board,
    marks: Seq<(Position, MoveEval)>,
    out: Seq<(Position, MoveEval)>,
    m: MoveEval,
    s: NnueSearch,
    depth: u32,
    limit: int,
    n: MoveEval,
)
    requires
        b.wf(),
        b.can_move(),
        scores_first(how, b, marks),
        marks.len() == squares(b.moves()).len(),
        by_value(marks, out),
        all_exact(marks, marks.len() as int),
        engine.chooses(b, m),
        m.exact,
        is_evaluation(s, engine.evaluator, b, depth, limit, n),
        n.exact,
    ensures
        out[0].1.value == m.value == n.value,
{
    law_analysis_covers_the_moves(how, b, marks, out);
    law_choice(engine, b, m);
    law_evaluation_is_the_position_worth(s, engine.evaluator, b, depth, limit, n);
}

} // verus!
