use kuroobi::evaluator::StageTables;
use kuroobi::midgame::order::{listed_kids, ordered_into, potential_mobility, MoveOrder};
use kuroobi::midgame::table::{tt_level, Finding, SharedTt, NO_MOVE};
use kuroobi::midgame::value::FINISHED;
use kuroobi::midgame::workers::{
    backoff, busy_sample, helper_plan, helpers_run, starts_pass, takes_task, watch_sleep, Backoff,
    Fanout, Round,
};
use kuroobi::midgame::{mpc_reduced_depth, probe_bounds, selective_band, NnueSearch, StopHandle};
use kuroobi::pattern::library::egaroucid_patterns;
use kuroobi::search::{LeafEval, INF};
use kuroobi::solver::final_score;
use kuroobi::split::{splits, Probed, Split};
use kuroobi::{Board, EndSolverMode, Position, Solver, STAGE_COUNT};

fn evaluator() -> StageTables {
    let patterns = vec![egaroucid_patterns().remove(1)];
    let n = patterns[0].table_size();
    let stages = (0..STAGE_COUNT)
        .map(|s| (0..n).map(|i| ((i * 53 + s * 19) % 401) as i16 - 200).collect())
        .collect();
    StageTables::new(patterns, stages)
}

fn search() -> NnueSearch {
    NnueSearch::new(SharedTt::new(12), vec![300; 65 * 65])
}

fn after(b: &Board, s: u32) -> Board {
    let mut c = *b;
    c.make_move_bits(Position::from_index(s).unwrap());
    c
}

fn position(empties: u8) -> Board {
    let mut b = Board::new();
    let mut k = 0usize;
    while b.empty_count() > empties {
        let m = b.movable();
        if m == 0 {
            b.pass();
            if b.movable() == 0 {
                break;
            }
            continue;
        }
        let list: Vec<u32> = (0..64).filter(|s| m >> s & 1 == 1).collect();
        k += 3;
        b = after(&b, list[k % list.len()]);
    }
    b
}

/// The value by trying every move.
fn reference(e: &StageTables, b: &Board, depth: u32) -> i32 {
    let m = b.movable();
    if m == 0 {
        let mut c = *b;
        c.pass();
        if c.movable() == 0 {
            return final_score(b) * FINISHED;
        }
        if depth > 0 {
            return -reference(e, &c, depth);
        }
    }
    if depth == 0 {
        return e.eval_indices(b, &e.indexer().init(b.black, b.white));
    }
    (0..64).filter(|s| m >> s & 1 == 1).map(|s| -reference(e, &after(b, s), depth - 1)).max().unwrap()
}

#[test]
fn iterations_end_on_the_exact_value() {
    let e = evaluator();
    for empties in [50, 40, 31] {
        let b = position(empties);
        for depth in 1..=4 {
            let r = search().best_move_valued(&e, &b, depth);
            let v = reference(&e, &b, depth);
            assert_eq!(r.depth, depth);
            assert_eq!(r.value, Some(v), "{empties} empties, depth {depth}");
            let best = r.best_move.unwrap().index() as u32;
            assert_eq!(-reference(&e, &after(&b, best), depth - 1), v);
            assert_eq!(search().best_move(&e, &b, depth), r.best_move);
        }
    }
}

/// Deeper than the empty squares go, the search and the solver agree.
#[test]
fn deep_searches_agree_with_the_solver() {
    let e = evaluator();
    for empties in [5, 6, 7, 8] {
        let b = position(empties);
        if b.movable() == 0 {
            continue;
        }
        let r = search().best_move_valued(&e, &b, empties as u32 + 1);
        let exact = Solver::new().solve(EndSolverMode::Perfect, &b);
        assert_eq!(r.value, Some(exact.value * FINISHED));
    }
}

#[test]
fn windows_bound_midgame_values() {
    let e = evaluator();
    let b = position(36);
    let ix = e.indexer().init(b.black, b.white);
    let v = reference(&e, &b, 3);
    assert_eq!(search().negamax(&e, &b, &ix, 3, -INF, INF), Some(v));
    assert!(search().negamax(&e, &b, &ix, 3, v, v + 1).unwrap() <= v);
    assert!(search().negamax(&e, &b, &ix, 3, v - 1, v).unwrap() >= v);
    let (m, w) = search().pass_at(&e, &b, 3);
    assert_eq!(w, Some(v));
    assert!(b.check(m.unwrap()));
}

#[test]
fn a_stopped_search_still_has_a_move() {
    let e = evaluator();
    let b = position(40);
    let mut s = search();
    let stop = StopHandle::new();
    stop.stop();
    assert!(stop.is_stopped());
    s.set_stop(Some(stop.clone()));
    let r = s.best_move_valued(&e, &b, 5);
    assert_eq!((r.depth, r.value), (0, None));
    assert!(b.check(r.best_move.unwrap()));
    stop.reset();
    assert_eq!(s.best_move_valued(&e, &b, 2).depth, 2);
    s.clear();
    assert!(s.tt.slots.iter().all(|t| !t.used));
}

#[test]
fn no_move_is_no_search() {
    let mut b = Board::new();
    b.black = 1;
    b.white = 1 << 8;
    b.empty_count = 62;
    b.pass();
    let r = search().best_move_valued(&evaluator(), &b, 4);
    assert_eq!((r.best_move, r.value, r.depth), (None, None, 0));
}

#[test]
fn bands_and_reduced_depths() {
    assert_eq!(selective_band(18, 18, 6), None);
    assert_eq!(selective_band(20, 18, 6), Some(258));
    assert_eq!(selective_band(22, 18, 6), Some(233));
    assert_eq!(selective_band(24, 18, 6), Some(181));
    assert_eq!(selective_band(25, 18, 9), None);
    assert_eq!(selective_band(21, 18, 2), None);
    let d: Vec<u32> = (3..=10).map(mpc_reduced_depth).collect();
    assert_eq!(d, vec![1, 2, 3, 2, 3, 4, 5, 4]);
}

#[test]
fn the_table_keeps_bounds_and_moves() {
    let mut t = SharedTt::new(8);
    assert_eq!(t.best_move(77), None);
    let f = Finding { hash: 77, depth: 5, relax: 0, alpha: -10, beta: 10, value: 3, best: 19 };
    t.put(f);
    let e = t.get(77);
    assert_eq!((e.lower, e.upper, e.best, e.depth), (3, 3, 19, 5));
    // A value at an edge of the window is a bound.
    t.put(Finding { hash: 5, value: 10, ..f });
    assert_eq!((t.get(5).lower, t.get(5).upper), (10, INF));
    t.put(Finding { hash: 6, value: -10, ..f });
    assert_eq!((t.get(6).lower, t.get(6).upper), (-INF, -10));
    // Below the window no move is known to be the best.
    assert_eq!(t.get(6).best, NO_MOVE);
    t.put(Finding { hash: 16, alpha: 0, beta: 2, value: -2, ..f });
    let e = t.get(16);
    assert_eq!((e.lower, e.upper, e.best), (-INF, -2, 64));
    // A shallower finding does not displace a deeper one.
    t.put(Finding { depth: 3, value: 8, best: 20, ..f });
    assert_eq!(t.get(77).depth, 5);
    t.seed_move(77, 33);
    assert_eq!(t.best_move(77), Some(33));
    assert_eq!((t.get(77).lower, t.get(77).upper), (3, 3));
    t.clear();
    assert_eq!(t.get(77).best, NO_MOVE);
    assert!(tt_level(6, 0) > tt_level(5, 0));
}

#[test]
fn moves_are_ordered() {
    let e = evaluator();
    let b = position(44);
    let ix = e.indexer().init(b.black, b.white);
    let moves = b.movable();
    let o = MoveOrder { by_value: true, null_window: false, tt_move: NO_MOVE, tt_move2: NO_MOVE };
    let kids = ordered_into(&e, &b, &ix, moves, &o);
    assert_eq!(kids.len() as u32, moves.count_ones());
    assert!(kids.windows(2).all(|w| w[0].key >= w[1].key));
    assert_eq!(listed_kids(&b, moves).len(), kids.len());
    // Empty squares that touch a disc.
    assert_eq!(potential_mobility(1 << 27, !(1u64 << 27)), 8);
    // At the edges and in the corners there are fewer, and none beyond.
    assert_eq!(potential_mobility(1, !1), 3);
    assert_eq!(potential_mobility(1 << 7, !(1u64 << 7)), 3);
    assert_eq!(potential_mobility(1 << 56, !(1u64 << 56)), 3);
    assert_eq!(potential_mobility(1 << 63, !(1u64 << 63)), 3);
    assert_eq!(potential_mobility(1 << 24, !(1u64 << 24)), 5);
}

/// Brothers answered round by round come to the highest value.
#[test]
fn rounds_come_to_the_best_brother() {
    let values = [4, 9, 7, 9, -3];
    let mut f = Fanout::new(0, 100, 2, values.len());
    loop {
        let mut from = 0;
        while let Some(i) = f.next(from) {
            let g = if values[i] > f.alpha { f.alpha + 1 } else { values[i] };
            f.probed(i, g);
            from = i + 1;
        }
        if f.end_round() == Round::Done {
            break;
        }
        for i in f.research.clone() {
            if values[i] > f.alpha {
                f.searched(i, values[i]);
            } else {
                f.searched(i, f.alpha.min(values[i]));
            }
        }
        if !f.next_round() {
            break;
        }
    }
    assert_eq!(f.best, 9);
    assert!(values[f.best_move] == 9);
}

#[test]
fn a_split_node_keeps_the_best_offer() {
    assert!(splits(4, 0, 5, 6));
    assert!(!splits(1, 0, 5, 6) && !splits(4, 8, 5, 6) && !splits(4, 0, 2, 6) && !splits(4, 0, 5, 2));
    let p = |i| Position::from_index(i).unwrap();
    let mut s = Split::new(0, 50, 5, p(1));
    assert_eq!(s.bound(), 5);
    assert_eq!(s.probed(5, 6), Probed::Again);
    assert_eq!(s.probed(5, 5), Probed::Done);
    assert_eq!(s.probed(5, 50), Probed::Done);
    s.offer(20, p(2));
    s.offer(7, p(3));
    assert_eq!((s.best, s.best_move, s.cut), (20, p(2), false));
    s.offer(50, p(4));
    assert!(s.cut);
}

#[test]
fn workers_are_told_what_to_do() {
    assert!(takes_task(2, 1, 0, 0) && !takes_task(2, 1, 0, 1) && takes_task(2, 1, 1, 1));
    assert!(!takes_task(0, 5, 5, 0));
    assert_eq!(backoff(7), Backoff::Spin);
    assert_eq!(backoff(64), Backoff::Yield);
    assert_eq!(backoff(65), Backoff::Sleep);
    assert_eq!((busy_sample(4, 1), busy_sample(4, 5), busy_sample(99, 0)), (3, 0, 16));
    assert!(helpers_run(5, 4, 9) && !helpers_run(10, 4, 9));
    assert_eq!(helper_plan(0, 8, 20, 1, 2), (8, 0));
    assert_eq!(helper_plan(1, 8, 20, 1, 2), (9, 0));
    assert_eq!(helper_plan(3, 8, 20, 2, 2), (12, 1));
    assert_eq!(helper_plan(7, 19, 20, 2, 2), (20, 2));
    assert!(starts_pass(10, 100, 0, 0) && starts_pass(10, 100, 3, 29));
    assert!(!starts_pass(10, 100, 3, 30) && !starts_pass(100, 100, 0, 0));
    assert_eq!(watch_sleep(5, 5), None);
    assert_eq!(watch_sleep(5, 9), Some(4));
    assert_eq!(watch_sleep(0, 1 << 40), Some(20_000_000));
}

/// Positions that no game reaches are searched like others: White passes, and
/// Black turns the last of White's discs.
#[test]
fn an_empty_centre_is_searched() {
    let e = evaluator();
    let s = format!("X-------O-------{} O", "-".repeat(48));
    let b = Board::from_string(&s).unwrap();
    let ix = e.indexer().init(b.black, b.white);
    assert_eq!(search().negamax(&e, &b, &ix, 1, -INF, INF), Some(-64 * FINISHED));
    assert_eq!(reference(&e, &b, 1), -64 * FINISHED);
}

/// With reduced searches there is still a legal move, and a value in bounds.
#[test]
fn reduced_searches_leave_legal_moves() {
    let e = evaluator();
    for empties in [44, 34] {
        let b = position(empties);
        let mut s = search();
        s.mpc = true;
        let r = s.best_move_valued(&e, &b, 6);
        assert!(b.check(r.best_move.unwrap()));
        assert!((-INF..=INF).contains(&r.value.unwrap()));
        assert_eq!(r.depth, 6);
        // Below the depth at which they are tried nothing changes.
        let mut s = search();
        s.mpc = true;
        assert_eq!(s.best_move_valued(&e, &b, 2).value, Some(reference(&e, &b, 2)));
    }
}

/// What two tables hold is brought together, slot by slot.
#[test]
fn tables_are_joined() {
    let f = Finding { hash: 77, depth: 5, relax: 0, alpha: -10, beta: 10, value: 3, best: 19 };
    let (mut a, mut b) = (SharedTt::new(8), SharedTt::new(8));
    a.put(f);
    b.put(Finding { depth: 6, value: 4, best: 20, ..f });
    b.put(Finding { hash: 78, ..f });
    a.put(Finding { hash: 79, depth: 7, ..f });
    b.put(Finding { hash: 79, depth: 2, best: 1, ..f });
    a.join(&b);
    assert_eq!((a.get(77).depth, a.get(77).best), (6, 20));
    assert_eq!(a.get(78).best, 19);
    assert_eq!((a.get(79).depth, a.get(79).best), (7, 19));
}

/// Reduced searches are tried where the own value lies beyond the window by the
/// margin less four discs, and at least by one.
#[test]
fn bounds_of_reduced_searches() {
    assert_eq!(probe_bounds(Some(141), 40, 41, 300), (Some(341), None));
    assert_eq!(probe_bounds(Some(140), 40, 41, 300), (None, None));
    assert_eq!(probe_bounds(Some(541), 40, 41, 900), (Some(941), None));
    assert_eq!(probe_bounds(Some(540), 40, 41, 900), (None, None));
    assert_eq!(probe_bounds(Some(-460), 40, 41, 900), (None, Some(-860)));
    assert_eq!(probe_bounds(None, 40, 41, 900), (Some(941), Some(-860)));
    assert_eq!(probe_bounds(None, INF - 1, INF, 900), (None, Some(INF - 901)));
}

/// Reduced searches whose margins nothing clears leave the exact value, and a
/// move that reaches it.
#[test]
fn wide_margins_leave_the_exact_value() {
    let e = evaluator();
    for empties in [44, 36] {
        let b = position(empties);
        let mut s = NnueSearch::new(SharedTt::new(12), vec![1_000_000; 65 * 65]);
        s.mpc = true;
        let r = s.best_move_valued(&e, &b, 5);
        let v = reference(&e, &b, 5);
        assert_eq!(r.value, Some(v));
        let best = r.best_move.unwrap().index() as u32;
        assert_eq!(-reference(&e, &after(&b, best), 4), v);
    }
}
