use kuroobi::evaluator::StageTables;
use kuroobi::pattern::library::egaroucid_patterns;
use kuroobi::search::{
    final_score_discs, mpc_reduced_depth, mpc_sigma, probe_windows, LeafEval, INF, MPC_T, SWEEP,
    TERMINAL_SCALE,
};
use kuroobi::{
    Board, Color, EndSolverMode, Evaluator, Position, Searcher, Solver, STAGE_COUNT,
};

fn eval(e: &StageTables, b: &Board) -> i32 {
    e.eval_indices(b, &e.indexer().init(b.black, b.white))
}

/// The weights of one stage, by the position of a shape and of a cell in it.
fn tables(weight: impl Fn(usize, usize, usize) -> i16) -> StageTables {
    let patterns = egaroucid_patterns();
    let sizes: Vec<usize> = patterns.iter().map(|p| p.table_size()).collect();
    let stages = (0..STAGE_COUNT)
        .map(|s| {
            let mut v: Vec<i16> = Vec::new();
            for (p, &n) in sizes.iter().enumerate() {
                v.extend((0..n).map(|i| weight(s, p, i)));
            }
            v
        })
        .collect();
    StageTables::new(patterns, stages)
}

fn trained_evaluator() -> StageTables {
    // A tiny hand-trained evaluator: the cells of the start are worth
    // something, so eval() is non-degenerate.
    let cells = Evaluator::new(egaroucid_patterns()).cells(&Board::new());
    let e = tables(|s, p, i| if s == 0 && cells.contains(&(p, i)) { 1 } else { 0 });
    assert_eq!(eval(&e, &Board::new()), 64);
    e
}

/// Weights that differ from cell to cell.
fn scattered_evaluator() -> StageTables {
    tables(|s, p, i| ((s * 131 + p * 17 + i * 7919) % 41) as i16 - 20)
}

#[test]
fn test_search_returns_legal_move() {
    let e = trained_evaluator();
    let mut s = Searcher::new(14);
    let b = Board::new();
    for depth in 1..=5 {
        let r = s.search(&b, &e, depth);
        let best = r.best_move.expect("moves exist");
        assert!(b.movable() & best.to_bit() != 0, "depth {depth}: legal");
        assert_eq!(r.depth, depth);
        assert!(r.nodes > 0);
    }
}

#[test]
fn test_search_pass_position() {
    let e = trained_evaluator();
    let mut s = Searcher::new(12);
    let mut b = Board::new();
    b.black = 1u64 << 0;
    b.white = 1u64 << 8;
    b.empty_count = 62;
    b.player = Color::White; // White has no move
    let r = s.search(&b, &e, 4);
    assert_eq!(r.best_move, None);
}

#[test]
fn test_deeper_search_finds_endgame_win() {
    // Near the end of a game the search should return terminal-scaled
    // scores (|value| >= SCORE_SCALE) once it reads to the end.
    let e = trained_evaluator();
    let mut s = Searcher::new(14);

    // Play a deterministic game down to 6 empties
    let mut b = Board::new();
    let mut ply = 0;
    while b.empty_count() > 6 {
        let moves = b.movable();
        if moves == 0 {
            let mut p = b;
            p.pass();
            if p.movable() == 0 {
                break;
            }
            b = p;
            continue;
        }
        let bit = if ply % 2 == 0 {
            moves.trailing_zeros()
        } else {
            63 - moves.leading_zeros()
        };
        b.make_move_unchecked(Position::from_index(bit).unwrap());
        ply += 1;
    }

    if b.movable() != 0 && b.empty_count() >= 2 {
        let r = s.search(&b, &e, 10); // deep enough to hit terminal
        assert!(
            r.value.abs() >= TERMINAL_SCALE || r.value == 0,
            "deep search near game end must return exact-scaled score, got {}",
            r.value
        );
    }
}

/// Deterministic pseudo-random position with the given empty count.
fn position_with_empties(empties: u8, seed: u64) -> Board {
    let mut board = Board::new();
    let mut state = seed.wrapping_mul(6364136223846793005).wrapping_add(1);
    while board.empty_count() > empties {
        let moves = board.movable();
        if moves == 0 {
            let mut p = board;
            p.pass();
            if p.movable() == 0 {
                break;
            }
            board = p;
            continue;
        }
        state = state
            .wrapping_mul(6364136223846793005)
            .wrapping_add(1442695040888963407);
        let count = moves.count_ones() as u64;
        let mut nth = (state >> 33) % count;
        let mut m = moves;
        while nth > 0 {
            m &= m - 1;
            nth -= 1;
        }
        board.make_move_unchecked(Position::from_index(m.trailing_zeros()).unwrap());
    }
    board
}

/// Plain fixed-depth negamax mirroring alpha_beta's semantics (eval at
/// depth 0, pass keeps depth, terminal scaled) with no TT, no ordering,
/// no windows. Alpha-beta must return exactly this value at the root
/// regardless of move ordering — the invariant that keeps ordering
/// changes honest.
fn reference_negamax(board: &Board, evaluator: &StageTables, depth: u8, passed: bool) -> i32 {
    let moves = board.movable();
    if moves == 0 {
        if passed {
            return final_score_discs(board) * TERMINAL_SCALE;
        }
        let mut child = *board;
        child.pass();
        return -reference_negamax(&child, evaluator, depth, true);
    }
    if depth == 0 {
        return eval(evaluator, board);
    }
    let mut best = -INF;
    let mut m = moves;
    while m != 0 {
        let pos = Position::from_index(m.trailing_zeros()).unwrap();
        m &= m - 1;
        let mut child = *board;
        child.make_move_bits(pos);
        let v = -reference_negamax(&child, evaluator, depth - 1, false);
        if v > best {
            best = v;
        }
    }
    best
}

#[test]
fn test_search_value_equals_reference_negamax() {
    let e = trained_evaluator();
    let mut s = Searcher::new(14);
    for seed in 1..=6u64 {
        for empties in [40u8, 30, 22] {
            let b = position_with_empties(empties, seed);
            if b.is_game_over() || b.movable() == 0 {
                continue;
            }
            for depth in 1..=4u8 {
                let searched = s.search(&b, &e, depth);
                let reference = reference_negamax(&b, &e, depth, false);
                assert_eq!(
                    searched.value, reference,
                    "seed {seed} empties {empties} depth {depth}: \
                     ordering must not change the root value"
                );
            }
        }
    }
}

/// The same with an evaluation under which hardly two leaves are alike.
#[test]
fn scattered_values_equal_reference_negamax() {
    let e = scattered_evaluator();
    let mut s = Searcher::new(14);
    for seed in 1..=3u64 {
        let b = position_with_empties(36, seed);
        for depth in 1..=4u8 {
            let r = s.search(&b, &e, depth);
            assert_eq!(r.value, reference_negamax(&b, &e, depth, false));
            let mut child = b;
            child.make_move_bits(r.best_move.unwrap());
            assert_eq!(-reference_negamax(&child, &e, depth - 1, false), r.value);
        }
    }
}

#[test]
fn test_full_depth_search_matches_endgame_solver() {
    // When depth >= empties the search reads to terminal everywhere, so
    // its value must equal the endgame solver's Perfect result (scaled).
    // This validates alpha-beta, pass handling, and TT correctness
    // independent of evaluator quality.
    let e = trained_evaluator();
    let mut searcher = Searcher::new(15);
    let mut solver = Solver::new();

    for seed in 1..=4u64 {
        let b = position_with_empties(9, seed);
        if b.is_game_over() || b.movable() == 0 {
            continue;
        }
        let exact = solver.solve(EndSolverMode::Perfect, &b);
        let searched = searcher.search(&b, &e, b.empty_count() + 2);
        assert_eq!(
            searched.value,
            exact.value * TERMINAL_SCALE,
            "seed {seed}: full-depth search must equal solver's exact score"
        );
    }
}

/// A window keeps what lies inside it and bounds what does not.
#[test]
fn windows_bound_the_value() {
    let e = scattered_evaluator();
    let b = position_with_empties(30, 2);
    let v = reference_negamax(&b, &e, 3, false);
    let mut s = Searcher::new(14);
    assert_eq!(s.search_window(&b, &e, 3, -INF, INF), v);
    s.clear();
    assert!(s.search_window(&b, &e, 3, v, v + 1) <= v);
    s.clear();
    assert!(s.search_window(&b, &e, 3, v - 1, v) >= v);
    let mut order = s.root_order(&b, &e);
    order.sort();
    assert_eq!(order.len() as u32, b.movable().count_ones());
}

/// The margins of reduced searches, with thirty empty squares and six plies.
#[test]
fn margins_follow_the_fit() {
    assert_eq!(mpc_reduced_depth(6), 2);
    assert_eq!(mpc_sigma(30, 6, 2), 3_237_281_614_900_058_352);
    assert_eq!(mpc_sigma(30, 6, 0), 4_144_229_590_485_417_200);
    let s: f64 = -0.068941 * 30.0 + 0.368775 * 6.0 - 0.713476 * 2.0;
    let sigma = 0.010223 * s * s + 0.647219 * s + 4.050545;
    assert!((mpc_sigma(30, 6, 2) as f64 / 1e18 - sigma).abs() < 1e-9);
    // Eight half discs for 1.1 deviations; the own value may fall short by as
    // much.
    let windows = |score, alpha| probe_windows(score, alpha, alpha + 1, MPC_T, 30, 6);
    assert_eq!(windows(3, 10), (Some(19), Some(2)));
    assert_eq!(windows(2, 10), (None, Some(2)));
    assert_eq!(windows(18, 10), (Some(19), Some(2)));
    assert_eq!(windows(19, 10), (Some(19), None));
    // No bound lies beyond a swept board.
    assert_eq!(windows(125, 119).0, Some(SWEEP));
    assert_eq!(windows(125, 120).0, None);
    assert_eq!(windows(-125, -120).1, Some(-SWEEP));
    assert_eq!(windows(-125, -121).1, None);
    // Without a margin the window itself has to lie within.
    assert_eq!(probe_windows(200, 126, 127, 0, 30, 6), (Some(127), None));
    assert_eq!(probe_windows(200, 127, 128, 0, 30, 6).0, None);
}

/// With reduced searches there is still a legal move, and nodes are counted.
#[test]
fn reduced_searches_leave_legal_results() {
    let e = scattered_evaluator();
    for empties in [40, 30] {
        let b = position_with_empties(empties, 7);
        let mut s = Searcher::new(14);
        s.mpc = true;
        let r = s.search(&b, &e, 6);
        assert!(b.check(r.best_move.unwrap()));
        assert!(r.nodes > 0 && r.value.abs() < INF);
        // Shallower than the depth at which they are tried nothing changes.
        let shallow = Searcher::new(14).search(&b, &e, 2);
        s.clear();
        assert_eq!(s.search(&b, &e, 2).value, shallow.value);
    }
}

/// What one searcher found another takes over.
#[test]
fn searchers_join_their_tables() {
    let e = scattered_evaluator();
    let b = position_with_empties(36, 3);
    let (mut a, mut c) = (Searcher::new(12), Searcher::new(12));
    a.search(&b, &e, 4);
    let used = a.entries.iter().filter(|t| t.used).count();
    assert!(used > 0);
    c.join(&a);
    assert_eq!(c.entries.iter().filter(|t| t.used).count(), used);
    assert_eq!(c.search(&b, &e, 4).value, Searcher::new(12).search(&b, &e, 4).value);
}

/// Reduced searches that have to be surer than they can be leave the exact
/// value, and a move that reaches it.
#[test]
fn sure_reduced_searches_leave_the_exact_value() {
    let e = scattered_evaluator();
    let b = position_with_empties(38, 5);
    let mut s = Searcher::new(14);
    s.mpc = true;
    s.mpc_t = 1_000_000;
    let r = s.search(&b, &e, 5);
    assert_eq!(r.value, reference_negamax(&b, &e, 5, false));
    let mut c = b;
    c.make_move_bits(r.best_move.unwrap());
    assert_eq!(-reference_negamax(&c, &e, 4, false), r.value);
}

/// The table's move comes first; without one the move that leaves least.
#[test]
fn root_moves_start_with_the_best_known() {
    let e = scattered_evaluator();
    let b = position_with_empties(40, 9);
    let left = |p: &Position| {
        let mut c = b;
        c.make_move_bits(*p);
        eval(&e, &c)
    };
    let mut s = Searcher::new(14);
    let order = s.root_order(&b, &e);
    assert_eq!(order.len() as u32, b.movable().count_ones());
    assert!(order.windows(2).all(|w| left(&w[0]) <= left(&w[1])));
    let best = s.search(&b, &e, 3).best_move.unwrap();
    assert_eq!(s.root_order(&b, &e)[0], best);
}
