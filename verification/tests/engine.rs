use kuroobi::book::{Book, Candidate, Entry};
use kuroobi::engine::{
    finish_pass, finish_search, finish_solve, first_pass, next_pass, stone_scale, Engine,
    EngineConfig, MoveEval, Plan, Progress, BACKUP_DEPTH,
};
use kuroobi::evaluator::StageTables;
use kuroobi::midgame::table::SharedTt;
use kuroobi::midgame::{Deepened, NnueSearch};
use kuroobi::pattern::library::egaroucid_patterns;
use kuroobi::{Board, Color, Position, STAGE_COUNT};

fn pos(s: &str) -> Position {
    Position::from_kifu(s).unwrap()
}

fn evaluator() -> StageTables {
    let patterns = vec![egaroucid_patterns().remove(2)];
    let n = patterns[0].table_size();
    let stages = (0..STAGE_COUNT)
        .map(|s| (0..n).map(|i| ((i * 37 + s * 11) % 301) as i16 - 150).collect())
        .collect();
    StageTables::new(patterns, stages)
}

fn engine_with(config: EngineConfig, book: fn() -> Option<Book>, learned: Book) -> Engine<StageTables> {
    let search = NnueSearch::new(SharedTt::new(12), vec![300; 65 * 65]);
    Engine::new(evaluator(), search, config, book(), book(), learned, 42)
}

fn config() -> EngineConfig {
    EngineConfig { depth: 3, solve_empties: 8, mpc: false, book_tolerance: 0, ..Default::default() }
}

fn no_book() -> Option<Book> {
    None
}

fn small_book() -> Option<Book> {
    let (key, i) = Book::key(&Board::new());
    let mut b = Book::new();
    b.insert_raw(
        key,
        Entry {
            moves: vec![
                Candidate { mv: Book::map_move(pos("f5"), i), value: 120, games: 2 },
                Candidate { mv: Book::map_move(pos("d3"), i), value: 60, games: 1 },
            ],
            depth: 24,
            games: 3,
        },
    );
    Some(b)
}

/// `clear()` must reset the negate flag.
///
/// It once didn't, so a single ponder made every later think display
/// with inverted sign (a -35 live value against a +35.3 final; moves
/// themselves were fine — display-only damage).
#[test]
fn clear_drops_the_flip() {
    let mut p = Progress::new();
    let mv = Position::from_index(19);

    // Ponder: opponent-view value, stored negated.
    p.set_kind(Progress::PONDER);
    p.flip = true;
    p.reached(6, mv, Some(400));
    assert_eq!(p.snapshot().3, Some(-4000), "ponder stores negated");

    // Moving to think: no negation after clear().
    p.clear();
    p.set_kind(Progress::THINK);
    p.reached(6, mv, Some(400));
    assert_eq!(
        p.snapshot().3,
        Some(4000),
        "clear() must not carry the negate flag over"
    );
    assert_eq!(p.snapshot(), (Progress::THINK, 6, Some(19), Some(4000)));
    p.clear();
    assert_eq!(p.snapshot(), (Progress::IDLE, 0, None, None));
}

#[test]
fn values_come_back_to_discs() {
    assert_eq!(stone_scale(350), 350);
    assert_eq!(stone_scale(-99_899), -6400);
    assert_eq!(stone_scale(100_000 * 6), 600);
    assert_eq!(stone_scale(-100_000 * 64), -6400);
    assert_eq!(stone_scale(1 << 30), 6400);
    assert_eq!((stone_scale(i64::MAX), stone_scale(i64::MIN)), (6400, -6400));
    assert_eq!((stone_scale(-6_400_999), stone_scale(-6_399_000)), (-6400, -6399));
}

/// A position with few empty squares, by playing the first moves.
fn late(empties: u8) -> Board {
    let mut b = Board::new();
    while b.empty_count() > empties {
        let m = b.movable();
        if m == 0 {
            b.pass();
            if b.movable() == 0 {
                break;
            }
            continue;
        }
        b.make_move_bits(Position::from_index(m.trailing_zeros()).unwrap());
    }
    b
}

/// The best result by trying everything.
fn reference(b: &Board, passed: bool) -> i32 {
    let m = b.movable();
    if m == 0 {
        if passed {
            return kuroobi::solver::final_score(b);
        }
        let mut c = *b;
        c.pass();
        return -reference(&c, true);
    }
    (0..64u32)
        .filter(|s| m >> s & 1 == 1)
        .map(|s| {
            let mut c = *b;
            c.make_move_bits(Position::from_index(s).unwrap());
            -reference(&c, false)
        })
        .max()
        .unwrap()
}

#[test]
fn late_positions_are_solved() {
    let b = late(7);
    let mut e = engine_with(config(), no_book, Book::new());
    assert_eq!(e.plan(&b), Plan::Solve);
    let m = e.choose_move(&b);
    assert!(m.exact && !m.from_book && !m.cut);
    assert_eq!(m.value, 100 * reference(&b, false));
    let mut c = b;
    c.make_move_bits(m.pos.unwrap());
    assert_eq!(-reference(&c, false) * 100, m.value);
    assert_eq!(e.eval_position(&b, 3).value, m.value);
    assert!(e.nodes() > 0);
    assert_eq!(e.progress().kind, Progress::SOLVE);
}

#[test]
fn early_positions_are_searched() {
    let mut e = engine_with(config(), no_book, Book::new());
    let b = Board::new();
    assert_eq!(e.plan(&b), Plan::Search);
    let m = e.choose_move(&b);
    assert!(!m.exact);
    assert_eq!(m.depth, 3);
    assert!(b.check(m.pos.unwrap()));
    // The position that the table expects can be thought about.
    let mut after = b;
    after.make_move_bits(m.pos.unwrap());
    if let Some(p) = e.tt_best(&after) {
        let mut child = after;
        child.make_move_bits(p);
        assert_eq!(e.ponder_start(&after), Some(child));
        let s = e.progress().snapshot();
        assert_eq!((s.0, s.2), (Progress::PONDER, Some(p.index() as u32)));
        assert!(e.progress().flip);
    }
    e.clear_tables();
    assert_eq!(e.ponder_start(&after), None);
    e.hint_move(&after, pos("d6"));
    assert_eq!(e.tt_best(&after), Some(pos("d6")));
}

#[test]
fn the_band_is_solved_without_counting_as_exact() {
    let b = late(10);
    let mut e = engine_with(config(), no_book, Book::new());
    e.set_levels(3, 8, 2);
    assert!(matches!(e.plan(&b), Plan::Select(_)));
    let m = e.choose_move(&b);
    assert!(!m.exact);
    assert_eq!(e.progress().kind, Progress::SELECT);
    assert_eq!(m.value, 100 * reference(&b, false));
}

#[test]
fn finished_games_are_counted() {
    let mut b = Board::new();
    b.black = 0b111;
    b.white = 0;
    b.empty_count = 61;
    b.player = Color::White;
    let mut e = engine_with(config(), small_book, Book::new());
    let m = e.choose_move(&b);
    assert_eq!(m.pos, None);
    assert_eq!(m.value, -6400);
    assert!(m.exact);
    assert_eq!(e.ponder_start(&b), None);
}

#[test]
fn the_book_answers_first() {
    let b = Board::new();
    let mut e = engine_with(config(), small_book, Book::new());
    assert!(e.has_book());
    let m = e.choose_move(&b);
    assert_eq!(m.pos, Some(pos("f5")));
    assert_eq!((m.value, m.from_book, m.learned, m.exact), (120, true, false, false));
    assert_eq!(e.book_value(&b), Some((120, false)));
    assert_eq!(e.book_base_value(&b), Some(120));
    assert_eq!(e.book_entry(&b), Some((120, false, 24)));
    assert_eq!(e.book_hints(&b).unwrap().len(), 2);
    e.set_use_book(false);
    assert_eq!(e.book_hints(&b), None);
    assert_eq!(e.book_value(&b), None);
    assert!(e.book_node(&b).is_some(), "browsing goes on while the book is off");
    assert!(!e.choose_move(&b).from_book);
}

/// Moves within the tolerance are picked from by a running number.
#[test]
fn close_book_moves_are_varied() {
    let b = Board::new();
    let mut e = engine_with(EngineConfig { book_tolerance: 100, ..config() }, small_book, Book::new());
    let mut rand = 43u64;
    for _ in 0..10 {
        rand = rand.wrapping_mul(6364136223846793005).wrapping_add(1442695040888963407);
        let m = e.choose_move(&b);
        let meant = if (rand >> 11) % 2 == 0 { 120 } else { 60 };
        assert_eq!(m.value, meant);
    }
}

#[test]
fn learned_entries_lie_over_the_book() {
    let (key, i) = Book::key(&Board::new());
    let mut learned = Book::new();
    learned.insert_raw(
        key,
        Entry {
            moves: vec![Candidate { mv: Book::map_move(pos("c4"), i), value: -30, games: 1 }],
            depth: 14,
            games: 1,
        },
    );
    let b = Board::new();
    let mut e = engine_with(config(), small_book, learned);
    let m = e.choose_move(&b);
    assert_eq!((m.value, m.learned), (-30, true));
    assert_eq!(e.book_base_value(&b), Some(120));
    assert_eq!((e.book_size(), e.learned_size()), (1, 1));
}

/// An import and its undoing, through the engine.
#[test]
fn games_are_learned_and_unlearned() {
    let mut e = engine_with(config(), no_book, Book::new());
    let mut job = e.learn_start(None, "f5d6", 300).unwrap();
    assert_eq!(job.new_depth, 255);
    let out = loop {
        if let Some(o) = e.learn_step(&mut job, 2) {
            break o;
        }
    };
    assert_eq!(out.updated, 2);
    assert_eq!(e.learned_size(), 2);
    assert!(e.has_book());
    assert!(e.choose_move(&Board::new()).learned);
    let n = e.undo_learn(None, "f5d6", &out.changes).unwrap();
    assert_eq!(n, 2);
    assert_eq!(e.learned_size(), 0);
    e.rebuild_book(None);
    assert!(!e.has_book());
    assert!(e.learn_start(None, "", 8).is_err());
}

#[test]
fn every_move_is_scored() {
    let b = late(9);
    let mut e = engine_with(config(), no_book, Book::new());
    let list = e.analyze(&b, 4);
    assert_eq!(list.len() as u32, b.movable().count_ones());
    assert!(list.windows(2).all(|w| w[0].1.value >= w[1].1.value));
    for (p, m) in &list {
        let mut c = b;
        c.make_move_bits(*p);
        assert!(m.exact);
        assert_eq!(m.value, -100 * reference(&c, false));
    }
    // Deeper passes leave solved moves alone.
    let (shallow, all) = e.analyze_pass(&b, 4).unwrap();
    assert!(!all && shallow.iter().all(|(_, m)| !m.exact && m.depth == 5));
    let (deep, all) = e.analyze_pass(&b, 8).unwrap();
    assert!(all);
    assert_eq!(deep, list);
    assert_eq!(e.analyze_pass(&b, 9).unwrap().0, list);
    assert_eq!(next_pass(4, true, false), Some(5));
    assert_eq!(next_pass(4, true, true), None);
    assert_eq!(next_pass(4, false, false), None);
    assert_eq!(next_pass(60, true, false), None);
}

#[test]
fn the_kept_move_answers_for_a_cut_solve() {
    let b = late(7);
    let kept = Deepened { best_move: Some(pos("a1")), value: Some(250), depth: 8 };
    let m = finish_solve(&b, None, true, Some(kept));
    let meant = MoveEval {
        pos: Some(pos("a1")),
        value: 250,
        exact: false,
        from_book: false,
        learned: false,
        depth: BACKUP_DEPTH,
        cut: true,
    };
    assert_eq!(m, meant);
    let m = finish_search(kept, true);
    assert!(m.cut && m.depth == 8 && m.value == 250);
}

#[test]
fn a_raised_flag_ends_an_analysis() {
    let mut e = engine_with(config(), no_book, Book::new());
    e.stop_handle().stop();
    assert!(e.analyze_pass(&Board::new(), 2).is_none());
    e.set_threads(0);
    assert_eq!(e.config().threads, 1);
}

/// Moves are scored one by one until the flag is seen; a pass needs all of them.
#[test]
fn a_flag_that_was_seen_scores_no_move() {
    let b = Board::new();
    let mut e = engine_with(config(), no_book, Book::new());
    let mut marks: Vec<(Position, MoveEval)> = Vec::new();
    assert!(!e.mark_next(&b, &mut marks, 8, 2, true, true));
    assert!(marks.is_empty());
    for n in 1..=4 {
        assert!(e.mark_next(&b, &mut marks, 8, 2, true, false));
        assert_eq!(marks.len(), n);
    }
    assert!(marks.windows(2).all(|w| w[0].0.index() < w[1].0.index()));
    assert!(marks.iter().all(|(p, m)| b.check(*p) && !m.exact && m.depth == 3));
    assert_eq!(finish_pass(marks.clone(), true), None);
    let (list, all) = finish_pass(marks.clone(), false).unwrap();
    assert!(!all && list.len() == 4);
    assert!(list.windows(2).all(|w| w[0].1.value >= w[1].1.value));
    assert!(list.iter().all(|m| marks.contains(m)));
    assert_eq!(e.analyze_pass(&b, 2), Some((list, false)));
    assert_eq!((first_pass(0), first_pass(1), first_pass(7)), (1, 1, 7));
}

/// Where no move can be made a pass is done at once, whatever the flag says.
#[test]
fn a_pass_without_moves_is_empty() {
    let s = format!("X-------O-------{} O", "-".repeat(48));
    let b = Board::from_string(&s).unwrap();
    assert_eq!(b.movable(), 0);
    let mut e = engine_with(config(), no_book, Book::new());
    assert_eq!(e.analyze_pass(&b, 3), Some((Vec::new(), true)));
    assert!(e.analyze(&b, 3).is_empty());
    e.stop_handle().stop();
    assert_eq!(e.analyze_pass(&b, 3), Some((Vec::new(), true)));
}

/// Solves that do not look at the flag are exact, though it is up.
#[test]
fn solves_without_a_flag_are_exact() {
    let b = late(7);
    let mut e = engine_with(config(), no_book, Book::new());
    e.solver.stop = None;
    e.stop_handle().stop();
    let r = e.run_solve(&b).unwrap();
    assert_eq!(r.value, reference(&b, false));
    assert_eq!(e.run_select(&b).unwrap().value, r.value);
    let m = e.eval_position(&b, 2);
    assert!(m.exact && m.value == 100 * r.value);
}

/// A hint touches the slots of its position and nothing else.
#[test]
fn hints_leave_other_positions_alone() {
    let b = Board::new();
    let mut e = engine_with(config(), no_book, Book::new());
    e.choose_move(&b);
    let before: Vec<(u64, i32, i32, u8)> =
        e.search.tt.slots.iter().map(|t| (t.key, t.lower, t.upper, t.best)).collect();
    let nodes = e.nodes();
    let other = if e.tt_best(&b) == Some(pos("d3")) { "c4" } else { "d3" };
    e.hint_move(&b, pos(other));
    assert_eq!(e.tt_best(&b), Some(pos(other)));
    assert_eq!(e.nodes(), nodes);
    let changed = e.search.tt.slots.iter().zip(&before).filter(|(t, u)| {
        (t.key, t.lower, t.upper, t.best) != **u
    });
    assert_eq!(changed.count(), 1);
}
