use kuroobi::book::{Book, Candidate, Entry};
use kuroobi::learn::{
    merge_learned, replay, replay_from, undo_backup, BackupJob, BackupOutcome, JobStep,
};
use kuroobi::{Board, Position};

fn pos(s: &str) -> Position {
    Position::from_kifu(s).unwrap()
}

/// Drive a job to completion; `eval` answers the Search requests.
fn run_job(
    job: &mut BackupJob,
    learned: &mut Book,
    base: &mut Book,
    mut eval: impl FnMut(&Board) -> i32,
) -> BackupOutcome {
    loop {
        match job.next(learned, base) {
            JobStep::Search(b) => {
                let v = eval(&b);
                job.feed(v);
            }
            JobStep::Done(out) => return out,
        }
    }
}

/// Losing after f5d6 (-10 for Black at the end) lowers f5 in the
/// opening and promotes the former runner-up d3.
#[test]
fn losing_move_gets_demoted() {
    let b0 = Board::new();
    let (key0, i0) = Book::key(&b0);
    let mut base = Book::new();
    base.insert_raw(
        key0,
        Entry {
            moves: vec![
                Candidate {
                    mv: Book::map_move(pos("f5"), i0),
                    value: 100,
                    games: 10,
                },
                Candidate {
                    mv: Book::map_move(pos("d3"), i0),
                    value: 80,
                    games: 5,
                },
            ],
            depth: 26,
            games: 15,
        },
    );
    let mut learned = Book::new();

    // Unfinished record: terminal value is a search value (-10,
    // Black view). The first Search is the terminal, the rest are
    // alternative children.
    let mut job = BackupJob::new(None, "f5d6", 14).expect("replays");
    let mut first = true;
    let out = run_job(&mut job, &mut learned, &mut base, |_b| {
        if std::mem::take(&mut first) {
            -1000 // terminal (after f5d6, Black to move)
        } else {
            -10 // alternative child (opponent view) -> all alts +0.1
        }
    });
    assert_eq!(out.added, 1, "the position after f5 gets added");
    assert_eq!(out.updated, 2, "both d6 and f5 get re-valued");

    // d6 = +10 (the opponent's -10); f5 = -(best after d6).
    // In the opening f5 drops and d3 becomes best.
    let e0 = base.get_raw(key0).unwrap();
    assert_eq!(
        e0.best().unwrap().mv.index(),
        Book::map_move(pos("d3"), i0).index(),
        "f5 must drop and d3 become best"
    );
    // The learned overlay has the entry and the play-side book sees it.
    assert_eq!(learned.len(), 2);
    assert_eq!(base.len(), 2, "learned positions reach the play-side book");
}

fn learned_value(learned: &Book, b: &Board, mv: &str) -> i32 {
    let (key, i) = Book::key(b);
    learned
        .get_raw(key)
        .unwrap()
        .moves
        .iter()
        .find(|c| c.mv.index() == Book::map_move(pos(mv), i).index())
        .unwrap()
        .value
}

/// Propagation stops at the losing move: with a good alternative en
/// route, rootward moves keep neutral values. This is what keeps a
/// normal second move from being marked "lost from move one".
#[test]
fn loss_stops_at_the_losing_move() {
    let mut base = Book::new();
    let mut learned = Book::new();
    // Black loses after f5 d6 c3 (+20 for White after c3). c3 is
    // the losing move; only its position has a +1.5 alternative.
    let mut job = BackupJob::new(None, "f5d6c3", 14).unwrap();
    let mut first = true;
    let out = run_job(&mut job, &mut learned, &mut base, |b| {
        if std::mem::take(&mut first) {
            return 2000; // terminal (after c3, +20 White view = Black loss)
        }
        match 64 - b.empty_count() {
            7 => -150, // c3-alternative child (White view) -> alt = +1.5
            _ => -10,  // other alternative children -> alt = +0.1
        }
    });
    assert_eq!(out.updated, 3);

    // c3 gets -20 but its position keeps the +1.5 alternative.
    // Rootward: d6 = -1.5, f5 = -0.1 — the opening stays neutral.
    let f5v = learned_value(&learned, &Board::new(), "f5");
    assert!(
        f5v > -100,
        "f5, rootward of the losing move, must stay neutral (got {f5v})"
    );

    let mut b2 = Board::new();
    b2.make_move(pos("f5")).unwrap();
    b2.make_move(pos("d6")).unwrap();
    let c3v = learned_value(&learned, &b2, "c3");
    assert!(c3v + 2000 == 0, "losing move c3 = -20 (got {c3v})");
}

/// Where alternatives are also bad the losing value does propagate.
#[test]
fn loss_propagates_when_alternatives_are_also_bad() {
    let mut base = Book::new();
    let mut learned = Book::new();
    let mut job = BackupJob::new(None, "f5d6c3", 14).unwrap();
    let mut first = true;
    run_job(&mut job, &mut learned, &mut base, |_b| {
        if std::mem::take(&mut first) {
            2000 // terminal
        } else {
            1500 // every alt child gives the opponent +15 -> alts lose big
        }
    });
    let f5v = learned_value(&learned, &Board::new(), "f5");
    assert!(
        f5v < -1000,
        "with no good alternative the loss propagates ({f5v})"
    );
}

/// Wins are imported too, with their values.
#[test]
fn winning_games_are_absorbed_too() {
    let mut base = Book::new();
    let mut learned = Book::new();
    let mut job = BackupJob::new(None, "f5d6", 14).unwrap();
    let mut first = true;
    let out = run_job(&mut job, &mut learned, &mut base, |_b| {
        if std::mem::take(&mut first) {
            800 // terminal: Black is winning
        } else {
            -10 // alternative child -> alt = +0.1
        }
    });
    assert_eq!(out.updated, 2);
    // Terminal +8 -> d6 = -8 -> best after d6 is the +0.1 alt ->
    // f5 = -0.1. A win owed to the opponent's blunder does not
    // inflate f5.
    let f5v = learned_value(&learned, &Board::new(), "f5");
    assert!(
        f5v + 10 == 0,
        "even a win propagates through the alternative ({f5v})"
    );
}

/// Positions already in the base book inherit candidates and skip
/// alternative evaluation.
#[test]
fn known_positions_reuse_book_candidates() {
    let b0 = Board::new();
    let (key0, _) = Book::key(&b0);
    let mut base = Book::new();
    base.insert_raw(
        key0,
        Entry {
            moves: vec![Candidate {
                mv: Book::map_move(pos("f5"), Book::key(&b0).1),
                value: 100,
                games: 1,
            }],
            depth: 26,
            games: 1,
        },
    );
    let mut learned = Book::new();
    let mut job = BackupJob::new(None, "f5", 14).unwrap();
    let mut searches = 0;
    run_job(&mut job, &mut learned, &mut base, |_b| {
        searches += 1;
        0
    });
    // Unfinished record: one terminal evaluation only; the opening
    // is in the base book so no alternative searches run.
    assert_eq!(
        searches, 1,
        "known positions must not re-measure alternatives"
    );
}

/// A real game record containing passes replays to the end.
#[test]
fn replay_inserts_passes() {
    let kifu = "e6f4c3d6f6e7f5g5e3g4c7d3f3c4c6c5b4b6d7b5c2a3f8e8d8c8b8d2g3e2a6c1d1e1f2f1f7h3a5a7a8b7g2g8h8g1b3a4a2b2a1b1g7g6h6h7h5h4h2h1";
    let (line, fin) = replay(None, kifu).expect("replays with passes");
    assert!(fin.is_game_over(), "replays to game over");
    assert!(line.iter().any(|(_, m)| m.is_none()), "passes are inserted");
}

/// merge_learned overwrites wholesale, learned side first.
#[test]
fn merge_prefers_learned_entries() {
    let b0 = Board::new();
    let (key0, i0) = Book::key(&b0);
    let mk = |v: i32| Entry {
        moves: vec![Candidate {
            mv: Book::map_move(pos("f5"), i0),
            value: v,
            games: 0,
        }],
        depth: 20,
        games: 0,
    };
    let mut base = Book::new();
    base.insert_raw(key0, mk(100));
    let mut learned = Book::new();
    learned.insert_raw(key0, mk(-500));
    merge_learned(&mut base, &learned);
    let v = base.get_raw(key0).unwrap().best().unwrap().value;
    assert!(v + 500 == 0);
}

/// Import followed by undo restores the overlay.
#[test]
fn undo_restores_learned() {
    let kifu = "f5d6c3d3c4f4c5b3c2e6";
    let mut learned = Book::new();
    let mut base = Book::new();
    let mut job = BackupJob::new(None, kifu, 8).expect("job builds");
    // Return 0 instead of searching; undo does not care about values.
    let out = loop {
        match job.next(&mut learned, &mut base) {
            JobStep::Search(_) => job.feed(0),
            JobStep::Done(o) => break o,
        }
    };
    assert!(out.updated > 0, "nothing was rewritten");
    assert!(!learned.is_empty());
    let n = undo_backup(&mut learned, None, kifu, &out.changes).expect("undo succeeds");
    assert!(n > 0);
    assert!(
        learned.is_empty(),
        "imported into an empty book, so undo must empty it"
    );
}

/// Values that an import overwrote come back.
#[test]
fn undo_brings_values_back() {
    let b0 = Board::new();
    let (key0, i0) = Book::key(&b0);
    let f5 = Book::map_move(pos("f5"), i0);
    let mut learned = Book::new();
    learned.insert_raw(
        key0,
        Entry {
            moves: vec![Candidate { mv: f5, value: 77, games: 3 }],
            depth: 20,
            games: 3,
        },
    );
    let mut base = Book::new();
    merge_learned(&mut base, &learned);
    let mut job = BackupJob::new(None, "f5d6", 14).unwrap();
    let out = run_job(&mut job, &mut learned, &mut base, |_b| 300);
    assert_ne!(learned.get_raw(key0).unwrap().value(f5), Some(77));
    let n = undo_backup(&mut learned, None, "f5d6", &out.changes).unwrap();
    assert_eq!(n, out.changes.len());
    assert_eq!(learned.len(), 1);
    assert_eq!(learned.get_raw(key0).unwrap().value(f5), Some(77));
}

#[test]
fn replay_tells_what_is_wrong() {
    // A letter that is left over is not looked at.
    assert_eq!(replay(None, "f5d").unwrap().0.len(), 1);
    assert!(replay(None, "f5z9").is_err());
    assert!(replay(None, "a1").is_err());
    let e = replay(Some("short"), "f5").unwrap_err();
    assert!(e.starts_with("start position: "), "{e}");
    assert_eq!(BackupJob::new(None, "", 8).err().unwrap(), "empty game record");
    let (line, end) = replay_from(Board::new(), "f5d6").unwrap();
    assert_eq!(line.len(), 2);
    assert_eq!(line[0].1, Some(pos("f5")));
    assert_eq!(end.empty_count(), 58);
}

#[test]
fn remaining_counts_down() {
    let mut learned = Book::new();
    let mut base = Book::new();
    let mut job = BackupJob::new(None, "f5d6", 14).unwrap();
    let before = job.remaining();
    run_job(&mut job, &mut learned, &mut base, |_b| 0);
    assert!(job.remaining() < before);
}

/// The changes of a whole import chain from the last move to the first.
#[test]
fn changes_chain_through_the_game() {
    let kifu = "e6f4c3d6f6e7f5g5e3g4c7d3f3c4c6c5b4b6d7b5c2a3f8e8d8c8b8d2g3e2a6c1d1e1f2f1f7h3a5a7a8b7g2g8h8g1b3a4a2b2a1b1g7g6h6h7h5h4h2h1";
    let (line, end) = replay(None, kifu).unwrap();
    let moves = line.iter().filter(|(_, m)| m.is_some()).count();
    let (mut learned, mut base) = (Book::new(), Book::new());
    let mut job = BackupJob::new(None, kifu, 8).unwrap();
    let mut n = 0;
    let out = run_job(&mut job, &mut learned, &mut base, |_b| {
        n += 37;
        n % 900 - 450
    });
    assert_eq!((out.updated, out.changes.len()), (moves, moves));
    let mut carried = 100 * kuroobi::solver::final_score(&end);
    let mut changes = out.changes.iter();
    let mut ply = moves;
    for (_, mv) in line.iter().rev() {
        let Some(p) = mv else {
            carried = -carried;
            continue;
        };
        let c = changes.next().unwrap();
        assert_eq!((c.ply, c.mv, c.after), (ply, *p, -carried));
        assert!(c.best >= c.after);
        carried = c.best;
        ply -= 1;
    }
    assert!(changes.next().is_none() && ply == 0);
}

/// Where the record stops early the first value that was fed starts the chain.
#[test]
fn unfinished_games_start_from_the_value_fed() {
    let (mut learned, mut base) = (Book::new(), Book::new());
    let mut job = BackupJob::new(None, "f5d6c3d3c4", 8).unwrap();
    let mut fed: Vec<i32> = Vec::new();
    let out = run_job(&mut job, &mut learned, &mut base, |_b| {
        fed.push(123 - 40 * fed.len() as i32);
        *fed.last().unwrap()
    });
    let plies: Vec<usize> = out.changes.iter().map(|c| c.ply).collect();
    assert_eq!(plies, vec![5, 4, 3, 2, 1]);
    assert_eq!(out.changes[0].after, -123);
    assert!(out.changes.windows(2).all(|w| w[1].after == -w[0].best));
}
