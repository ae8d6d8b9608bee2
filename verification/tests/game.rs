use kuroobi::zobrist::compute_hash;
use kuroobi::{Color, MoveError, Position, Reversi, BOARD_INIT_STRING};
use rand::SeedableRng;

#[test]
fn test_new_game() {
    let g = Reversi::new();
    assert_eq!(g.player(), Color::Black);
    assert_eq!(g.piece_count(), (2, 2));
    assert_eq!(g.empty_count(), 60);
    assert_eq!(g.move_count(), 0);
    assert_eq!(g.to_kifu(), "");
}

#[test]
fn test_make_move() {
    let mut g = Reversi::new();

    // First move: Black places at c4 (Position 19)
    let pos = Position(19);
    let result = g.make_move(pos);
    assert!(result.is_ok(), "First move should be valid: {result:?}");

    assert_eq!(g.move_count(), 1);
    assert_eq!(g.piece_count(), (4, 1)); // Black placed 1, White flipped 1
    assert_eq!(g.player(), Color::White);
}

#[test]
fn test_invalid_move() {
    let mut g = Reversi::new();

    // Try placing on an occupied square (D4 = Position 28)
    let result = g.make_move(Position(28));
    assert_eq!(result, Err(MoveError::Occupied));

    // Try placing where nothing flips
    let result = g.make_move(Position(0)); // A1 is far from pieces
    assert_eq!(result, Err(MoveError::NotPlayable));
}

#[test]
fn test_pass() {
    let mut g = Reversi::new();

    // Make a move at c4 (Position 19)
    g.make_move(Position(19)).unwrap();

    // Pass
    g.pass().unwrap();
    assert_eq!(g.move_count(), 2);
    assert_eq!(g.player(), Color::Black); // Player swapped back
}

#[test]
fn test_undo_redo() {
    let mut g = Reversi::new();

    g.make_move(Position(19)).unwrap();

    // Undo
    g.undo().unwrap();
    assert_eq!(g.move_count(), 0);
    assert_eq!(g.piece_count(), (2, 2));
    assert_eq!(g.player(), Color::Black);

    // Redo
    g.redo().unwrap();
    assert_eq!(g.move_count(), 1);
    assert_eq!(g.piece_count(), (4, 1));
}

#[test]
fn test_undo_redo_edge_cases() {
    let mut g = Reversi::new();

    // Nothing to undo/redo initially
    assert!(g.undo().is_err(), "undo on fresh game must fail");
    assert!(g.redo().is_err(), "redo on fresh game must fail");

    // Redo hash must match the hash recomputed from the board
    g.make_move(Position(19)).unwrap();
    let hash_after_move = g.hash();
    g.undo().unwrap();
    g.redo().unwrap();
    assert_eq!(g.hash(), hash_after_move, "redo restores the exact hash");
    assert_eq!(
        g.hash(),
        compute_hash(g.board.black, g.board.white, g.player()),
        "hash stays consistent with the board after redo"
    );

    // A fresh move invalidates the redo stack
    g.undo().unwrap();
    g.make_move(Position(26)).unwrap(); // d3, another legal opening
    assert!(g.redo().is_err(), "new move must clear the redo stack");

    // Multi-level undo/redo preserves order (LIFO)
    let mut g = Reversi::new();
    g.make_move(Position(19)).unwrap();
    let m2 = Position::from_index(g.movable().trailing_zeros()).unwrap();
    g.make_move(m2).unwrap();
    let final_hash = g.hash();
    g.undo().unwrap();
    g.undo().unwrap();
    assert_eq!(g.piece_count(), (2, 2));
    g.redo().unwrap();
    g.redo().unwrap();
    assert_eq!(g.hash(), final_hash, "two undos + two redos round-trip");
}

#[test]
fn test_undo_after_pass() {
    let mut g = Reversi::new();
    g.make_move(Position(19)).unwrap();
    let hash_before_pass = g.hash();
    let player_before_pass = g.player();

    g.pass().unwrap();
    g.undo().unwrap();

    assert_eq!(g.hash(), hash_before_pass, "undoing a pass restores hash");
    assert_eq!(g.player(), player_before_pass, "undoing a pass restores player");
    assert_eq!(g.move_count(), 1);
}

#[test]
fn test_kifu_roundtrip() {
    let mut g = Reversi::new();

    // Make a few moves
    g.make_move(Position(19)).unwrap(); // c4

    let movable = g.movable();
    let first = movable.trailing_zeros();
    let pos2 = Position::from_index(first).unwrap();
    g.make_move(pos2).unwrap();

    let kifu = g.to_kifu();
    assert!(!kifu.is_empty(), "KIFU should not be empty");

    // Replay from KIFU
    let g2 = Reversi::from_kifu(&kifu).unwrap();
    assert_eq!(g2.piece_count(), g.piece_count());
    assert_eq!(g2.player(), g.player());
}

#[test]
fn test_hash_consistency() {
    let mut g = Reversi::new();
    let h1 = g.hash();

    g.make_move(Position(19)).unwrap();

    let h2 = g.hash();
    assert_ne!(h1, h2, "Hash should change after move");

    // Undo should restore the hash
    g.undo().unwrap();
    assert_eq!(g.hash(), h1, "Hash should be restored after undo");
}

#[test]
fn test_serialize_deserialize() {
    let mut g = Reversi::new();

    g.make_move(Position(19)).unwrap();

    let serialized = g.serialize();
    let g2 = Reversi::deserialize(serialized[0], serialized[1], serialized[2]).unwrap();

    assert_eq!(g2.board.black, g.board.black);
    assert_eq!(g2.board.white, g.board.white);
    assert_eq!(g2.player(), g.player(), "player must be recovered from hash");
    assert_eq!(g2.hash(), g.hash());

    // Tampered hash must be rejected
    assert!(Reversi::deserialize(serialized[0], serialized[1], serialized[2] ^ 1).is_err());
}

#[test]
fn test_board_at() {
    let mut g = Reversi::new();

    // Board at 0 should be initial position
    let b0 = g.board_at(0).unwrap();
    assert_eq!(b0.piece_count(), (2, 2));

    // Make a move
    g.make_move(Position(19)).unwrap();

    // Board at 1 should have 3 black, 1 white
    let b1 = g.board_at(1).unwrap();
    assert_eq!(b1.piece_count(), (4, 1));
}

/// Positions of a game that began elsewhere are its own.
#[test]
fn board_at_keeps_to_the_game() {
    let start = "--XOOO----XOOOOO-XXOOOOX-XXXOXXX-XXXOXXX-XOOOOXX--OO-O------O--- X";
    let mut g = Reversi::from_string(start).unwrap();
    let mut seen = vec![g.board];
    for _ in 0..6 {
        if g.movable() == 0 {
            g.pass().unwrap();
        } else {
            g.make_move(g.movable_list()[0]).unwrap();
        }
        seen.push(g.board);
    }
    for (n, b) in seen.iter().enumerate() {
        let at = g.board_at(n).unwrap();
        assert_eq!((at.black, at.white, at.player()), (b.black, b.white, b.player()));
    }
    assert!(g.board_at(7).is_err());
}

#[test]
fn test_movable_list() {
    let g = Reversi::new();
    let list = g.movable_list();
    assert_eq!(list.len(), 4, "Initial position: 4 moves for Black");

    // All positions should be valid
    for pos in &list {
        assert!(g.board.check(*pos));
    }
}

#[test]
fn test_game_over_detection() {
    let g = Reversi::new();
    assert!(!g.is_game_over(), "Initial position: game not over");
}

#[test]
fn test_from_string() {
    let g = Reversi::from_string(BOARD_INIT_STRING).unwrap();
    assert_eq!(g.piece_count(), (2, 2));
    assert_eq!(g.player(), Color::Black);
}

#[test]
fn test_from_string_invalid() {
    assert!(Reversi::from_string("invalid").is_err());
}

/// Play a deterministic full game to the end, verifying invariants
/// (hash consistency, piece conservation) at every ply, then replay
/// it from the KIFU and compare final states.
#[test]
fn test_full_game_and_kifu_replay() {
    let mut g = Reversi::new();
    let mut plies = 0;
    loop {
        let moves = g.movable();
        if moves == 0 {
            if g.is_game_over() {
                break;
            }
            g.pass().unwrap();
            continue;
        }
        // Deterministic choice: lowest bit on even plies, highest on odd
        let bit = if plies % 2 == 0 {
            moves.trailing_zeros()
        } else {
            63 - moves.leading_zeros()
        };
        g.make_move(Position::from_index(bit).unwrap()).unwrap();
        plies += 1;

        // Invariants
        let (b, w) = g.piece_count();
        assert_eq!(
            b as u32 + w as u32 + g.empty_count() as u32,
            64,
            "piece conservation"
        );
        let recomputed =
            compute_hash(g.board.black, g.board.white, g.player());
        assert_eq!(g.hash(), recomputed, "incremental hash must stay in sync");
    }
    assert!(plies >= 20, "a full game plays plenty of moves");
    assert!(g.is_game_over());

    // KIFU replay reproduces the same final position
    let replay = Reversi::from_kifu(&g.to_kifu()).unwrap();
    assert_eq!(replay.board.black, g.board.black);
    assert_eq!(replay.board.white, g.board.white);
}

#[test]
fn test_random_move_plays_legal_moves() {
    let mut rng = rand::rngs::StdRng::seed_from_u64(42);
    let mut g = Reversi::new();
    for _ in 0..10 {
        if g.movable() == 0 {
            break;
        }
        let before = g.movable();
        let pos = g.random_move(&mut rng).unwrap();
        assert!(before & pos.to_bit() != 0, "returned move was legal");
    }
    assert!(g.move_count() > 0);
}

/// Passes after the last move are not written; the discs come back.
#[test]
fn records_leave_out_passes_at_the_end() {
    let mut g = Reversi::new();
    for m in ["f5", "d6", "c3"] {
        g.make_move(Position::from_kifu(m).unwrap()).unwrap();
    }
    let board = g.board;
    g.pass().unwrap();
    g.pass().unwrap();
    g.pass().unwrap();
    let back = Reversi::from_kifu(&g.to_kifu()).unwrap();
    assert_eq!((back.board.black, back.board.white), (board.black, board.white));
    assert_eq!(back.move_count(), 3);
    assert_eq!(back.board.player(), board.player());
}
