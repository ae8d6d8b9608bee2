use kuroobi::pattern::library::{edax_patterns, egaroucid_patterns, egaroucid_plus_patterns};
use kuroobi::{Board, Color, Pattern, PatternIndexer, PatternIndices, Position};

/// Expected indices via the existing per-position recomputation, in
/// `player`'s perspective.
fn reference_indices(patterns: &[Pattern], b: &Board, player: Color) -> Vec<usize> {
    patterns
        .iter()
        .flat_map(|p| p.indices(b.black, b.white, player))
        .collect()
}

/// Indexer view of the same thing: absolute indices, swapped for White.
fn indexer_view(ix: &PatternIndexer, indices: &PatternIndices, player: Color) -> Vec<usize> {
    (0..ix.n_masks())
        .map(|m| {
            let idx = indices.idx[m] as usize;
            if player == Color::Black {
                idx
            } else {
                let pi = ix.mask_pattern[m] as usize;
                ix.swap_tables[ix.patterns[pi].size][idx] as usize
            }
        })
        .collect()
}

fn deterministic_game(seed: u64) -> Vec<(Board, Position, u64, Color)> {
    // (board BEFORE move, pos, flipped, mover) for a full random game
    let mut board = Board::new();
    let mut state = seed.wrapping_mul(6364136223846793005).wrapping_add(1);
    let mut moves = Vec::new();
    loop {
        let mob = board.movable();
        if mob == 0 {
            let mut p = board;
            p.pass();
            if p.movable() == 0 {
                break;
            }
            board = p;
            continue;
        }
        state = state
            .wrapping_mul(6364136223846793005)
            .wrapping_add(1442695040888963407);
        let count = mob.count_ones() as u64;
        let mut nth = (state >> 33) % count;
        let mut m = mob;
        while nth > 0 {
            m &= m - 1;
            nth -= 1;
        }
        let pos = Position::from_index(m.trailing_zeros()).unwrap();
        let before = board;
        let mover = board.player();
        let flipped = board.make_move_bits(pos);
        moves.push((before, pos, flipped, mover));
    }
    moves
}

#[test]
fn test_init_matches_reference_both_libraries() {
    for patterns in [egaroucid_patterns, edax_patterns, egaroucid_plus_patterns] {
        let ix = PatternIndexer::new(patterns());
        let b = Board::new();
        let indices = ix.init(b.black, b.white);
        for player in [Color::Black, Color::White] {
            assert_eq!(
                indexer_view(&ix, &indices, player),
                reference_indices(&patterns(), &b, player),
            );
        }
    }
}

#[test]
fn test_apply_tracks_full_games() {
    for patterns in [egaroucid_patterns, edax_patterns, egaroucid_plus_patterns] {
        let ix = PatternIndexer::new(patterns());
        for seed in 1..=5u64 {
            let game = deterministic_game(seed);
            let first = &game[0].0;
            let mut indices = ix.init(first.black, first.white);
            for (before, pos, flipped, mover) in &game {
                ix.apply(&mut indices, *pos, *flipped, *mover);
                let mut after = *before;
                after.make_move_unchecked(*pos);
                for player in [Color::Black, Color::White] {
                    assert_eq!(
                        indexer_view(&ix, &indices, player),
                        reference_indices(&patterns(), &after, player),
                        "seed {seed}: divergence after move {pos:?}"
                    );
                }
            }
        }
    }
}

#[test]
fn test_undo_restores_exactly() {
    let ix = PatternIndexer::new(egaroucid_patterns());
    for seed in 1..=3u64 {
        let game = deterministic_game(seed);
        let first = &game[0].0;
        let mut indices = ix.init(first.black, first.white);
        for (before, pos, flipped, mover) in &game {
            let snapshot = indices.idx;
            ix.apply(&mut indices, *pos, *flipped, *mover);
            ix.undo(&mut indices, *pos, *flipped, *mover);
            assert_eq!(indices.idx, snapshot, "undo must restore indices");
            // Advance for the next iteration
            let _ = before;
            ix.apply(&mut indices, *pos, *flipped, *mover);
        }
    }
}

#[test]
fn test_swap_tables_are_involutions() {
    let ix = PatternIndexer::new(egaroucid_patterns());
    for (size, table) in ix.swap_tables.iter().enumerate() {
        for (idx, &swapped) in table.iter().enumerate() {
            assert_eq!(
                table[swapped as usize] as usize, idx,
                "size {size}: swap must be an involution"
            );
        }
    }
}
