use kuroobi::pattern::library::{compact_patterns, edax_patterns, egaroucid_patterns};
use kuroobi::pattern::sq;
use kuroobi::{Board, Color, Pattern, PatternWeights};

#[test]
fn test_pattern_counts() {
    assert_eq!(egaroucid_patterns().len(), 16, "Egaroucid has 16 patterns");
    assert_eq!(edax_patterns().len(), 12, "Edax has 12 patterns");
}

/// The point of `compact_patterns` is a smaller, cheaper feature
/// space, so the two numbers that make it cheaper are pinned here. A
/// transcription slip that duplicated a mask or widened a shape would
/// otherwise show up only as an unexplained slowdown, months later.
#[test]
fn compact_patterns_are_the_size_they_are_for() {
    let masks: usize = compact_patterns().iter().map(|p| p.masks.len()).sum();
    let rows: usize = compact_patterns().iter().map(|p| p.table_size()).sum();
    assert_eq!(masks, 32, "row reads per evaluation");
    assert_eq!(rows, 74_358, "weight rows, orientations sharing a table");
    assert!(
        compact_patterns().iter().all(|p| p.size <= 9),
        "a 10-square shape costs 3^10 rows, which is what this set exists to avoid"
    );
}

/// Every mask must name distinct squares on the board. A repeat would
/// waste a ternary digit and make two different positions share an
/// index; a stray value would read outside the board.
#[test]
fn compact_pattern_masks_are_well_formed() {
    for p in compact_patterns() {
        for (m, mask) in p.masks.iter().enumerate() {
            assert_eq!(mask.len(), p.size, "{} mask {m} length", p.name);
            let mut seen = 0u64;
            for &sq in mask.iter() {
                assert!(sq < 64, "{} mask {m} square {sq} off the board", p.name);
                let bit = 1u64 << sq;
                assert_eq!(seen & bit, 0, "{} mask {m} repeats square {sq}", p.name);
                seen |= bit;
            }
        }
    }
}

#[test]
fn test_mask_sizes_match_declared_size() {
    for p in egaroucid_patterns().iter().chain(edax_patterns().iter()) {
        assert!(!p.masks.is_empty(), "{}: needs at least one mask", p.name);
        for (i, mask) in p.masks.iter().enumerate() {
            assert_eq!(
                mask.len(),
                p.size,
                "{} mask {} has {} squares, declared size {}",
                p.name,
                i,
                mask.len(),
                p.size
            );
        }
    }
}

#[test]
fn test_no_duplicate_squares_within_mask() {
    for p in egaroucid_patterns().iter().chain(edax_patterns().iter()) {
        for (i, mask) in p.masks.iter().enumerate() {
            let mut seen = 0u64;
            for &s in mask.iter() {
                assert!(s < 64, "{} mask {}: square {} out of range", p.name, i, s);
                let bit = 1u64 << s;
                assert_eq!(
                    seen & bit,
                    0,
                    "{} mask {}: duplicate square {}",
                    p.name,
                    i,
                    s
                );
                seen |= bit;
            }
        }
    }
}

#[test]
fn test_empty_board_index_is_all_twos() {
    // Every square empty -> every ternary digit is 2 -> index = 3^size - 1
    for p in egaroucid_patterns().iter().chain(edax_patterns().iter()) {
        for mask in p.masks.iter() {
            let idx = Pattern::mask_index(mask, 0, 0, Color::Black);
            assert_eq!(idx, p.table_size() - 1, "{}: empty-board index", p.name);
        }
    }
}

#[test]
fn test_mask_index_respects_order_and_colors() {
    // Mask [A1, B1]: A1=player -> digit 0, B1=opponent -> digit 1.
    // Index = 0*3 + 1 = 1 for Black; swapped for White = 1*3 + 0 = 3.
    let black = 1u64 << sq::A1;
    let white = 1u64 << sq::B1;
    let mask: &[u8] = &[sq::A1, sq::B1];
    assert_eq!(Pattern::mask_index(mask, black, white, Color::Black), 1);
    assert_eq!(Pattern::mask_index(mask, black, white, Color::White), 3);
}

#[test]
fn test_orientation_symmetry_on_initial_board() {
    // The initial position is 180-degree rotationally symmetric with
    // colors swapped. Corner3x3 doesn't touch the center, so all four
    // orientations must give the identical (all-empty) index.
    let b = Board::new();
    let corner = &egaroucid_patterns()[3];
    assert_eq!(corner.name, "Corner3x3");
    let indices: Vec<usize> = corner.indices(b.black, b.white, b.player());
    assert!(indices.windows(2).all(|w| w[0] == w[1]));
    assert_eq!(indices[0], corner.table_size() - 1);
}

#[test]
fn test_line4_sees_initial_pieces() {
    // Line4's rank-4/rank-5 and file-D/file-E masks each cross exactly
    // two initial center discs, so their indices must differ from empty.
    let b = Board::new();
    let line4 = &egaroucid_patterns()[2];
    assert_eq!(line4.name, "Line4");
    for idx in line4.indices(b.black, b.white, b.player()) {
        assert_ne!(idx, line4.table_size() - 1, "Line4 must see center discs");
    }
}

#[test]
fn test_weights_zeros_and_evaluate() {
    let mut w = PatternWeights::zeros(egaroucid_patterns());
    for (i, p) in egaroucid_patterns().iter().enumerate() {
        assert_eq!(w.weights[i].len(), p.table_size());
    }

    let b = Board::new();
    assert_eq!(
        w.evaluate(b.black, b.white, b.player()),
        0,
        "all-zero weights"
    );

    // Set the weight for Line2's current (all-empty) index; Line2 has 4
    // orientations, all all-empty on the initial board -> score = 4 * 7.
    let line2 = &egaroucid_patterns()[0];
    w.set(0, line2.table_size() - 1, 7);
    assert_eq!(w.evaluate(b.black, b.white, b.player()), 28);
}

#[test]
fn test_player_perspective_flips_digits() {
    let b = Board::new();
    let line4 = &egaroucid_patterns()[2];
    let black_view: Vec<usize> = line4.indices(b.black, b.white, Color::Black);
    let white_view: Vec<usize> = line4.indices(b.black, b.white, Color::White);
    assert_ne!(
        black_view, white_view,
        "swapping perspective must swap player/opponent digits"
    );
}
