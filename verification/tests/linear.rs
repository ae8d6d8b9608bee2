use kuroobi::linear::gpu::{mask_tables, prepare, square_maps, upload, Example, FORMS};
use kuroobi::linear::{linear_patterns, Linear};
use kuroobi::nnue::NUM_TABLE_SIZE;
use kuroobi::pattern_index::absolute_digit;
use kuroobi::{Board, Color, PatternIndexer, Position};

/// The flat numbering has to round-trip, or the GPU trains cells the
/// evaluator reads somewhere else entirely.
#[test]
fn flat_layout_round_trips() {
    let mut ev = Linear::new(linear_patterns());
    let mut flat = ev.flat_all();
    for (i, w) in flat.iter_mut().enumerate() {
        *w = ((i % 997) as f32).to_bits();
    }
    ev.set_flat_all(&flat);
    assert_eq!(ev.flat_all(), flat);
}

/// A board's cells under the flat numbering must sum to what `eval`
/// returns; the GPU forward is exactly that sum.
#[test]
fn flat_cells_sum_to_the_evaluation() {
    let mut ev = Linear::new(linear_patterns());
    let mut flat = ev.flat_all();
    let mut k = 0u32;
    for w in flat.iter_mut() {
        k = k.wrapping_mul(1664525).wrapping_add(1013904223);
        *w = ((k >> 20) as f32 / 4096.0 - 0.5).to_bits();
    }
    ev.set_flat_all(&flat);

    let mut b = Board::new();
    for mv in [19u32, 18, 17, 26] {
        if let Some(p) = Position::from_index(mv) {
            b.make_move_bits(p);
        }
    }
    let eval: f32 = ev.cells(&b).iter().map(|&c| f32::from_bits(ev.weights[c])).sum();
    let patterns = ev.patterns();
    let mut off = 0u32;
    let mut pat_off = Vec::new();
    for p in patterns {
        pat_off.push(off);
        off += p.table_size() as u32;
    }
    pat_off.push(off);
    let stage_stride = off + NUM_TABLE_SIZE as u32;
    let base = Linear::stage(&b) as u32 * stage_stride;
    let mut sum = 0.0f32;
    for (pi, p) in patterns.iter().enumerate() {
        for idx in p.indices(b.black, b.white, b.player()) {
            sum += f32::from_bits(flat[(base + pat_off[pi] + idx as u32) as usize]);
        }
    }
    sum += f32::from_bits(
        flat[(base + pat_off[patterns.len()] + b.player_bb().count_ones()) as usize],
    );
    assert!(
        (sum - eval).abs() < 1e-3,
        "flat sum {sum} against eval {eval}"
    );
}

#[test]
fn some_stages_go_out_and_in() {
    let mut ev = Linear::new(linear_patterns());
    let n = ev.stage_stride();
    let part: Vec<u32> = (0..2 * n as u32).collect();
    ev.set_flat_stages(3, 4, &part);
    assert_eq!(ev.flat_stages(3, 4), part);
    assert!(ev.flat_stages(2, 2).iter().all(|w| *w == 0));
    assert!(ev.flat_stages(5, 5).iter().all(|w| *w == 0));
}

/// The squares of each turned board, and the masks on them, are those of the
/// board turned back.
#[test]
fn maps_turn_boards() {
    let maps = square_maps();
    assert_eq!(maps.len(), FORMS);
    let mut b = Board::new();
    for m in ["f5", "d6", "c3"] {
        b.make_move(Position::from_kifu(m).unwrap()).unwrap();
    }
    let forms = b.symmetries();
    for (f, form) in forms.iter().enumerate() {
        for s in 0..64 {
            assert_eq!(form.black >> s & 1, b.black >> maps[f][s] & 1);
            assert_eq!(form.white >> s & 1, b.white >> maps[f][s] & 1);
        }
    }
    let ix = PatternIndexer::new(linear_patterns());
    let t = mask_tables(&ix);
    let n = ix.n_masks();
    assert_eq!(t.mptr.len(), FORMS * n);
    for (f, form) in forms.iter().enumerate() {
        let meant = ix.init(form.black, form.white);
        for m in 0..n {
            let (at, len) = (t.mptr[f * n + m] / 256, t.mptr[f * n + m] % 256);
            let mut v = 0u32;
            for &s in &t.msq[at as usize..(at + len) as usize] {
                v = v * 3 + absolute_digit(b.black, b.white, s as u8) as u32;
            }
            assert_eq!(v, meant.idx[m] as u32);
        }
    }
}

#[test]
fn examples_are_packed_by_stage() {
    let b = Board::new();
    let e = |score: f32| Example { black: b.black, white: b.white, score: score.to_bits() };
    let full = Example { black: u64::MAX, white: 0, score: 0 };
    let list = vec![e(2.5), full, e(-1.0)];
    let (words, rows) = prepare(&list, 0, 10);
    assert_eq!(rows, 2);
    assert_eq!(words[0], b.black as u32);
    assert_eq!(words[1], (b.black >> 32) as u32);
    assert_eq!(words[4], 2.5f32.to_bits());
    assert_eq!(list[0].board().player(), Color::Black);
    let u = upload(&list, 0, 10, 7, 65, 0.5f32.to_bits()).unwrap();
    assert_eq!(u.rows, 16);
    assert_eq!(u.examples.len(), 40);
    assert_eq!(u.examples[4..8], ((b.black >> 32) as u32).to_ne_bytes());
    let params: Vec<u8> =
        [16u32, 7, 65, 0.5f32.to_bits()].iter().flat_map(|w| w.to_ne_bytes()).collect();
    assert_eq!(u.params, params);
    assert!(upload(&list, 11, 12, 7, 65, 0).is_none());
}
