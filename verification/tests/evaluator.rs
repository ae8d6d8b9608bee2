use kuroobi::evaluator::{StageTables, WeightsError};
use kuroobi::pattern::library::{edax_patterns, egaroucid_patterns};
use kuroobi::search::LeafEval;
use kuroobi::{Board, Evaluator, Position, STAGE_COUNT};

#[test]
fn test_stage() {
    let b = Board::new();
    assert_eq!(Evaluator::stage(&b), 0, "initial board is stage 0");

    let mut b = Board::new();
    let first = b.movable().trailing_zeros();
    b.make_move_unchecked(Position::from_index(first).unwrap());
    assert_eq!(Evaluator::stage(&b), 1, "one move played -> stage 1");
}

fn eval(e: &Evaluator, b: &Board) -> f32 {
    let stage = Evaluator::stage(b);
    e.cells(b).iter().map(|&(p, i)| f32::from_bits(e.weight(stage, p, i))).sum()
}

#[test]
fn test_eval_zero_weights() {
    let e = Evaluator::new(egaroucid_patterns());
    let b = Board::new();
    assert_eq!(eval(&e, &b), 0.0);
}

#[test]
fn test_save_load_roundtrip() {
    let mut e = Evaluator::new(egaroucid_patterns());
    e.set_weight(0, 0, 42, 1.25f32.to_bits());
    e.set_weight(60, 15, 7, (-3.5f32).to_bits());
    let file = e.save_weights();

    let mut e2 = Evaluator::new(egaroucid_patterns());
    e2.load_weights(&file).unwrap();
    assert_eq!(f32::from_bits(e2.weight(0, 0, 42)), 1.25);
    assert_eq!(f32::from_bits(e2.weight(60, 15, 7)), -3.5);
    assert_eq!(f32::from_bits(e2.weight(30, 8, 0)), 0.0);
}

#[test]
fn test_load_rejects_wrong_library() {
    let e = Evaluator::new(egaroucid_patterns());
    let file = e.save_weights();

    let mut edax = Evaluator::new(edax_patterns());
    assert!(
        edax.load_weights(&file).is_err(),
        "loading Egaroucid weights into an Edax evaluator must fail"
    );
}

#[test]
fn bad_files_are_told_apart() {
    let few = || vec![egaroucid_patterns().remove(0), egaroucid_patterns().remove(1)];
    let e = Evaluator::new(few());
    let file = e.save_weights();
    let mut other = Evaluator::new(few());
    assert_eq!(other.load_weights(&file[..5]), Err(WeightsError::Truncated));
    let mut bad = file.clone();
    bad[0] = 0;
    assert_eq!(other.load_weights(&bad), Err(WeightsError::BadMagic));
    bad = file.clone();
    bad[8] = 60;
    assert_eq!(other.load_weights(&bad), Err(WeightsError::StageCount));
    bad = file.clone();
    bad[12] = 3;
    assert_eq!(other.load_weights(&bad), Err(WeightsError::PatternCount));
    bad = file.clone();
    bad[16] ^= 1;
    assert_eq!(other.load_weights(&bad), Err(WeightsError::TableSize));
    assert_eq!(
        other.load_weights(&file[..file.len() - 1]),
        Err(WeightsError::Truncated)
    );
    assert_eq!(WeightsError::BadMagic.message(), "bad magic");
}

/// White reads the tables as Black does with the colours exchanged.
#[test]
fn both_sides_read_the_same_weights() {
    let patterns = || vec![egaroucid_patterns().remove(0)];
    let size = patterns()[0].table_size();
    let stages: Vec<Vec<i16>> = (0..STAGE_COUNT)
        .map(|s| (0..size).map(|i| ((i * 31 + s * 7) % 200) as i16 - 100).collect())
        .collect();
    let t = StageTables::new(patterns(), stages.clone());
    let mut b = Board::new();
    for m in ["f5", "d6", "c3"] {
        b.make_move(Position::from_kifu(m).unwrap()).unwrap();
        let sum: i32 = patterns()[0]
            .indices(b.black, b.white, b.player())
            .iter()
            .map(|&i| stages[Evaluator::stage(&b)][i] as i32)
            .sum();
        assert_eq!(t.eval_indices(&b, &t.indexer().init(b.black, b.white)), sum);
    }
}
