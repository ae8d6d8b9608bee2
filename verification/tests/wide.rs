use kuroobi::nnue::model::Nnue;
use kuroobi::nnue::wide::{WideNnue, WideNumbers};
use kuroobi::nnue::H;
use kuroobi::pattern::library::egaroucid_patterns;
use kuroobi::{Board, Evaluator, Pattern, Position, STAGE_COUNT};

fn few_patterns() -> Vec<Pattern> {
    let mut all = egaroucid_patterns();
    let b = all.remove(3);
    let a = all.remove(0);
    vec![a, b]
}

fn network() -> WideNnue {
    let rows: usize = few_patterns().iter().map(|p| p.table_size()).sum();
    let list = |n: usize, k: i64, limit: i64| -> Vec<i32> {
        (0..n as i64).map(|i| ((i * k) % (2 * limit + 1) - limit) as i32).collect()
    };
    WideNnue::new(
        few_patterns(),
        WideNumbers {
            ft: list(rows * H, 7919, 2048),
            ft_bias: list(STAGE_COUNT * H, 104729, 100_000),
            out_w: list(STAGE_COUNT * H, 15485863, 262_144),
        },
    )
}

/// The read-out by its formula.
fn direct(nn: &WideNnue, b: &Board) -> i64 {
    let st = Evaluator::stage(b);
    let mut lanes = vec![0i64; H];
    let mut start = 0;
    for p in few_patterns() {
        for i in p.indices(b.black, b.white, b.player()) {
            for (h, lane) in lanes.iter_mut().enumerate() {
                *lane += nn.numbers.ft[(start + i) * H + h] as i64;
            }
        }
        start += p.table_size();
    }
    (0..H)
        .map(|h| {
            let lit = (lanes[h] + nn.numbers.ft_bias[st * H + h] as i64).max(0);
            lit * nn.numbers.out_w[st * H + h] as i64
        })
        .sum()
}

/// Sums that follow the moves read out as those added up anew.
#[test]
fn wide_accumulator_follows_moves() {
    let nn = network();
    let mut board = Board::new();
    let mut acc = nn.accumulator_i32(&board);
    let mut plies = 0;
    loop {
        assert_eq!(nn.eval_acc_i32(&acc, &board), direct(&nn, &board));
        let moves = board.movable();
        if moves == 0 {
            board.pass();
            if board.movable() == 0 {
                break;
            }
            continue;
        }
        let pos = Position::from_index(moves.trailing_zeros()).unwrap();
        let (mover, before) = (board.player(), board);
        let flipped = board.make_move_bits(pos);
        nn.acc_apply_i32(&mut acc, pos, flipped, mover);
        assert_eq!(acc.acc, nn.accumulator_i32(&board).acc);
        nn.acc_undo_i32(&mut acc, pos, flipped, mover);
        assert_eq!(acc.acc, nn.accumulator_i32(&before).acc);
        nn.acc_apply_i32(&mut acc, pos, flipped, mover);
        plies += 1;
    }
    assert!(plies > 40);
}

/// A model's indices follow the moves, and come back.
#[test]
fn model_indices_follow_moves() {
    let nn = Nnue::new(few_patterns());
    let mut board = Board::new();
    let first = nn.features.indices(board.black, board.white);
    let mut ix = nn.features.indices(board.black, board.white);
    while board.movable() != 0 {
        let start = nn.features.indices(board.black, board.white);
        let pos = Position::from_index(board.movable().trailing_zeros()).unwrap();
        let mover = board.player();
        let flipped = board.make_move_bits(pos);
        nn.ix_apply(&mut ix, pos, flipped, mover);
        assert_eq!(ix.idx, nn.features.indices(board.black, board.white).idx);
        nn.ix_undo(&mut ix, pos, flipped, mover);
        assert_eq!(ix.idx, start.idx);
        nn.ix_apply(&mut ix, pos, flipped, mover);
    }
    assert_ne!(ix.idx, first.idx);
}
