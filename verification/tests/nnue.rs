use kuroobi::nnue::batch::{row_part, RowStamps};
use kuroobi::nnue::counting::line_up;
use kuroobi::nnue::kernels::acc_row_addsub;
use kuroobi::nnue::leaf::{Head, ScaledNnue};
use kuroobi::nnue::model::{Nnue, NnueError, FT, MLP_H2, MLP_L1_W, MOB_W, NUM_W, PW};
use kuroobi::nnue::orbits::{apply_index_perm, orbits, symmetry_index_perms};
use kuroobi::nnue::quantized::{Numbers, QuantNnue, Reading, HALF, MLP_H1};
use kuroobi::nnue::stack_q::{
    packed_index, StackNumbers, StackQ, ACC_DIMS, HALF_DIMS, L2_IN, OUT_IN, PA_DIMS, SO_L1,
    SO_L1_IN, SO_L2, SO_SKIP,
};
use kuroobi::nnue::{draw_form, ft_bucket, mob_index, num_index, sym_board, Features, FT_BUCKETS, H, MOB_BUCKETS, NUM_TABLE_SIZE};
use kuroobi::pattern::library::egaroucid_patterns;
use kuroobi::search::LeafEval;
use kuroobi::{Board, Color, Evaluator, Pattern, Position, STAGE_COUNT};

/// A number that looks random.
fn mix(s: &mut u64) -> u64 {
    *s ^= *s >> 12;
    *s ^= *s << 25;
    *s ^= *s >> 27;
    *s >> 20
}

fn pick(s: &mut u64, low: i64, high: i64) -> i64 {
    low + (mix(s) % (high - low + 1) as u64) as i64
}

fn few_patterns() -> Vec<Pattern> {
    let mut all = egaroucid_patterns();
    let b = all.remove(3);
    let a = all.remove(0);
    vec![a, b]
}

/// The small deterministic network in integers.
fn network() -> QuantNnue {
    let rows: usize = few_patterns().iter().map(|p| p.table_size()).sum();
    let mut s: u64 = 0x1234_5678;
    let mut i8s = |n: usize, low, high| -> Vec<i8> {
        (0..n).map(|_| pick(&mut s, low, high) as i8).collect()
    };
    let ft = i8s(FT_BUCKETS * rows * H, -128, 127);
    let l1_w = i8s(MLP_H1 * H, -128, 127);
    let mut s: u64 = 0x8765_4321;
    let mut i16s = |n: usize, low, high| -> Vec<i16> {
        (0..n).map(|_| pick(&mut s, low, high) as i16).collect()
    };
    QuantNnue::new(
        few_patterns(),
        Numbers {
            ft,
            ft_bias: i16s(STAGE_COUNT * H, -300, 300),
            out_w: i16s(STAGE_COUNT * H, -2000, 2000),
            pw: i16s(STAGE_COUNT * HALF, -500, 500),
            prod_clamp: 700,
            l1_w,
            act_shift: 2,
        },
    )
}

fn alike(a: &Reading, b: &Reading) -> bool {
    a.readout == b.readout && a.product == b.product && a.head == b.head
}

/// A small deterministic model: every path must read the same off a played-out
/// sequence, for both colours to move.
#[test]
fn test_eval_paths_agree() {
    let nn = network();
    /* Play far enough to leave the opening. */
    let mut board = Board::new();
    let mut acc = nn.accumulator(&board);
    let mut buckets_seen = [false; FT_BUCKETS];
    let mut plies = 0;
    for _ in 0..60 {
        let scratch = nn.eval_acc(&nn.accumulator(&board), &board);
        let inc = nn.eval_acc(&acc, &board);
        let ix = nn.features.indices(board.black, board.white);
        let from_ix = nn.eval_from_indices(&ix, &board);
        buckets_seen[ft_bucket(Evaluator::stage(&board))] = true;
        plies += 1;

        assert!(
            alike(&inc, &scratch),
            "incremental {inc:?} vs scratch {scratch:?} (player {:?}, {} empty)",
            board.player(),
            board.empty_count()
        );
        assert!(
            alike(&from_ix, &inc),
            "from_indices {from_ix:?} vs incremental {inc:?} ({} empty, player {:?}): \
             both are the same quantized computation and must match exactly",
            board.empty_count(),
            board.player()
        );

        let moves = board.movable();
        if moves == 0 {
            board.pass();
            if board.movable() == 0 {
                break;
            }
            continue;
        }
        let pos = Position::from_index(moves.trailing_zeros()).unwrap();
        let mover = board.player();
        let before = board;
        let flipped = board.make_move_bits(pos);
        nn.acc_apply(&mut acc, pos, flipped, mover);
        // Taken back and made again, the sums are the same.
        nn.acc_undo(&mut acc, pos, flipped, mover);
        assert!(alike(&nn.eval_acc(&acc, &before), &scratch));
        nn.acc_apply(&mut acc, pos, flipped, mover);
    }
    assert!(
        plies > 40,
        "only reached {plies} plies; the late game is untested"
    );
    assert!(
        buckets_seen.iter().all(|&b| b),
        "transformer copies visited: {buckets_seen:?} -- every copy must be \
         exercised or a wrong one goes unnoticed"
    );
}

/// The read-outs against a direct computation.
#[test]
fn readings_follow_their_formulas() {
    let nn = network();
    let b = Board::new();
    let st = Evaluator::stage(&b);
    let patterns = few_patterns();
    let mut lanes = vec![0i64; H];
    let mut start = 0;
    for p in &patterns {
        for i in p.indices(b.black, b.white, b.player()) {
            for h in 0..H {
                lanes[h] += nn.numbers.ft[(start + i) * H + h] as i64;
            }
        }
        start += p.table_size();
    }
    let biased: Vec<i64> = (0..H).map(|h| lanes[h] + nn.numbers.ft_bias[st * H + h] as i64).collect();
    let r = nn.eval_from_indices(&nn.features.indices(b.black, b.white), &b);
    let readout: i64 =
        (0..H).map(|h| biased[h].max(0) * nn.numbers.out_w[st * H + h] as i64).sum();
    assert_eq!(r.readout, readout);
    let cap = nn.numbers.prod_clamp as i64;
    let product: i64 = (0..HALF)
        .map(|h| {
            biased[h].clamp(0, cap) * biased[h + HALF].clamp(0, cap)
                * nn.numbers.pw[st * HALF + h] as i64
        })
        .sum();
    assert_eq!(r.product, product);
    for i in 0..MLP_H1 {
        let sum: i64 = (0..H)
            .map(|h| {
                let a = (biased[h].max(0) >> nn.numbers.act_shift).min(255);
                a * nn.numbers.l1_w[i * H + h] as i64
            })
            .sum();
        assert_eq!(r.head[i] as i64, sum);
    }
}

fn stack() -> StackQ {
    let rows: usize = few_patterns().iter().map(|p| p.table_size()).sum();
    let (stacks, buckets) = (2usize, 3usize);
    let mut s: u64 = 0xBEEF_1234;
    let mut list = |n: usize, low, high| -> Vec<i64> {
        (0..n).map(|_| pick(&mut s, low, high)).collect()
    };
    let i16s = |v: Vec<i64>| v.into_iter().map(|x| x as i16).collect::<Vec<i16>>();
    let i8s = |v: Vec<i64>| v.into_iter().map(|x| x as i8).collect::<Vec<i8>>();
    let i32s = |v: Vec<i64>| v.into_iter().map(|x| x as i32).collect::<Vec<i32>>();
    let n = StackNumbers {
        ft: i16s(list(rows * ACC_DIMS, -60, 100)),
        ft_bias: i16s(list(ACC_DIMS, -50, 200)),
        pa: i16s(list(buckets * rows * PA_DIMS, -60, 100)),
        pa_bias: i16s(list(buckets * PA_DIMS, -50, 200)),
        l1_w: i8s(list(stacks * SO_L1 * SO_L1_IN, -128, 127)),
        l1_b: i32s(list(stacks * SO_L1, -9000, 9000)),
        l2_w: i8s(list(stacks * SO_L2 * L2_IN, -128, 127)),
        l2_b: i32s(list(stacks * SO_L2, -9000, 9000)),
        out_w: i16s(list(stacks * OUT_IN, -3000, 3000)),
        out_b: i32s(list(stacks, -90000, 90000)),
        stack_of: (0..STAGE_COUNT).map(|st| st / 31).collect(),
        bucket_of: (0..STAGE_COUNT).map(|st| st / 21).collect(),
        per_disc: 4096,
    };
    StackQ::build(few_patterns(), n, buckets)
}

/// The output of a position, computed directly.
fn scalar_output(q: &StackQ, b: &Board) -> i64 {
    let n = &q.numbers;
    let stage = Evaluator::stage(b);
    let (st, bucket) = (n.stack_of[stage], n.bucket_of[stage]);
    let rows = q.features.rows;
    let mut acc: Vec<i64> = n.ft_bias.iter().map(|x| *x as i64).collect();
    let mut pacc: Vec<i64> =
        n.pa_bias[bucket * PA_DIMS..][..PA_DIMS].iter().map(|x| *x as i64).collect();
    let mut start = 0;
    for p in few_patterns() {
        for i in p.indices(b.black, b.white, b.player()) {
            for (h, a) in acc.iter_mut().enumerate() {
                *a += n.ft[(start + i) * ACC_DIMS + h] as i64;
            }
            for (h, a) in pacc.iter_mut().enumerate() {
                *a += n.pa[(bucket * rows + start + i) * PA_DIMS + h] as i64;
            }
        }
        start += p.table_size();
    }
    let pair = |lo: i64, hi: i64| ((32 * lo.clamp(0, 510) * hi.min(510)) >> 15).clamp(0, 255);
    let mut x: Vec<i64> = (0..HALF_DIMS).map(|k| pair(acc[k], acc[k + HALF_DIMS])).collect();
    x.extend(pacc.iter().map(|v| pair(*v, *v)));
    assert_eq!(x.len(), SO_SKIP);
    x.push((7 * mob_index(b) as i64).min(255));
    let square = |s: i64| ((s * s) >> 20).min(255);
    let first: Vec<i64> = (0..SO_L1)
        .map(|o| {
            let w = &n.l1_w[(st * SO_L1 + o) * SO_L1_IN..];
            let sum: i64 = x.iter().zip(w).map(|(a, w)| a * *w as i64).sum();
            (sum + n.l1_b[st * SO_L1 + o] as i64).clamp(-32768, 32767)
        })
        .collect();
    let mut a: Vec<i64> = first.iter().map(|s| square(*s)).collect();
    a.extend(first.iter().map(|s| (s >> 6).clamp(0, 255)));
    let mut last: Vec<i64> = (0..SO_L2)
        .map(|o| {
            let w = &n.l2_w[(st * SO_L2 + o) * L2_IN..];
            let sum: i64 = a.iter().zip(w).map(|(a, w)| a * *w as i64).sum();
            square((sum + n.l2_b[st * SO_L2 + o] as i64).clamp(0, 16320))
        })
        .collect();
    last.extend_from_slice(&x[..SO_SKIP]);
    let w = &n.out_w[st * OUT_IN..];
    n.out_b[st] as i64 + last.iter().zip(w).map(|(a, w)| a * *w as i64).sum::<i64>()
}

/// Plays a game and hands every position to `f`, alternating colours.
fn walk_game(mut f: impl FnMut(&Board, usize)) {
    let mut board = Board::new();
    for ply in 0..60 {
        f(&board, ply);
        let moves = board.movable();
        if moves == 0 {
            board.pass();
            if board.movable() == 0 {
                break;
            }
            continue;
        }
        let pos = Position::from_index(moves.trailing_zeros()).unwrap();
        board.make_move_bits(pos);
    }
}

/// The packed kernel against the direct computation, exactly, for both colours
/// along a game.
#[test]
fn vector_kernel_matches_scalar() {
    let q = stack();
    walk_game(|board, ply| {
        let ix = q.features.indices(board.black, board.white);
        let v = q.eval(&ix, board);
        let s = scalar_output(&q, board);
        assert!(v == s, "packed {v} vs scalar {s} at ply {ply}");
        assert_eq!(q.eval_indices(board, &ix), (s * 100).div_euclid(4096) as i32);
    });
    assert_eq!(packed_index(3, 6, 16), (16 + 3) * 4 + 2);
}

#[test]
fn scaled_readings_are_hundredths() {
    let per = 1i64 << 24;
    let mut nn = ScaledNnue {
        net: network(),
        out_b: vec![5 * per; STAGE_COUNT],
        num_w: vec![2 * per; STAGE_COUNT * NUM_TABLE_SIZE],
        mob_w: vec![-per; STAGE_COUNT * MOB_BUCKETS],
        out_step: 3,
        prod_step: -7,
        head: None,
    };
    let b = Board::new();
    let ix = nn.indexer().init(b.black, b.white);
    let r = nn.net.eval_from_indices(&ix, &b);
    let steps = 6 * per + 3 * r.readout - 7 * r.product;
    assert_eq!(nn.eval_indices(&b, &ix) as i64, steps.div_euclid(per));
    // A lane of one, read out with a weight of three, is three discs; lanes
    // below zero are cut off.
    let mut head = Head {
        b1: vec![-(1 << 32); MLP_H1],
        step: 0,
        w2: vec![1 << 16; MLP_H2 * MLP_H1],
        b2: vec![0; MLP_H2],
        out: vec![0; STAGE_COUNT * MLP_H2],
    };
    assert!(head.is_sound());
    head.b1[5] = i64::MAX;
    assert!(!head.is_sound());
    head.b1[5] = 1 << 32;
    head.out[Evaluator::stage(&b) * MLP_H2 + 2] = 3 << 16;
    nn.head = Some(head);
    assert_eq!(nn.eval_indices(&b, &ix) as i64, (steps + 300 * per).div_euclid(per));
    assert!(nn.is_sound());
    let kept = nn.out_b.pop().unwrap();
    assert!(!nn.is_sound());
    nn.out_b.push(kept);
    // The sums of the first layer count with their step.
    let k = (0..MLP_H1).max_by_key(|i| r.head[*i]).unwrap();
    let mut head = Head {
        b1: vec![0; MLP_H1],
        step: 1 << 20,
        w2: vec![0; MLP_H2 * MLP_H1],
        b2: vec![0; MLP_H2],
        out: vec![1 << 16; STAGE_COUNT * MLP_H2],
    };
    head.w2[3 * MLP_H1 + k] = 1 << 16;
    nn.head = Some(head);
    let lane = (r.head[k] as i64).max(0);
    assert_eq!(
        nn.eval_indices(&b, &ix) as i64,
        (steps + lane * 100 * 4096).div_euclid(per)
    );
}

/// Mobilities beyond the cap give the same.
#[test]
fn mobility_is_capped() {
    let q = stack();
    let acc: Vec<i16> = (0..ACC_DIMS).map(|i| (i * 13 % 600) as i16 - 40).collect();
    let pacc: Vec<i16> = (0..PA_DIMS).map(|i| (i * 29 % 500) as i16 - 20).collect();
    let at = |mob: usize| q.eval_scalar(&acc, &pacc, 1, mob);
    assert_eq!(at(37), at(64));
    assert_eq!(at(37), at(usize::MAX));
}

#[test]
fn features_swap_for_white() {
    let f = Features::new(few_patterns());
    let mut b = Board::new();
    b.make_move(Position::from_kifu("f5").unwrap()).unwrap();
    let ix = f.indices(b.black, b.white);
    let mut meant = Vec::new();
    let mut start = 0;
    for p in few_patterns() {
        meant.extend(p.indices(b.black, b.white, Color::White).iter().map(|i| start + i));
        start += p.table_size();
    }
    assert_eq!(f.features_player(&ix, Color::White, 0), meant);
    assert_eq!(f.features_black(&ix, 7)[0], f.features_player(&ix, Color::Black, 0)[0] + 7);
    assert_eq!(f.feature_rows_black(b.black, b.white, 1), f.features_black(&ix, 0));
    assert_eq!((num_index(&b), mob_index(&b)), (1, 3));
}

#[test]
fn rows_move_between_accumulators() {
    let table: Vec<i16> = (0..96).map(|i| i * 7 - 200).collect();
    let mut acc: Vec<i16> = vec![32767; 32];
    acc_row_addsub(&mut acc, &table, 32, 0);
    assert_eq!(acc[0], (32767i32 + 224 - 65536) as i16);
}

/// Cells that show one another's turned patterns lie in one orbit.
#[test]
fn orbits_join_turned_cells() {
    for p in few_patterns() {
        let perms = symmetry_index_perms(&p);
        let parts = orbits(p.size, &perms);
        let total: usize = parts.iter().map(|o| o.len()).sum();
        assert_eq!(total, p.table_size());
        let mut of = vec![0usize; total];
        for (k, o) in parts.iter().enumerate() {
            for &c in o {
                of[c] = k;
            }
        }
        for perm in &perms {
            for c in 0..total {
                assert_eq!(of[c], of[apply_index_perm(c, p.size, perm)]);
            }
        }
    }
}

fn model() -> Nnue {
    let mut m = Nnue::new(few_patterns());
    let mut k = 1u32;
    for t in m.tables.iter_mut() {
        for w in t.iter_mut() {
            k = k.wrapping_mul(1664525).wrapping_add(1013904223);
            *w = k;
        }
    }
    m
}

#[test]
fn models_round_trip() {
    let m = model();
    let file = m.save();
    let mut back = Nnue::new(few_patterns());
    assert_eq!(back.load(&file), Ok(()));
    assert_eq!(back.tables, m.tables);
    let mut flat = Nnue::new(few_patterns());
    flat.set_weights_flat(&m.weights_flat());
    assert_eq!(flat.weights_flat(), m.weights_flat());
    assert!(m.has_pw() && m.has_head() && !m.head_is_dead());
    let empty = Nnue::new(few_patterns());
    assert!(!empty.has_pw() && !empty.has_head() && empty.head_is_dead());
    assert_eq!(m.ft_len(), m.tables[FT].len());
    assert_eq!(m.num_w_len(), m.tables[NUM_W].len());
}

#[test]
fn bad_models_are_told_apart() {
    let file = model().save();
    let mut m = Nnue::new(few_patterns());
    assert_eq!(m.load(&file[..9]), Err(NnueError::Truncated));
    let mut bad = file.clone();
    bad[3] = b'?';
    assert_eq!(m.load(&bad), Err(NnueError::BadMagic));
    bad = file.clone();
    bad[8] = 31;
    assert_eq!(m.load(&bad), Err(NnueError::Width));
    bad = file.clone();
    bad[12] ^= 1;
    assert_eq!(m.load(&bad), Err(NnueError::Features));
    assert_eq!(m.load(&file[..file.len() - 1]), Err(NnueError::Truncated));
}

#[test]
fn tables_are_set_one_by_one() {
    let mut m = model();
    let zeros = |n: usize| vec![0u32; n];
    m.set_pw(&zeros(m.tables[PW].len()));
    assert!(!m.has_pw());
    m.set_num_w(&zeros(m.tables[NUM_W].len()));
    m.set_mob_w(&zeros(m.tables[MOB_W].len()));
    assert!(m.tables[NUM_W].iter().chain(&m.tables[MOB_W]).all(|w| *w == 0));
    assert!(m.tables[MLP_L1_W].iter().any(|w| *w != 0));
}

#[test]
fn stamps_tell_first_touches() {
    let mut s = RowStamps::new(5);
    s.next_batch();
    assert!(s.touch(3) && !s.touch(3) && s.touch(0));
    s.next_batch();
    assert!(s.touch(3));
    s.next_batch();
    let (first, rows) = s.coalesce(&vec![4, 1, 4, 2, 1]);
    assert_eq!(first, vec![true, true, false, true, false]);
    assert_eq!(rows, vec![4, 1, 2]);
    assert_eq!(row_part(10, 4), 2);
}

#[test]
fn keys_line_up_in_their_order() {
    let l = line_up(&vec![2, 0, 2, 1, 0], 4);
    assert_eq!(l.starts, vec![0, 2, 3, 5, 5]);
    assert_eq!(l.order, vec![1, 4, 3, 0, 2]);
}

#[test]
fn boards_turn_and_mirror() {
    let b = 1u64; // a1
    assert_eq!(sym_board(b, 0), b);
    let mut t = b;
    for i in 1..4 {
        t = sym_board(t, 1);
        assert_eq!(sym_board(b, i), t);
    }
    assert_eq!(sym_board(t, 1), b, "four quarter turns");
    assert_eq!(sym_board(sym_board(b, 4), 4), b, "mirrored twice");
    let mut seen: Vec<u64> = (0..8).map(|i| sym_board(1 << 1, i)).collect();
    seen.sort();
    seen.dedup();
    assert_eq!(seen.len(), 8);
    assert_eq!(sym_board(1 << 1, 8), sym_board(1 << 1, 4));
}

#[test]
fn forms_are_drawn_from_a_state() {
    let mut s: u64 = 0x1234_5678_9abc_def0;
    let mut seen = [false; 8];
    for _ in 0..100 {
        let mut t = s;
        t ^= t << 13;
        t ^= t >> 7;
        t ^= t << 17;
        let (next, form) = draw_form(s);
        assert_eq!((next, form), (t, (t >> 40) as u8 & 7));
        seen[form as usize] = true;
        s = next;
    }
    assert!(seen.iter().all(|x| *x));
}
