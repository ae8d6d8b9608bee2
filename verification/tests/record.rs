use kuroobi::record::{
    read_block, records_in, Filter, Record, Teacher, NO_GAME_SCORE, NO_SQUARE,
};

fn sample() -> Record {
    Record {
        mover: 0x0000_0008_1000_0000,
        opponent: 0x0000_0010_0800_0000,
        score: (-3.5f32).to_bits(),
        game_score: -6,
        ply: 12,
        random: true,
        sq: 19, // c4 in this crate's file-major index
        black_to_move: false,
        game_id: 0xBEEF,
    }
}

/// The value a trainer fits, in discs.
fn teacher(r: &Record) -> f32 {
    match r.teacher() {
        Teacher::Even => 0.0,
        Teacher::Search(bits) => f32::from_bits(bits),
        Teacher::Result(n) => n as f32,
    }
}

fn keeps(f: &Filter, r: &Record) -> bool {
    let apart = match f.max_score_diff {
        Some(bits) => {
            (f32::from_bits(r.score) - r.game_score as f32).abs() > f32::from_bits(bits)
        }
        None => false,
    };
    f.keeps(r, apart)
}

#[test]
fn round_trips_through_bytes() {
    let r = sample();
    assert_eq!(Record::from_bytes(&r.to_bytes()), r);
    let mut r = sample();
    r.sq = NO_SQUARE;
    r.game_score = NO_GAME_SCORE;
    assert_eq!(Record::from_bytes(&r.to_bytes()), r);
}

#[test]
fn disk_layout_is_fixed() {
    let b = sample().to_bytes();
    // Boards are stored rank-major: file-major bit 27 (d4) is rank-major bit 27
    // too, but c4 (file 2, rank 3) is 2*8+3 = 19 here and 3*8+2 = 26 there.
    assert_eq!(b[23], 26);
    assert_eq!(b[24], 1);
    assert_eq!(b[22], 1);
    assert_eq!(b[21], 12);
    assert_eq!(b[20] as i8, -6);
    assert_eq!(f32::from_le_bytes(b[16..20].try_into().unwrap()), -3.5);
    assert_eq!(u16::from_le_bytes([b[25], b[26]]), 0xBEEF);
}

#[test]
fn teacher_follows_the_teacher_rule() {
    let mut r = sample();
    r.random = false;
    assert_eq!(teacher(&r), -6.0);
    r.random = true;
    assert_eq!(teacher(&r), -3.5);
    r.random = false;
    r.game_score = NO_GAME_SCORE;
    assert_eq!(teacher(&r), -3.5);
    r.ply = 1;
    assert_eq!(teacher(&r), 0.0);
}

#[test]
fn training_filter_keeps_what_it_should() {
    let f = Filter::training();
    let mut r = sample();
    r.random = false;
    r.score = (-3.5f32).to_bits();
    r.game_score = -6;
    assert!(keeps(&f, &r));
    r.game_score = -20;
    assert!(!keeps(&f, &r));
    r.game_score = NO_GAME_SCORE;
    assert!(keeps(&f, &r));
    r.random = true;
    assert!(!keeps(&f, &r));
    r.ply = 50;
    assert!(keeps(&f, &r));
    r.ply = 7;
    assert!(!keeps(&f, &r));
    assert!(keeps(&Filter::none(), &r));
}

#[test]
fn file_round_trip_ignores_a_cut_record() {
    let mut file: Vec<u8> = Vec::new();
    file.extend_from_slice(&sample().to_bytes());
    file.extend_from_slice(&Record { ply: 0, ..sample() }.to_bytes());
    file.extend_from_slice(&[1, 2, 3]);
    assert_eq!(records_in(file.len() as u64), 2);
    let (v, left) = read_block(&file);
    assert_eq!(v.len(), 2);
    assert_eq!(v[0], sample());
    assert_eq!(v[1].ply, 0);
    assert_eq!(left, 3);
}

#[test]
fn squares_are_turned_both_ways() {
    let mut r = sample();
    r.mover = 1 << 19;
    let b = r.to_bytes();
    assert_eq!(u64::from_le_bytes(b[0..8].try_into().unwrap()), 1 << 26);
    assert_eq!(Record::from_bytes(&b).mover, 1 << 19);
    assert_eq!(sample().empties(), 60);
}

#[test]
fn flags_set_the_filter() {
    let mut f = Filter::training();
    assert!(Filter::takes_value("--min-ply"));
    assert!(f.take_flag("--min-ply", Some("3"), None).is_ok());
    assert_eq!(f.min_ply, 3);
    assert!(f.take_flag("--min-ply", None, None).is_err());
    let before = f;
    assert!(f.take_flag("--unknown", None, None).is_ok_and(|taken| !taken));
    assert_eq!(f, before);
}
