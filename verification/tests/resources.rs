use kuroobi::resources::{
    endgame_bytes, midgame_bytes, nnue_header, Resources, Seen, HASH_BITS_MAX, HASH_BITS_MIN,
};

/// Uncalibrated thread counts get a conservative estimate: synchro
/// games run 1 worker x 4 threads, which never matches the 5/8 that
/// tend to be calibrated, and giving up here would fall back to the
/// unchecked fixed ladder.
#[test]
fn borrows_a_conservative_nps_for_uncalibrated_threads() {
    let mut r = Resources::new();
    r.nps = vec![(5, 72_000_000), (8, 96_000_000)];
    assert_eq!(r.nps_for(8), Some(96_000_000), "calibrated value wins");
    let four = r.nps_for(4).expect("no substitute produced");
    // 48M scaled from 8T is lower than 57.6M scaled from 5T; take it.
    assert!(
        four == 48_000_000,
        "did not take the lower estimate: {four}"
    );
    assert!(four < 72_000_000, "estimate exceeds a measured value");
    // With no calibration at all, give up (fixed ladder).
    assert_eq!(Resources::new().nps_for(4), None);
}

#[test]
fn falls_back_to_the_directory() {
    let mut r = Resources::new();
    r.dir = Some("/tmp/w".to_string());
    assert_eq!(r.nnue_path("weights"), "/tmp/w/nnue-h16.bin");
    assert_eq!(r.book_path("weights"), "/tmp/w/book.txt");
}

#[test]
fn individual_paths_win() {
    let mut r = Resources::new();
    r.dir = Some("/tmp/w".to_string());
    r.book = Some("/other/opening.txt".to_string());
    assert_eq!(r.book_path("weights"), "/other/opening.txt");
    // Unspecified entries resolve from the base directory.
    assert_eq!(r.weights_path("weights"), "/tmp/w/linear.bin");
}

#[test]
fn round_trips_through_a_file() {
    let mut r = Resources::new();
    r.dir = Some("/tmp/w".to_string());
    r.book = Some("/tmp/b.txt".to_string());
    let back = Resources::read(&r.write());
    assert_eq!(back.dir, r.dir);
    assert_eq!(back.book, r.book);
}

#[test]
fn missing_file_gives_defaults() {
    let r = Resources::read("");
    assert!(r.dir.is_none() && r.book.is_none());
}

#[test]
fn every_setting_round_trips() {
    let mut r = Resources::new();
    r.dir = Some("/tmp/w".to_string());
    r.weights = Some("/a/linear.bin".to_string());
    r.nnue = Some("/a/net.bin".to_string());
    r.threads = Some(6);
    r.set_nps(8, 96_000_000);
    r.set_nps(5, 1);
    r.set_nps(5, 72_000_000);
    r.hash_mid = Some(20);
    r.hash_end = Some(24);
    let back = Resources::read(&r.write());
    assert_eq!(back.weights, r.weights);
    assert_eq!(back.nnue, r.nnue);
    assert_eq!(back.book, None);
    assert_eq!(back.threads, Some(6));
    assert_eq!(back.nps, vec![(5, 72_000_000), (8, 96_000_000)]);
    assert_eq!((back.hash_mid_bits(), back.hash_end_bits()), (20, 24));
}

#[test]
fn table_sizes_out_of_bounds_fall_back() {
    let mut r = Resources::new();
    r.hash_mid = Some(99);
    r.hash_end = Some(1);
    assert_eq!(r.hash_mid_bits(), 22);
    assert_eq!(r.hash_end_bits(), 24);
    r.hash_mid = Some(HASH_BITS_MAX);
    r.hash_end = Some(HASH_BITS_MIN);
    assert_eq!((r.hash_mid_bits(), r.hash_end_bits()), (26, 16));
    assert_eq!(midgame_bytes(17), 2 * midgame_bytes(16));
    assert_eq!(endgame_bytes(17), 2 * endgame_bytes(16));
    assert_eq!(Resources::new().dir("weights"), "weights");
}

#[test]
fn headers_show_format_and_width() {
    let mut head = b"BBRVNN06".to_vec();
    head.extend_from_slice(&32u32.to_le_bytes());
    assert_eq!(nnue_header(&head).unwrap(), "BBRVNN06 / H32");
    assert_eq!(nnue_header(&head[..11]), None);
    head[0] = b'X';
    assert_eq!(nnue_header(&head), None);
    // Two bytes that show one character.
    let mut wide = b"BBRVNN\xc3\xa9".to_vec();
    wide.extend_from_slice(&7u32.to_le_bytes());
    assert_eq!(nnue_header(&wide).unwrap(), "BBRVNN\u{e9} / H7");
    wide[7] = 0x20;
    assert_eq!(nnue_header(&wide), None);
}

#[test]
fn files_are_listed_with_what_was_found() {
    let seen = |found, size, head: &[u8]| Seen { found, size, head: head.to_vec() };
    let mut r = Resources::new();
    r.dir = Some("/tmp/w/".to_string());
    let mut head = b"BBRVNN05".to_vec();
    head.extend_from_slice(&16u32.to_le_bytes());
    let v = r.detailed("weights", &seen(true, 9, &head), &seen(true, 77, &head), &seen(false, 0, &[]));
    assert_eq!(v[0].name, "weights");
    assert_eq!((v[0].path.as_str(), v[0].size, v[0].kind.as_str()), ("/tmp/w/linear.bin", 9, ""));
    assert_eq!((v[1].name, v[1].kind.as_str()), ("nnue", "BBRVNN05 / H16"));
    assert_eq!((v[2].name, v[2].found), ("book", false));
    let v = r.detailed("weights", &seen(true, 9, &[]), &seen(false, 0, &head), &seen(true, 1, &[]));
    assert_eq!(v[1].kind, "");
}

/// Rates are read with fractions and powers of ten, and held whole.
#[test]
fn rates_are_read_as_decimals() {
    let r = Resources::read(
        "nps.4=7.25e7\nnps.5=72000000.9\nnps.6=-3\nnps.7=1e400\nnps.8=.5\nnps.9=12E+2\n\
         nps.10=x\nnps.11=5e\nnps.12=.\nnps.13=1.5.2\nnps.14=+0.00123e5\nnps.15=77e-1\n",
    );
    let meant = vec![
        (4, 72_500_000),
        (5, 72_000_000),
        (6, 0),
        (7, u64::MAX),
        (8, 0),
        (9, 1200),
        (14, 123),
        (15, 7),
    ];
    assert_eq!(r.nps, meant);
    assert_eq!(r.nps_for(4), Some(72_500_000));
}
