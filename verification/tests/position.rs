use kuroobi::position::kifu_pair;
use kuroobi::Position;

#[test]
fn test_from_index() {
    assert_eq!(Position::from_index(0), Some(Position(0))); // A1
    assert_eq!(Position::from_index(63), Some(Position(63))); // H8
    assert_eq!(Position::from_index(64), None);
}

#[test]
fn test_from_file_rank() {
    assert_eq!(Position::from_file_rank(0, 0), Some(Position(0))); // A1
    assert_eq!(Position::from_file_rank(5, 4), Some(Position(44))); // F5 (file*8+rank = 5*8+4)
    assert_eq!(Position::from_file_rank(6, 4), Some(Position(52))); // G5 (6*8+4)
    assert_eq!(Position::from_file_rank(7, 7), Some(Position(63))); // H8
    assert_eq!(Position::from_file_rank(8, 0), None);
}

#[test]
fn test_file_rank() {
    let p = Position(44); // F5
    assert_eq!(p.file(), 5); // F
    assert_eq!(p.rank(), 4); // 5 (0-indexed)
}

#[test]
fn test_to_kifu() {
    assert_eq!(Position(0).to_kifu(), "a1");
    assert_eq!(Position(44).to_kifu(), "f5");
    assert_eq!(Position(52).to_kifu(), "g5");
    assert_eq!(Position(63).to_kifu(), "h8");
}

#[test]
fn test_from_kifu() {
    assert_eq!(Position::from_kifu("a1"), Ok(Position(0)));
    assert_eq!(Position::from_kifu("f5"), Ok(Position(44)));
    assert_eq!(Position::from_kifu("g5"), Ok(Position(52)));
    assert_eq!(Position::from_kifu("h8"), Ok(Position(63)));
    assert!(Position::from_kifu("z9").is_err());
    assert!(Position::from_kifu("a").is_err());
}

#[test]
fn test_to_bit() {
    assert_eq!(Position(0).to_bit(), 1u64);
    assert_eq!(Position(44).to_bit(), 1u64 << 44);
    assert_eq!(Position(63).to_bit(), 1u64 << 63);
}

#[test]
fn test_kifu_pair() {
    assert_eq!(kifu_pair("f5g5"), Ok((Position(44), Position(52))));
    assert!(kifu_pair("fg").is_err());
}

#[test]
fn test_display() {
    assert_eq!(Position(44).to_kifu(), "f5");
}
