use kuroobi::book::{Book, Candidate, Entry};
use kuroobi::{Board, Position};

fn pos(s: &str) -> Position {
    Position::from_kifu(s).unwrap()
}

fn book_with(b: &Board, moves: &[(&str, i32)]) -> Book {
    let (key, i) = Book::key(b);
    let mut book = Book::new();
    book.insert_raw(
        key,
        Entry {
            moves: moves
                .iter()
                .map(|(m, v)| Candidate { mv: Book::map_move(pos(m), i), value: *v, games: 1 })
                .collect(),
            depth: 21,
            games: 4,
        },
    );
    book
}

/// A position and its rotations and mirrors share an entry.
#[test]
fn symmetric_positions_share_an_entry() {
    let mut b = Board::new();
    b.make_move(pos("f5")).unwrap();
    b.make_move(pos("d6")).unwrap();
    let keys: Vec<u128> = b.symmetries().iter().map(|s| Book::key(s).0).collect();
    assert!(keys.iter().all(|k| *k == keys[0]));
    let book = book_with(&b, &[("c3", 10)]);
    for s in b.symmetries().iter() {
        let (p, v, d) = book.probe(s).unwrap();
        assert_eq!((v, d), (10, 21));
        assert!(s.check(p), "the move is shown as this board has it");
    }
}

/// Moves map there and back.
#[test]
fn moves_map_back() {
    for i in 0..8u8 {
        for s in 0..64u32 {
            let p = Position::from_index(s).unwrap();
            assert_eq!(Book::unmap_move(Book::map_move(p, i), i), p);
        }
    }
}

#[test]
fn probes_give_the_best_or_a_close_one() {
    let b = Board::new();
    let book = book_with(&b, &[("f5", 100), ("d3", 80), ("c4", -50)]);
    assert_eq!(book.probe(&b).unwrap().1, 100);
    assert_eq!(book.probe_varied(&b, 10, 7).unwrap().1, 100);
    assert_eq!(book.probe_varied(&b, 20, 0).unwrap().1, 100);
    assert_eq!(book.probe_varied(&b, 20, 1).unwrap().1, 80);
    assert_eq!(book.probe_varied(&b, 20, 2).unwrap().1, 100);
    let mut other = Board::new();
    other.make_move(pos("f5")).unwrap();
    assert!(book.probe(&other).is_none());
    assert!(book.probe_varied(&other, 20, 2).is_none());
    assert!(book.has(&b) && !book.has(&other));
    assert_eq!(book.candidates(&b).unwrap().len(), 3);
    assert_eq!(book.candidates_detailed(&b).unwrap()[1].value, 80);
    assert!(book.candidates(&other).is_none());
}

#[test]
fn entries_are_kept_by_key() {
    let mut book = Book::new();
    assert!(book.is_empty());
    for k in [9u128, 3, 7, 3] {
        book.insert_raw(k, Entry { moves: vec![], depth: k as u8, games: 0 });
    }
    assert_eq!(book.len(), 3);
    assert_eq!(book.get_raw(7).unwrap().depth, 7);
    assert!(book.get_raw(8).is_none());
    assert_eq!(book.remove_raw(3).unwrap().depth, 3);
    assert!(book.remove_raw(3).is_none());
    assert_eq!(book.len(), 2);
}

#[test]
fn entries_update_their_moves() {
    let mut e = Entry { moves: vec![], depth: 1, games: 0 };
    assert!(e.best().is_none());
    e.update_move(pos("f5"), 5);
    e.update_move(pos("d3"), 9);
    e.update_move(pos("f5"), 12);
    assert_eq!(e.moves.len(), 2);
    assert_eq!(e.best().unwrap().mv, pos("f5"));
    e.remove_move(pos("f5"));
    assert_eq!(e.value(pos("f5")), None);
    assert_eq!(e.value(pos("d3")), Some(9));
}
