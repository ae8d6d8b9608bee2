use kuroobi::{Board, Position, Reversi};

/// The first steps of a user of the library.
#[test]
fn first_steps() {
    let mut board = Board::new();
    assert_eq!(board.piece_count(), (2, 2));
    assert_eq!(board.movable_count(), 4);

    // Black places one disc and turns one of White's.
    let movable = board.movable();
    let first = movable.trailing_zeros();
    let pos = Position::from_index(first).unwrap();
    board.make_move(pos).unwrap();
    assert_eq!(board.piece_count(), (4, 1));

    // A game with its history.
    let mut game = Reversi::new();
    game.make_move(pos).unwrap();
    assert_eq!(game.to_kifu().len(), 2);
}
