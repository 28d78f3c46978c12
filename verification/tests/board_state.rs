use scrabby::board::{
    convert_from_index, convert_to_index, Board, Direction, Move, ARRAY_SIZE, BOARD_SIZE,
};
use scrabby::letter::Letter;

#[test]
fn new_board_is_empty() {
    let board = Board::new();
    for index in 0..ARRAY_SIZE {
        assert!(board.get_index(index).is_none());
    }
    assert!(board.move_history().is_empty());
}

#[test]
fn index_conversions_are_inverse_on_the_board() {
    assert_eq!(convert_to_index(10, 10), 10 * BOARD_SIZE + 10);
    let (column, row) = convert_from_index(10 * BOARD_SIZE + 10);
    assert_eq!((column, row), (10, 10));
    // The pair comes back as (column, row).
    let (column, row) = convert_from_index(1 * BOARD_SIZE + 2);
    assert_eq!((column, row), (2, 1));
}

#[test]
fn set_and_get_round_trip() {
    let mut board = Board::new();
    board.set(3, 4, Some(Letter::from_char('Q')));
    assert_eq!(board.get(3, 4), Some(Letter::from_char('Q')));
    assert_eq!(board.get_index(convert_to_index(3, 4)), Some(Letter::from_char('Q')));
    board.set(3, 4, None);
    assert_eq!(board.get(3, 4), None);
}

#[test]
fn set_index_writes_the_linear_cell() {
    let mut board = Board::new();
    let index = convert_to_index(7, 9);
    board.set_index(index, Some(Letter::from_char('M')));
    assert_eq!(board.get(7, 9), Some(Letter::from_char('M')));
    board.set_index(index, None);
    assert_eq!(board.get_index(index), None);
}

#[test]
fn get_index_off_the_board_reads_empty() {
    let board = Board::new();
    assert_eq!(board.get_index(ARRAY_SIZE), None);
    assert_eq!(board.get_index(usize::MAX), None);
}

#[test]
fn make_move_writes_cells_and_records_final_cursor() {
    let mut board = Board::new();
    board.make_move(10, 10, "CAT", Direction::Right);
    assert_eq!(board.get(10, 10), Some(Letter::from_char('C')));
    assert_eq!(board.get(10, 11), Some(Letter::from_char('A')));
    assert_eq!(board.get(10, 12), Some(Letter::from_char('T')));
    let history = board.move_history();
    assert_eq!(history.len(), 1);
    // The recorded location is the cursor one step past the last cell.
    assert_eq!(history[0].location, convert_to_index(10, 13));
    assert!(matches!(history[0].direction, Direction::Right));
    assert_eq!(history[0].word, "CAT");
}

#[test]
fn make_move_down_overwrites_existing_letters() {
    let mut board = Board::new();
    board.set(5, 7, Some(Letter::from_char('Z')));
    board.make_move(5, 7, "AB", Direction::Down);
    assert_eq!(board.get(5, 7), Some(Letter::from_char('A')));
    assert_eq!(board.get(6, 7), Some(Letter::from_char('B')));
    assert_eq!(board.move_history()[0].location, convert_to_index(7, 7));
}

#[test]
fn iter_letters_and_enumerate_letters_walk_occupied_cells_in_order() {
    let mut board = Board::new();
    board.set(0, 5, Some(Letter::from_char('B')));
    board.set(10, 10, Some(Letter::from_char('C')));
    let letters = board.iter_letters();
    assert_eq!(letters, vec![Letter::from_char('B'), Letter::from_char('C')]);
    let entries = board.enumerate_letters();
    assert_eq!(
        entries,
        vec![(5, Letter::from_char('B')), (220, Letter::from_char('C'))]
    );
}

#[test]
fn state_round_trip_rebuilds_an_identical_board() {
    let mut board = Board::new();
    board.make_move(10, 10, "CAT", Direction::Right);
    board.make_move(2, 0, "GO", Direction::Down);
    board.set(20, 20, Some(Letter::from_char('X')));

    let cells = board.cells().clone();
    let moves: Vec<Move> = board
        .move_history()
        .iter()
        .map(|m| Move::new(m.location, m.direction, &m.word))
        .collect();
    let rebuilt = Board::from_parts(cells, moves);

    for index in 0..ARRAY_SIZE {
        assert_eq!(rebuilt.get_index(index), board.get_index(index));
    }
    let old_history = board.move_history();
    let new_history = rebuilt.move_history();
    assert_eq!(new_history.len(), old_history.len());
    for (old_move, new_move) in old_history.iter().zip(new_history.iter()) {
        assert_eq!(new_move.location, old_move.location);
        assert_eq!(new_move.direction, old_move.direction);
        assert_eq!(new_move.word, old_move.word);
    }
}
