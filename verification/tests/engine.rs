use scrabby::board::{convert_to_index, Board, Direction, BOARD_SIZE};
use scrabby::computer::{best_moves, get_word_score, verify_move};
use scrabby::letter::Letter;

fn center_index() -> usize {
    convert_to_index(10, 10)
}

#[test]
fn letter_values_follow_the_tile_table() {
    assert_eq!(Letter::from_char('A').score(), 1);
    assert_eq!(Letter::from_char('D').score(), 2);
    assert_eq!(Letter::from_char('C').score(), 3);
    assert_eq!(Letter::from_char('H').score(), 4);
    assert_eq!(Letter::from_char('K').score(), 5);
    assert_eq!(Letter::from_char('J').score(), 8);
    assert_eq!(Letter::from_char('Q').score(), 10);
    // Anything that is not an upper-case letter becomes a blank worth 0.
    assert_eq!(Letter::from_char(' ').score(), 0);
    assert_eq!(Letter::from_char('q').score(), 0);
}

#[test]
fn score_is_the_letter_sum_under_the_uniform_tables() {
    // C + A + T = 3 + 1 + 1.
    assert_eq!(get_word_score("CAT", center_index(), Direction::Right), 5);
    assert_eq!(get_word_score("CAT", center_index(), Direction::Down), 5);
    // Q + I = 10 + 1.
    assert_eq!(get_word_score("QI", 0, Direction::Right), 11);
}

#[test]
fn score_is_deterministic_for_an_identical_placement() {
    let first = get_word_score("JAZZ", 42, Direction::Down);
    let second = get_word_score("JAZZ", 42, Direction::Down);
    assert_eq!(first, second);
    assert_eq!(first, 8 + 1 + 10 + 10);
}

#[test]
fn verifier_finds_both_directions_through_an_anchor() {
    let mut board = Board::new();
    board.set(10, 10, Some(Letter::from_char('C')));
    let placements = verify_move(&board, center_index(), "CAT");
    assert_eq!(placements.len(), 2);
    assert!(placements
        .iter()
        .any(|m| m.location == center_index() && matches!(m.direction, Direction::Right)));
    assert!(placements
        .iter()
        .any(|m| m.location == center_index() && matches!(m.direction, Direction::Down)));
    for placement in &placements {
        assert_eq!(placement.word, "CAT");
    }
}

#[test]
fn verifier_rejects_conflicting_letters_but_keeps_the_other_direction() {
    let mut board = Board::new();
    board.set(10, 10, Some(Letter::from_char('C')));
    board.set(10, 11, Some(Letter::from_char('X')));
    let placements = verify_move(&board, center_index(), "CAT");
    // Rightward CAT would need an A where the X sits; downward is fine.
    assert_eq!(placements.len(), 1);
    assert!(matches!(placements[0].direction, Direction::Down));
    assert_eq!(placements[0].location, center_index());
}

#[test]
fn verifier_accepts_a_word_overlaying_matching_letters() {
    let mut board = Board::new();
    board.set(10, 10, Some(Letter::from_char('C')));
    board.set(10, 11, Some(Letter::from_char('A')));
    board.set(10, 12, Some(Letter::from_char('T')));
    let placements = verify_move(&board, center_index(), "CAT");
    // Exactly overlaying existing letters stays legal, in both directions.
    assert_eq!(placements.len(), 2);
}

#[test]
fn verifier_rejects_words_running_off_the_edge() {
    let mut board = Board::new();
    // Anchor in the last column: rightward CAT would wrap to the next row.
    board.set(10, 20, Some(Letter::from_char('C')));
    let anchor = convert_to_index(10, 20);
    let placements = verify_move(&board, anchor, "CAT");
    assert_eq!(placements.len(), 1);
    assert!(matches!(placements[0].direction, Direction::Down));

    // Anchor in the last row: downward CAT would run off the board.
    let mut board = Board::new();
    board.set(20, 10, Some(Letter::from_char('C')));
    let anchor = convert_to_index(20, 10);
    let placements = verify_move(&board, anchor, "CAT");
    assert_eq!(placements.len(), 1);
    assert!(matches!(placements[0].direction, Direction::Right));
}

#[test]
fn verifier_rejects_starts_before_the_first_cell() {
    let mut board = Board::new();
    board.set(0, 0, Some(Letter::from_char('C')));
    // TAC would have to start two cells before the board's origin.
    assert!(verify_move(&board, 0, "TAC").is_empty());
    // CAT anchors its first letter on the origin and fits both ways.
    assert_eq!(verify_move(&board, 0, "CAT").len(), 2);
}

#[test]
fn verifier_tries_every_matching_anchor_position() {
    let mut board = Board::new();
    board.set(10, 10, Some(Letter::from_char('A')));
    let placements = verify_move(&board, center_index(), "ABA");
    // The A occurs at word positions 0 and 2, in both directions.
    assert_eq!(placements.len(), 4);
    assert!(placements
        .iter()
        .any(|m| m.location == center_index() && matches!(m.direction, Direction::Right)));
    assert!(placements
        .iter()
        .any(|m| m.location == center_index() - 2 && matches!(m.direction, Direction::Right)));
    assert!(placements
        .iter()
        .any(|m| m.location == center_index() && matches!(m.direction, Direction::Down)));
    assert!(placements
        .iter()
        .any(|m| m.location == center_index() - 2 * BOARD_SIZE
            && matches!(m.direction, Direction::Down)));
}

#[test]
fn empty_board_yields_no_moves_whatever_the_rack() {
    let board = Board::new();
    let dictionary = vec![String::from("CAT"), String::from("DOG")];
    assert!(best_moves(&board, &[b'C', b'A', b'T'], &dictionary).is_empty());
    assert!(best_moves(&board, &[], &dictionary).is_empty());
    assert!(best_moves(&board, &[b' ', b' '], &dictionary).is_empty());
}

#[test]
fn empty_dictionary_yields_no_moves() {
    let mut board = Board::new();
    board.set(10, 10, Some(Letter::from_char('C')));
    let dictionary: Vec<String> = Vec::new();
    assert!(best_moves(&board, &[b'A', b'T'], &dictionary).is_empty());
}

#[test]
fn cat_through_the_center_anchor_scores_five() {
    let mut board = Board::new();
    board.set(10, 10, Some(Letter::from_char('C')));
    let dictionary = vec![String::from("CAT")];
    let ranked = best_moves(&board, &[b'A', b'T'], &dictionary);
    // The board C plus rack A and T spell CAT rightward from the anchor.
    assert!(ranked
        .iter()
        .any(|(score, m)| *score == 5
            && m.location == center_index()
            && matches!(m.direction, Direction::Right)
            && m.word == "CAT"));
    assert!(ranked
        .iter()
        .all(|(score, m)| *score == 5 && m.location == center_index() && m.word == "CAT"));
    assert_eq!(ranked.len(), 2);
}

#[test]
fn best_moves_come_out_sorted_by_score_descending() {
    let mut board = Board::new();
    board.set(10, 10, Some(Letter::from_char('A')));
    let dictionary = vec![
        String::from("AT"),
        String::from("AX"),
        String::from("TA"),
        String::from("JAB"),
    ];
    let ranked = best_moves(&board, &[b'T', b'X', b'J', b'B'], &dictionary);
    assert!(!ranked.is_empty());
    for pair in ranked.windows(2) {
        assert!(pair[0].0 >= pair[1].0);
    }
    // JAB (8 + 1 + 3) outranks AX (1 + 8) and AT / TA (1 + 1).
    assert_eq!(ranked[0].0, 12);
    assert_eq!(ranked[0].1.word, "JAB");
}

#[test]
fn rack_without_needed_letters_stays_silent() {
    let mut board = Board::new();
    board.set(10, 10, Some(Letter::from_char('C')));
    let dictionary = vec![String::from("CAT")];
    // The rack has no A and no T and no wildcard: nothing can be built.
    assert!(best_moves(&board, &[b'Z', b'Q'], &dictionary).is_empty());
}

#[test]
fn wildcards_in_the_rack_extend_the_reachable_words() {
    let mut board = Board::new();
    board.set(10, 10, Some(Letter::from_char('C')));
    let dictionary = vec![String::from("CAT")];
    let ranked = best_moves(&board, &[b' ', b' '], &dictionary);
    // Two wildcards stand in for A and T.
    assert_eq!(ranked.len(), 2);
    assert_eq!(ranked[0].0, 5);
}
