use tictactoe::{recommend, parse_player, MoveError, Player, Refusal, TicTacToe};

fn board(size: usize, moves: &str) -> TicTacToe {
    let mut b = TicTacToe::new(size).unwrap();
    b.parse_moves(moves).unwrap();
    b
}

fn all_empty(b: &TicTacToe) -> bool {
    let n = b.size();
    (0..n).all(|r| (0..n).all(|c| b.cell_at(r, c).is_none()))
}

#[test]
fn decode_top_row_for_x_scores_plus_one() {
    let b = board(3, "X-0-0_O-1-1_X-0-1_O-1-0_X-0-2");
    for c in 0..3 {
        assert_eq!(b.cell_at(0, c), Some(Player::X));
    }
    assert_eq!(b.cell_at(1, 0), Some(Player::O));
    assert_eq!(b.cell_at(1, 1), Some(Player::O));
    assert_eq!(b.check_winner(), Some(Player::X));
    assert_eq!(b.evaluate(), 1);
}

#[test]
fn search_for_o_after_two_moves_gives_free_cell() {
    let mut b = board(3, "X-1-1_O-0-0");
    let (value, mv) = b.search(Player::O);
    let (r, c) = mv.expect("a move");
    assert!(r < 3 && c < 3);
    assert_eq!(b.cell_at(r, c), None);
    assert!((-1..=1).contains(&value));
}

#[test]
fn empty_classic_board_is_a_draw() {
    let mut b = TicTacToe::new(3).unwrap();
    let (value, mv) = b.search(Player::X);
    assert_eq!(value, 0);
    assert_eq!(mv, Some((0, 0)));
    assert!(all_empty(&b));
}

#[test]
fn completing_the_top_row_wins() {
    let mut b = board(3, "X-0-0_X-0-1");
    assert_eq!(b.search(Player::X), (1, Some((0, 2))));
}

#[test]
fn o_takes_the_winning_cell() {
    let mut b = board(3, "X-0-0_O-1-0_X-2-2_O-1-1_X-0-2");
    assert_eq!(b.search(Player::O), (-1, Some((1, 2))));
}

#[test]
fn minmax_with_full_window_matches_search() {
    let mut a = board(3, "X-1-1_O-0-0");
    let mut b = board(3, "X-1-1_O-0-0");
    assert_eq!(a.minmax(0, Player::X, i32::MIN, i32::MAX), b.search(Player::X));
}

#[test]
fn wrong_field_count_is_malformed_and_leaves_board_empty() {
    let mut b = TicTacToe::new(3).unwrap();
    assert_eq!(b.parse_moves("X-1"), Err(MoveError::MalformedMove));
    assert!(all_empty(&b));
    assert_eq!(b.parse_moves("X-0-0_X-1"), Err(MoveError::MalformedMove));
    assert!(all_empty(&b));
    assert_eq!(b.current_player(), Player::X);
}

#[test]
fn search_twice_gives_same_answer() {
    let mut b = board(3, "X-1-1_O-0-0_X-2-2");
    let first = b.search(Player::O);
    let second = b.search(Player::O);
    assert_eq!(first, second);
}

#[test]
fn full_board_has_no_empty_cells() {
    let mut b = board(3, "X-0-0_O-0-1_X-0-2_X-1-0_O-1-1_O-1-2_O-2-0_X-2-1_X-2-2");
    assert!(b.is_full());
    assert!(b.available_moves().is_empty());
    assert_eq!(b.evaluate(), 0);
    assert_eq!(b.search(Player::X), (0, None));
}

#[test]
fn available_moves_in_row_major_order() {
    let b = board(3, "X-0-1_O-1-1_X-2-0");
    assert_eq!(
        b.available_moves(),
        vec![(0, 0), (0, 2), (1, 0), (1, 2), (2, 1), (2, 2)]
    );
    assert!(!b.is_full());
}

#[test]
fn decoder_errors() {
    let cases: [(&str, MoveError); 8] = [
        ("Z-0-0", MoveError::InvalidSymbol),
        ("x-0-0", MoveError::InvalidSymbol),
        ("X-a-0", MoveError::InvalidCoordinate),
        ("X-0-", MoveError::InvalidCoordinate),
        ("X-99999999999999999999999-0", MoveError::InvalidCoordinate),
        ("X-3-0", MoveError::OutOfBounds),
        ("X-0-0_O-0-0", MoveError::CellOccupied),
        ("X--1-0", MoveError::MalformedMove),
    ];
    for (text, err) in cases {
        let mut b = TicTacToe::new(3).unwrap();
        assert_eq!(b.parse_moves(text), Err(err), "{}", text);
        assert!(all_empty(&b));
    }
}

#[test]
fn bounds_checked_before_symbol_of_later_token() {
    let mut b = TicTacToe::new(3).unwrap();
    assert_eq!(b.parse_moves("X-5-5_Q-0-0"), Err(MoveError::OutOfBounds));
    assert_eq!(b.parse_moves("X-0-0_"), Err(MoveError::MalformedMove));
}

#[test]
fn empty_history_is_malformed_and_plus_sign_accepted() {
    let mut b = TicTacToe::new(3).unwrap();
    assert_eq!(b.parse_moves(""), Err(MoveError::MalformedMove));
    assert!(all_empty(&b));
    assert_eq!(b.parse_moves("X-+1-02"), Ok(()));
    assert_eq!(b.cell_at(1, 2), Some(Player::X));
}

#[test]
fn zero_size_is_invalid() {
    assert!(matches!(TicTacToe::new(0), Err(MoveError::InvalidSize)));
    assert!(matches!(TicTacToe::new(usize::MAX), Err(MoveError::InvalidSize)));
    assert_eq!(TicTacToe::new(5).unwrap().size(), 5);
}

#[test]
fn turn_follows_last_placed_symbol() {
    let mut b = board(3, "X-1-1");
    assert_eq!(b.current_player(), Player::O);
    b.parse_moves("X-0-0").unwrap();
    assert_eq!(b.current_player(), Player::O);
    assert_eq!(b.make_move(2, 2), Ok(()));
    assert_eq!(b.cell_at(2, 2), Some(Player::O));
    assert_eq!(b.current_player(), Player::X);
    assert_eq!(b.make_move(2, 2), Err(MoveError::CellOccupied));
    assert_eq!(b.make_move(3, 0), Err(MoveError::OutOfBounds));
    assert_eq!(b.place_at(0, 1, Player::O), Ok(()));
    assert_eq!(b.current_player(), Player::X);
}

#[test]
fn winners_on_columns_and_diagonals() {
    assert_eq!(board(3, "X-0-1_X-1-1_X-2-1").check_winner(), Some(Player::X));
    assert_eq!(board(3, "O-0-0_O-1-1_O-2-2").evaluate(), -1);
    assert_eq!(board(3, "O-0-2_O-1-1_O-2-0").check_winner(), Some(Player::O));
    assert_eq!(board(3, "X-0-0_X-1-1").check_winner(), None);
    // both symbols hold a row: the earlier row is reported
    assert_eq!(
        board(3, "O-0-0_O-0-1_O-0-2_X-1-0_X-1-1_X-1-2").check_winner(),
        Some(Player::O)
    );
}

#[test]
fn full_line_needed_on_larger_boards() {
    let b = board(5, "X-0-0_X-0-1_X-0-2_X-0-3");
    assert_eq!(b.evaluate(), 0);
    let b = board(5, "X-0-0_X-0-1_X-0-2_X-0-3_X-0-4");
    assert_eq!(b.evaluate(), 1);
}

#[test]
fn recommend_answers() {
    assert_eq!(
        recommend(3, "X", ""),
        Err(Refusal::Invalid(MoveError::MalformedMove))
    );
    assert_eq!(recommend(3, "X", "X-0-0_X-0-1"), Ok((Player::X, 0, 2)));
    assert_eq!(
        recommend(3, "O", "X-0-0_O-1-1_X-0-1_O-1-0_X-0-2"),
        Err(Refusal::NoMove)
    );
    assert_eq!(
        recommend(3, "Y", "X-1-1"),
        Err(Refusal::Invalid(MoveError::InvalidPlayer))
    );
    assert_eq!(
        recommend(3, "Y", "X-1"),
        Err(Refusal::Invalid(MoveError::MalformedMove))
    );
    assert_eq!(
        recommend(0, "X", "X-0-0"),
        Err(Refusal::Invalid(MoveError::InvalidSize))
    );
}

#[test]
fn player_symbols() {
    assert_eq!(parse_player("X"), Some(Player::X));
    assert_eq!(parse_player("O"), Some(Player::O));
    assert_eq!(parse_player("XO"), None);
    assert_eq!(parse_player(""), None);
    assert_eq!(Player::X.opponent(), Player::O);
}

#[test]
fn narrow_window_is_repeatable_and_depth_free() {
    let mut b = board(3, "X-1-1_O-0-0");
    let first = b.minmax(0, Player::X, -1, 0);
    let second = b.minmax(7, Player::X, -1, 0);
    assert_eq!(first, second);
    assert_eq!(b.cell_at(1, 1), Some(Player::X));
    assert_eq!(b.available_moves().len(), 7);
}
