use chessball::board::{ChessBallBoard, Piece, PieceType, Player};
use chessball::text::ParseError;

#[test]
fn test_from_and_display_roundtrip() {
    let s = "-- -- -- -- -- -- --\n-- -- -- -- -- -- --\n-- -- NB -- -- -- --\n-- -- -- -- -- -- --\n-- -- WA WA -- -- --\n-- -- WD WD WD -- --\n";
    let b = ChessBallBoard::from_repr(s).unwrap();
    let out = b.to_repr();
    assert_eq!(out, s);
}

#[test]
fn start_position_round_trips() {
    let b = ChessBallBoard::start_position();
    let text = b.to_repr();
    assert_eq!(
        text,
        "-- BD -- BD -- BD --\n-- -- BA -- BA -- --\n-- -- -- -- -- -- --\n-- -- -- NB -- -- --\n-- -- WA -- WA -- --\n-- WD -- WD -- WD --\n"
    );
    let again = ChessBallBoard::from_repr(&text).unwrap();
    assert_eq!(again.to_repr(), text);
}

#[test]
fn parse_skips_blank_lines_and_extra_spaces() {
    let s = "\n  -- -- -- -- -- -- --\r\n-- -- -- -- -- -- --\n\n-- --\t-- -- -- -- --\n-- -- NB -- -- -- --\n-- -- WA WA -- -- --\n-- -- WD WD WD -- --";
    let b = ChessBallBoard::from_repr(s).unwrap();
    assert_eq!(
        b.to_repr(),
        "-- -- -- -- -- -- --\n-- -- -- -- -- -- --\n-- -- -- -- -- -- --\n-- -- NB -- -- -- --\n-- -- WA WA -- -- --\n-- -- WD WD WD -- --\n"
    );
    assert_eq!(b.find_ball(), Some((3, 2)));
}

#[test]
fn parse_rejects_wrong_row_count() {
    let s = "\n-- -- -- -- -- -- --\n\n";
    assert_eq!(ChessBallBoard::from_repr(s).unwrap_err(), ParseError::RowCount { expected: 6, found: 1 });
    assert_eq!(ChessBallBoard::from_repr("").unwrap_err(), ParseError::RowCount { expected: 6, found: 0 });
    let seven_rows = "-- -- -- -- -- --\n-- -- -- -- -- --\n-- -- -- -- -- --\n-- -- NB -- -- --\n-- -- -- -- -- --\n-- -- WA WA -- --\n-- -- WD WD WD --\n";
    assert_eq!(ChessBallBoard::from_repr(seven_rows).unwrap_err(), ParseError::RowCount { expected: 6, found: 7 });
}

#[test]
fn parse_rejects_wrong_column_count() {
    let s = "-- -- -- -- -- -- --\n-- -- -- -- -- -- --\n-- -- -- -- -- --\n-- -- NB -- -- -- --\n-- -- WA WA -- -- --\n-- -- WD WD WD -- --\n";
    assert_eq!(
        ChessBallBoard::from_repr(s).unwrap_err(),
        ParseError::ColCount { row: 2, expected: 7, found: 6 }
    );
    let narrow = "WA --\n-- NB\n-- --\n-- --\n-- --\n-- --\n";
    assert_eq!(
        ChessBallBoard::from_repr(narrow).unwrap_err(),
        ParseError::ColCount { row: 0, expected: 7, found: 2 }
    );
}

#[test]
fn parse_rejects_malformed_token() {
    let s = "-- -- -- -- -- -- --\n-- -- -- -- -- -- --\n-- -- -- -- -- -- --\n-- -- NBX -- -- -- --\n-- -- WA WA -- -- --\n-- -- WD WD WD -- --\n";
    assert_eq!(
        ChessBallBoard::from_repr(s).unwrap_err(),
        ParseError::InvalidToken { row: 3, col: 2, token: vec!['N', 'B', 'X'] }
    );
}

#[test]
fn parse_rejects_unknown_owner() {
    let s = "-- -- -- -- -- -- --\n-- -- -- -- -- -- --\n-- -- -- -- -- -- --\n-- -- XB -- -- -- --\n-- -- WA WA -- -- --\n-- -- WD WD WD -- --\n";
    assert_eq!(
        ChessBallBoard::from_repr(s).unwrap_err(),
        ParseError::UnknownPlayer { row: 3, col: 2, found: 'X' }
    );
}

#[test]
fn parse_rejects_unknown_kind() {
    let s = "-- -- -- -- -- -- --\n-- -- -- -- -- -- --\n-- -- -- -- -- -- --\n-- -- NB -- -- -- --\n-- -- WQ WA -- -- --\n-- -- WD WD WD -- --\n";
    assert_eq!(
        ChessBallBoard::from_repr(s).unwrap_err(),
        ParseError::UnknownPiece { row: 4, col: 2, found: 'Q' }
    );
}

#[test]
fn chars_convert_both_ways() {
    assert_eq!(Player::from_char('W'), Some(Player::White));
    assert_eq!(Player::from_char('B'), Some(Player::Black));
    assert_eq!(Player::from_char('N'), Some(Player::Neutral));
    assert_eq!(Player::from_char('x'), None);
    assert_eq!(PieceType::from_char('A'), Some(PieceType::Attacker));
    assert_eq!(PieceType::from_char('D'), Some(PieceType::Defender));
    assert_eq!(PieceType::from_char('B'), Some(PieceType::Ball));
    assert_eq!(PieceType::from_char('W'), None);
    assert_eq!(Player::Black.to_char(), 'B');
    assert_eq!(PieceType::Defender.to_char(), 'D');
    assert_eq!(Player::White.opponent(), Player::Black);
    assert_eq!(Player::Neutral.opponent(), Player::Neutral);
}

#[test]
fn board_cells_can_be_set_read_and_cleared() {
    let mut b = ChessBallBoard::new();
    assert_eq!(b.rows(), 6);
    assert_eq!(b.cols(), 7);
    assert_eq!(b.find_ball(), None);
    let p = Piece { piece_type: PieceType::Attacker, player: Player::Black };
    b.place_piece(4, 5, p);
    assert_eq!(b.get_piece(4, 5), Some(&p));
    if let Some(q) = b.get_piece_mut(4, 5) {
        q.piece_type = PieceType::Defender;
    }
    assert_eq!(b.get_piece(4, 5).unwrap().piece_type, PieceType::Defender);
    b.remove_piece(4, 5);
    assert_eq!(b.get_piece(4, 5), None);
    assert!(b.is_forbidden_col(0));
    assert!(b.is_forbidden_col(6));
    assert!(!b.is_forbidden_col(5));
}
