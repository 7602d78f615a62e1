use chessball::blocking_move::find_blocking_move;
use chessball::board::{ChessBallBoard, Piece, PieceType, Player};
use chessball::heuristics::{
    ball_pos, count_adjacent_pushers, count_control_around_ball, count_opponent_pieces_between_ball_and_goal, evaluate,
    features, mobility, score_features, vulnerable_pieces_count,
};
use chessball::minimax::{choose_best_move, has_immediate_win, Score};
use chessball::moves::possible_moves;
use chessball::win_avoidability::is_win_avoidable_by_opponent;
use chessball::winning_moves::winning_moves;

fn piece(player: Player, piece_type: PieceType) -> Piece {
    Piece { piece_type, player }
}

fn ball() -> Piece {
    piece(Player::Neutral, PieceType::Ball)
}

/// White can push the ball from row 4 onto its goal row, row 5.
fn white_threat() -> ChessBallBoard {
    let mut b = ChessBallBoard::new();
    b.place_piece(3, 3, piece(Player::White, PieceType::Defender));
    b.place_piece(4, 3, ball());
    b
}

#[test]
fn winning_moves_are_legal_moves() {
    let b = white_threat();
    let wins = winning_moves(&b, Player::White);
    assert_eq!(wins.len(), 1);
    assert!(wins[0].push_ball);
    assert_eq!(wins[0].ball_to, Some((5, 3)));
    let moves = possible_moves(&b, Player::White);
    for w in &wins {
        let found = moves.iter().find(|(m, _)| m == w).unwrap();
        assert_eq!(found.1.find_ball().unwrap().0, 5);
    }
    assert!(winning_moves(&b, Player::Black).is_empty());
}

#[test]
fn black_wins_on_row_zero() {
    let mut b = ChessBallBoard::new();
    b.place_piece(2, 2, piece(Player::Black, PieceType::Attacker));
    b.place_piece(1, 2, ball());
    let wins = winning_moves(&b, Player::Black);
    assert_eq!(wins.len(), 1);
    assert_eq!(wins[0].from, (2, 2));
    let (mv, after) = has_immediate_win(&b, Player::Black).unwrap();
    assert_eq!(mv, wins[0]);
    assert_eq!(after.find_ball(), Some((0, 2)));
    assert!(has_immediate_win(&b, Player::White).is_none());
}

#[test]
fn blocking_move_leaves_no_winning_reply() {
    let mut b = white_threat();
    b.place_piece(5, 2, piece(Player::Black, PieceType::Defender));
    let block = find_blocking_move(&b, Player::Black).unwrap();
    let moves = possible_moves(&b, Player::Black);
    let (_, after) = moves.iter().find(|(m, _)| *m == block).unwrap();
    assert!(winning_moves(after, Player::White).is_empty());
    // the first such move in generation order: the defender steps onto (5, 3)
    assert_eq!(block.from, (5, 2));
    assert_eq!(block.to, (5, 3));
}

#[test]
fn no_blocking_move_without_pieces() {
    let b = white_threat();
    assert_eq!(find_blocking_move(&b, Player::Black), None);
    let mut far = white_threat();
    far.place_piece(0, 0, piece(Player::Black, PieceType::Attacker));
    assert_eq!(find_blocking_move(&far, Player::Black), None);
    for (_, after) in possible_moves(&far, Player::Black) {
        assert!(!winning_moves(&after, Player::White).is_empty());
    }
}

#[test]
fn win_is_forced_when_the_opponent_had_no_position_to_come_from() {
    let b = white_threat();
    assert!(!is_win_avoidable_by_opponent(&b, Player::White));
}

#[test]
fn win_is_forced_when_some_earlier_position_had_no_block() {
    let mut b = white_threat();
    // the defender may have stepped from (5, 1), from where nothing reaches (5, 3)
    b.place_piece(5, 2, piece(Player::Black, PieceType::Defender));
    assert!(!is_win_avoidable_by_opponent(&b, Player::White));
}

#[test]
fn win_avoidability_checks_every_earlier_position() {
    let mut c = white_threat();
    c.place_piece(5, 4, piece(Player::Black, PieceType::Defender));
    let prevs = chessball::moves::possible_previous_moves(&c, Player::Black);
    assert!(!prevs.is_empty());
    let expected = prevs.iter().all(|(_, p)| find_blocking_move(p, Player::Black).is_some());
    assert_eq!(is_win_avoidable_by_opponent(&c, Player::White), expected);
}

#[test]
fn search_takes_an_immediate_win() {
    let b = white_threat();
    for depth in 0..3 {
        let (mv, after, score) = choose_best_move(&b, Player::White, depth);
        assert_eq!(score, Score::Infinity);
        assert!(mv.unwrap().push_ball);
        assert_eq!(after.unwrap().find_ball().unwrap().0, 5);
    }
}

#[test]
fn search_sees_a_loss_it_cannot_stop() {
    let mut b = white_threat();
    b.place_piece(0, 0, piece(Player::Black, PieceType::Attacker));
    let (mv, after, score) = choose_best_move(&b, Player::Black, 2);
    assert_eq!(score, Score::NegInfinity);
    assert!(mv.is_none());
    assert!(after.is_none());
}

#[test]
fn search_from_the_start_position() {
    let b = ChessBallBoard::start_position();
    let (mv, after, score) = choose_best_move(&b, Player::White, 1);
    assert!(mv.is_some());
    assert!(after.is_some());
    assert!(matches!(score, Score::Finite(_)));
}

#[test]
fn lone_ball_features_and_score() {
    let mut b = ChessBallBoard::new();
    b.place_piece(3, 3, ball());
    assert_eq!(ball_pos(&b), Some((3, 3)));
    let f = features(&b, Player::White);
    assert!(!f.win_now && !f.lose_now && !f.unavoidable_win && !f.pusher_behind);
    assert_eq!(f.ball, Some((3, 3)));
    assert_eq!(f.mobility, 0);
    // ball progress 3/5, push distance 3/5, ball row 3/5 for White: 9/5 in units of 1/600
    assert_eq!(evaluate(&b, Player::White), 1080);
    // 2/5 each for Black
    assert_eq!(evaluate(&b, Player::Black), 720);
}

#[test]
fn score_of_features_adds_each_term() {
    let mut b = ChessBallBoard::new();
    b.place_piece(3, 3, ball());
    b.place_piece(2, 3, piece(Player::White, PieceType::Attacker));
    let f = features(&b, Player::White);
    assert!(f.pusher_behind);
    assert_eq!(f.adj_pushers, 1);
    assert_eq!(f.control_friendly, 1);
    assert_eq!(f.control_enemy, 0);
    assert_eq!(f.mobility, 8);
    assert_eq!(f.opp_mobility, 0);
    // 1080, push distance up by 60, pushers 75, control 75, mobility 8 * 10
    assert_eq!(score_features(&f, Player::White, 6, 7), 1080 + 60 + 75 + 75 + 80);
    assert_eq!(evaluate(&b, Player::White), 1370);
}

#[test]
fn counts_around_the_ball() {
    let mut b = ChessBallBoard::new();
    b.place_piece(3, 2, ball());
    b.place_piece(2, 2, piece(Player::White, PieceType::Attacker));
    b.place_piece(3, 1, piece(Player::White, PieceType::Defender));
    b.place_piece(4, 3, piece(Player::Black, PieceType::Defender));
    b.place_piece(3, 3, piece(Player::Black, PieceType::Attacker));
    // (2, 2) pushes toward (4, 2); (3, 1) toward (3, 3), which is taken
    assert_eq!(count_adjacent_pushers(&b, Player::White), 1);
    // (4, 3) would push toward (2, 1); (3, 3) toward (3, 1), which is taken
    assert_eq!(count_adjacent_pushers(&b, Player::Black), 1);
    assert_eq!(count_control_around_ball(&b, Player::White), (2, 2));
    assert_eq!(count_control_around_ball(&b, Player::Black), (2, 2));
    assert_eq!(mobility(&b, Player::White), possible_moves(&b, Player::White).len());
}

#[test]
fn vulnerable_pieces_next_to_opposing_defenders() {
    let mut b = ChessBallBoard::new();
    b.place_piece(3, 2, piece(Player::White, PieceType::Attacker));
    b.place_piece(2, 2, piece(Player::Black, PieceType::Defender));
    b.place_piece(5, 5, piece(Player::White, PieceType::Attacker));
    b.place_piece(4, 4, piece(Player::Black, PieceType::Attacker));
    b.place_piece(3, 3, piece(Player::Black, PieceType::Defender));
    // (3, 2) can be tackled from (2, 2) into (4, 2); (5, 5) has no defender next to it
    assert_eq!(vulnerable_pieces_count(&b, Player::White), 1);
    assert_eq!(vulnerable_pieces_count(&b, Player::Black), 0);
}

#[test]
fn opposing_pieces_between_ball_and_goal() {
    let mut b = ChessBallBoard::new();
    b.place_piece(2, 3, ball());
    b.place_piece(3, 1, piece(Player::Black, PieceType::Defender));
    b.place_piece(4, 4, piece(Player::Black, PieceType::Attacker));
    b.place_piece(4, 5, piece(Player::White, PieceType::Attacker));
    b.place_piece(5, 0, piece(Player::Black, PieceType::Defender));
    // rows 3 and 4 lie between row 2 and White's goal row 5
    assert_eq!(count_opponent_pieces_between_ball_and_goal(&b, Player::White), 2);
    // rows strictly between row 2 and row 0: row 1, empty
    assert_eq!(count_opponent_pieces_between_ball_and_goal(&b, Player::Black), 0);
    assert_eq!(count_opponent_pieces_between_ball_and_goal(&b, Player::Neutral), 0);
}

#[test]
fn search_returns_a_move_when_every_move_loses() {
    let mut b = ChessBallBoard::new();
    b.place_piece(1, 3, ball());
    b.place_piece(2, 3, piece(Player::Black, PieceType::Defender));
    b.place_piece(0, 3, piece(Player::White, PieceType::Attacker));
    assert!(winning_moves(&b, Player::White).is_empty());
    assert!(winning_moves(&b, Player::Black).is_empty());
    let moves = possible_moves(&b, Player::White);
    let (mv, after, score) = choose_best_move(&b, Player::White, 1);
    assert_eq!(score, Score::NegInfinity);
    // every move loses, so the first one is kept
    assert_eq!(mv, Some(moves[0].0));
    assert_eq!(after.unwrap().to_repr(), moves[0].1.to_repr());
}
