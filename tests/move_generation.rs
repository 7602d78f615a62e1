use chessball::board::{ChessBallBoard, Piece, PieceType, Player};
use chessball::moves::{possible_moves, possible_previous_moves, try_apply_human_move, MoveInfo, MoveKind};

fn piece(player: Player, piece_type: PieceType) -> Piece {
    Piece { piece_type, player }
}

fn ball() -> Piece {
    piece(Player::Neutral, PieceType::Ball)
}

fn changed_cells(a: &ChessBallBoard, b: &ChessBallBoard) -> Vec<(usize, usize)> {
    let mut out = Vec::new();
    for r in 0..a.rows() {
        for c in 0..a.cols() {
            if a.get_piece(r, c) != b.get_piece(r, c) {
                out.push((r, c));
            }
        }
    }
    out
}

fn ball_count(b: &ChessBallBoard) -> usize {
    let mut n = 0;
    for r in 0..b.rows() {
        for c in 0..b.cols() {
            if let Some(p) = b.get_piece(r, c) {
                if p.piece_type == PieceType::Ball {
                    n += 1;
                }
            }
        }
    }
    n
}

#[test]
fn test_possible_moves_push_move() {
    let mut b = ChessBallBoard::new();
    b.place_piece(2, 3, Piece { piece_type: PieceType::Defender, player: Player::White });
    b.place_piece(2, 4, Piece { piece_type: PieceType::Ball, player: Player::Neutral });
    let mut found_push = false;
    for (info, _nb) in possible_moves(&b, Player::White) {
        if info.push_ball {
            found_push = true;
            break;
        }
    }
    assert!(found_push);
}

#[test]
fn test_possible_moves_simple_moves() {
    let mut b = ChessBallBoard::new();
    b.place_piece(2, 3, Piece { piece_type: PieceType::Defender, player: Player::White });
    let moves = possible_moves(&b, Player::White);
    assert!(moves.len() >= 1);
}

#[test]
fn test_possible_previous_moves() {
    let mut b = ChessBallBoard::new();
    b.place_piece(2, 4, Piece { piece_type: PieceType::Ball, player: Player::Neutral });
    b.place_piece(2, 3, Piece { piece_type: PieceType::Defender, player: Player::White });
    let prevs = possible_previous_moves(&b, Player::White);
    assert!(prevs.len() >= 1);
}

#[test]
fn test_simple_moves() {
    let mut b = ChessBallBoard::new();
    b.place_piece(2, 3, Piece { piece_type: PieceType::Defender, player: Player::White });
    let moves = possible_moves(&b, Player::White);
    assert!(moves.len() >= 1);
}

#[test]
fn test_push_move() {
    let mut b = ChessBallBoard::new();
    b.place_piece(2, 3, Piece { piece_type: PieceType::Defender, player: Player::White });
    b.place_piece(2, 4, Piece { piece_type: PieceType::Ball, player: Player::Neutral });
    let mut found_push = false;
    for (info, _nb) in possible_moves(&b, Player::White) {
        if info.push_ball {
            found_push = true;
            break;
        }
    }
    assert!(found_push);
}

#[test]
fn test_previous_moves() {
    let mut b = ChessBallBoard::new();
    b.place_piece(2, 4, Piece { piece_type: PieceType::Ball, player: Player::Neutral });
    b.place_piece(2, 3, Piece { piece_type: PieceType::Defender, player: Player::White });
    let prevs = possible_previous_moves(&b, Player::White);
    assert!(prevs.len() >= 1);
}

#[test]
fn lone_defender_has_exactly_one_push() {
    let mut b = ChessBallBoard::new();
    b.place_piece(2, 2, piece(Player::White, PieceType::Defender));
    b.place_piece(2, 3, ball());
    let moves = possible_moves(&b, Player::White);
    let pushes: Vec<&(MoveInfo, ChessBallBoard)> = moves.iter().filter(|(m, _)| m.push_ball).collect();
    assert_eq!(pushes.len(), 1);
    let (info, after) = pushes[0];
    assert_eq!(info.from, (2, 2));
    assert_eq!(info.to, (2, 3));
    assert_eq!(info.ball_to, Some((2, 4)));
    assert_eq!(after.find_ball(), Some((2, 4)));
    assert_eq!(after.get_piece(2, 3), Some(&piece(Player::White, PieceType::Defender)));
    assert_eq!(after.get_piece(2, 2), None);
    // seven steps onto empty cells, one push
    assert_eq!(moves.len(), 8);
}

#[test]
fn ball_is_not_pushed_into_a_forbidden_column() {
    let mut b = ChessBallBoard::new();
    b.place_piece(2, 4, piece(Player::White, PieceType::Defender));
    b.place_piece(2, 5, ball());
    let moves = possible_moves(&b, Player::White);
    assert!(moves.iter().all(|(m, _)| !m.push_ball));
}

#[test]
fn moves_come_in_row_major_then_direction_order() {
    let mut b = ChessBallBoard::new();
    b.place_piece(0, 0, piece(Player::White, PieceType::Attacker));
    b.place_piece(5, 6, piece(Player::White, PieceType::Attacker));
    let moves = possible_moves(&b, Player::White);
    let targets: Vec<(usize, usize)> = moves.iter().map(|(m, _)| m.to).collect();
    assert_eq!(targets, vec![(1, 0), (0, 1), (1, 1), (4, 6), (5, 5), (4, 5)]);
}

#[test]
fn attacker_jumps_over_any_piece_but_the_ball() {
    let mut b = ChessBallBoard::new();
    b.place_piece(3, 2, piece(Player::White, PieceType::Attacker));
    b.place_piece(2, 2, piece(Player::Black, PieceType::Defender));
    b.place_piece(4, 2, piece(Player::White, PieceType::Defender));
    b.place_piece(3, 3, ball());
    let moves = possible_moves(&b, Player::White);
    let jumps: Vec<&MoveInfo> = moves.iter().map(|(m, _)| m).filter(|m| m.jump && m.from == (3, 2)).collect();
    assert_eq!(jumps.len(), 2);
    assert_eq!(jumps[0].to, (1, 2));
    assert_eq!(jumps[0].jumped_over, Some((2, 2)));
    assert_eq!(jumps[1].to, (5, 2));
    assert_eq!(jumps[1].jumped_over, Some((4, 2)));
}

#[test]
fn defender_tackle_moves_both_pieces() {
    let mut b = ChessBallBoard::new();
    b.place_piece(2, 2, piece(Player::White, PieceType::Defender));
    b.place_piece(3, 2, piece(Player::Black, PieceType::Attacker));
    let moves = possible_moves(&b, Player::White);
    let tackle = moves.iter().find(|(m, _)| m.tackle).unwrap();
    assert_eq!(tackle.0.from, (2, 2));
    assert_eq!(tackle.0.to, (3, 2));
    assert_eq!(tackle.0.pushed_piece_from, Some((3, 2)));
    assert_eq!(tackle.0.pushed_piece_to, Some((4, 2)));
    let after = &tackle.1;
    assert_eq!(after.get_piece(2, 2), None);
    assert_eq!(after.get_piece(3, 2), Some(&piece(Player::White, PieceType::Defender)));
    assert_eq!(after.get_piece(4, 2), Some(&piece(Player::Black, PieceType::Attacker)));
    assert_eq!(after.last_tackle(), Some(((3, 2), (4, 2))));
}

#[test]
fn tackled_piece_cannot_strike_back_at_once() {
    let mut b = ChessBallBoard::new();
    b.place_piece(2, 2, piece(Player::White, PieceType::Defender));
    b.place_piece(3, 2, piece(Player::Black, PieceType::Attacker));
    b.place_piece(5, 6, ball());
    let moves = possible_moves(&b, Player::White);
    let (tackle, after) = moves.iter().find(|(m, _)| m.tackle).unwrap();
    let replies = possible_moves(after, Player::Black);
    assert!(!replies.is_empty());
    for (reply, _) in &replies {
        assert!(!(reply.jump && reply.jumped_over == tackle.pushed_piece_from && Some(reply.from) == tackle.pushed_piece_to));
        assert!(reply.from != tackle.from);
    }
    // on a board without that memory the jump back is there
    let mut fresh = ChessBallBoard::new();
    fresh.place_piece(3, 2, piece(Player::White, PieceType::Defender));
    fresh.place_piece(4, 2, piece(Player::Black, PieceType::Attacker));
    fresh.place_piece(5, 6, ball());
    let replies = possible_moves(&fresh, Player::Black);
    assert!(replies.iter().any(|(m, _)| m.jump && m.from == (4, 2) && m.jumped_over == Some((3, 2))));
}

#[test]
fn a_move_clears_the_tackle_memory() {
    let mut b = ChessBallBoard::new();
    b.place_piece(2, 2, piece(Player::White, PieceType::Defender));
    b.place_piece(3, 2, piece(Player::Black, PieceType::Attacker));
    let moves = possible_moves(&b, Player::White);
    let (_, after) = moves.iter().find(|(m, _)| m.tackle).unwrap();
    let replies = possible_moves(after, Player::Black);
    let (_, next) = replies.iter().find(|(m, _)| !m.tackle).unwrap();
    assert_eq!(next.last_tackle(), None);
}

#[test]
fn every_move_changes_only_its_cells() {
    let b = ChessBallBoard::start_position();
    for player in [Player::White, Player::Black] {
        let moves = possible_moves(&b, player);
        assert!(!moves.is_empty());
        for (info, after) in &moves {
            let changed = changed_cells(&b, after);
            let mut named = vec![info.from, info.to];
            if info.push_ball {
                named.push(info.ball_to.unwrap());
            }
            if info.tackle {
                named.push(info.pushed_piece_to.unwrap());
            }
            named.sort();
            assert_eq!(changed, named);
            let expected = if info.push_ball || info.tackle { 3 } else { 2 };
            assert_eq!(changed.len(), expected);
            assert_eq!(ball_count(after), 1);
        }
    }
}

#[test]
fn previous_positions_undo_a_push() {
    let mut b = ChessBallBoard::new();
    b.place_piece(3, 2, piece(Player::White, PieceType::Attacker));
    b.place_piece(3, 3, ball());
    let prevs = possible_previous_moves(&b, Player::White);
    let push = prevs.iter().find(|(m, _)| m.push_ball).unwrap();
    assert_eq!(push.0.from, (3, 1));
    assert_eq!(push.0.to, (3, 2));
    assert_eq!(push.0.ball_to, Some((3, 3)));
    assert_eq!(push.1.find_ball(), Some((3, 2)));
    assert_eq!(push.1.get_piece(3, 1), Some(&piece(Player::White, PieceType::Attacker)));
    // and the push from there leads back here
    let forward = possible_moves(&push.1, Player::White);
    assert!(forward.iter().any(|(m, nb)| m.push_ball && m.from == (3, 1) && nb.to_repr() == b.to_repr()));
}

#[test]
fn previous_positions_undo_a_tackle_and_a_jump() {
    let mut b = ChessBallBoard::new();
    b.place_piece(3, 2, piece(Player::White, PieceType::Defender));
    b.place_piece(4, 2, piece(Player::Black, PieceType::Attacker));
    b.place_piece(1, 4, piece(Player::White, PieceType::Attacker));
    b.place_piece(2, 4, piece(Player::Black, PieceType::Defender));
    let prevs = possible_previous_moves(&b, Player::White);
    let tackle = prevs.iter().find(|(m, _)| m.tackle).unwrap();
    assert_eq!(tackle.0.from, (2, 2));
    assert_eq!(tackle.1.get_piece(2, 2), Some(&piece(Player::White, PieceType::Defender)));
    assert_eq!(tackle.1.get_piece(3, 2), Some(&piece(Player::Black, PieceType::Attacker)));
    assert_eq!(tackle.1.get_piece(4, 2), None);
    let jump = prevs.iter().find(|(m, _)| m.jump).unwrap();
    assert_eq!(jump.0.from, (3, 4));
    assert_eq!(jump.0.to, (1, 4));
    assert_eq!(jump.0.jumped_over, Some((2, 4)));
}

#[test]
fn human_move_is_played_only_when_legal() {
    let mut b = ChessBallBoard::start_position();
    let before = b.to_repr();
    assert!(!try_apply_human_move(&mut b, Player::White, 4, 2, 2, 2));
    assert_eq!(b.to_repr(), before);
    assert!(try_apply_human_move(&mut b, Player::White, 4, 2, 3, 2));
    assert_eq!(b.get_piece(4, 2), None);
    assert_eq!(b.get_piece(3, 2), Some(&piece(Player::White, PieceType::Attacker)));
}

#[test]
fn move_kinds_carry_their_cells() {
    let mut b = ChessBallBoard::new();
    b.place_piece(2, 2, piece(Player::White, PieceType::Defender));
    b.place_piece(2, 3, ball());
    b.place_piece(3, 2, piece(Player::Black, PieceType::Attacker));
    let moves = possible_moves(&b, Player::White);
    let kinds: Vec<MoveKind> = moves.iter().map(|(m, _)| m.kind()).collect();
    assert!(kinds.contains(&MoveKind::BallPush { ball_to: (2, 4) }));
    assert!(kinds.contains(&MoveKind::DefenderTackle { pushed_from: (3, 2), pushed_to: (4, 2) }));
    assert!(kinds.contains(&MoveKind::SimpleMove));
    let replies = possible_moves(&b, Player::Black);
    assert!(replies.iter().any(|(m, _)| m.kind() == MoveKind::AttackerJump { over: (2, 2) }));
}

#[test]
fn a_pushed_ball_is_neutral() {
    let mut b = ChessBallBoard::new();
    b.place_piece(2, 2, piece(Player::White, PieceType::Defender));
    b.place_piece(2, 3, piece(Player::Black, PieceType::Ball));
    let moves = possible_moves(&b, Player::White);
    let (_, after) = moves.iter().find(|(m, _)| m.push_ball).unwrap();
    assert_eq!(after.get_piece(2, 4), Some(&ball()));
    assert_eq!(after.get_piece(2, 3), Some(&piece(Player::White, PieceType::Defender)));
    let prevs = possible_previous_moves(after, Player::White);
    let (_, before) = prevs.iter().find(|(m, _)| m.push_ball).unwrap();
    assert_eq!(before.get_piece(2, 3), Some(&ball()));
    assert_eq!(before.get_piece(2, 2), Some(&piece(Player::White, PieceType::Defender)));
    assert_eq!(before.get_piece(2, 4), None);
}
