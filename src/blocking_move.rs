//! One-ply defence: a move after which the opponent cannot win at once.
use vstd::prelude::*;
use crate::board::{opponent_of, BoardModel, ChessBallBoard, Player};
use crate::moves::{all_wf, legal_moves, possible_moves, views, MoveInfo};
use crate::winning_moves::{winning_list, winning_moves};

verus! {

/// On the board `m`, reached by a move of `p`, the opponent of `p` has no winning move.
pub open spec fn blocks(m: BoardModel, p: Player) -> bool {
    winning_list(m, opponent_of(p)).len() == 0
}

/// The first entry of `s` whose board leaves the opponent of `p` no winning move.
pub open spec fn first_block(s: Seq<(MoveInfo, BoardModel)>, p: Player) -> Option<(MoveInfo, BoardModel)>
    decreases s.len(),
{
    if s.len() == 0 {
        None
    } else if blocks(s[0].1, p) {
        Some(s[0])
    } else {
        first_block(s.drop_first(), p)
    }
}

/// The first legal move of `p` on `m` after which the opponent cannot win at once.
pub open spec fn blocking_move(m: BoardModel, p: Player) -> Option<MoveInfo> {
    match first_block(legal_moves(m, p), p) {
        Some(x) => Some(x.0),
        None => None,
    }
}

/// The first move of `player`, in the order of `possible_moves`, after which
/// its opponent has no winning move; `None` when every move leaves one.
pub fn find_blocking_move(position: &ChessBallBoard, player: Player) -> (r: Option<MoveInfo>)
    requires
        position.wf(),
    ensures
        r == blocking_move(position@, player),
{
    let opponent = player.opponent();
    let moves = possible_moves(position, player);
    let ghost s = views(moves@);
    let mut i: usize = 0;
    assert(s.skip(0) =~= s);
    while i < moves.len()
        invariant
            s == views(moves@),
            s == legal_moves(position@, player),
            all_wf(moves@),
            i <= moves.len(),
            opponent == opponent_of(player),
            first_block(s, player) == first_block(s.skip(i as int), player),
        decreases moves.len() - i,
    {
        assert(moves@[i as int].1.wf());
        let replies = winning_moves(&moves[i].1, opponent);
        assert(s.skip(i as int)[0] == s[i as int]);
        assert(s[i as int] == (moves@[i as int].0, moves@[i as int].1@));
        if replies.len() == 0 {
            assert(blocks(s[i as int].1, player));
            assert(first_block(s.skip(i as int), player) == Some(s[i as int]));
            let mv = moves[i].0;
            return Some(mv);
        }
        assert(s.skip(i as int).drop_first() =~= s.skip(i as int + 1));
        i += 1;
    }
    None
}

/// What `first_block` picks is an entry of `s` that blocks; when it picks
/// nothing, no entry blocks.
pub proof fn lemma_first_block(s: Seq<(MoveInfo, BoardModel)>, p: Player)
    ensures
        first_block(s, p) matches Some(x) ==> s.contains(x) && blocks(x.1, p),
        first_block(s, p) is None ==> forall|j: int| 0 <= j < s.len() ==> !blocks(#[trigger] s[j].1, p),
    decreases s.len(),
{
    if s.len() > 0 {
        lemma_first_block(s.drop_first(), p);
        if blocks(s[0].1, p) {
            assert(s[0] == s[0]);
        } else {
            if let Some(x) = first_block(s, p) {
                let j = choose|j: int| 0 <= j < s.drop_first().len() && s.drop_first()[j] == x;
                assert(s[j + 1] == x);
            } else {
                assert forall|j: int| 0 <= j < s.len() implies !blocks(#[trigger] s[j].1, p) by {
                    if j > 0 {
                        assert(s[j] == s.drop_first()[j - 1]);
                    }
                }
            }
        }
    }
}

/// A move returned as blocking is a legal move whose board leaves the
/// opponent no winning move; when none is returned, every legal move leaves
/// the opponent at least one.
pub proof fn lemma_blocking_correct(m: BoardModel, p: Player)
    ensures
        blocking_move(m, p) matches Some(mv) ==> exists|j: int|
            0 <= j < legal_moves(m, p).len() && (#[trigger] legal_moves(m, p)[j]).0 == mv
                && winning_list(legal_moves(m, p)[j].1, opponent_of(p)).len() == 0,
        blocking_move(m, p) is None ==> forall|j: int|
            0 <= j < legal_moves(m, p).len() ==> winning_list(
                (#[trigger] legal_moves(m, p)[j]).1,
                opponent_of(p),
            ).len() > 0,
{
    let s = legal_moves(m, p);
    lemma_first_block(s, p);
    if let Some(x) = first_block(s, p) {
        let j = choose|j: int| 0 <= j < s.len() && s[j] == x;
        assert(s[j].0 == x.0);
    } else {
        assert forall|j: int| 0 <= j < s.len() implies winning_list((#[trigger] s[j]).1, opponent_of(p)).len() > 0 by {
            assert(!blocks(s[j].1, p));
        }
    }
}

} // verus!
