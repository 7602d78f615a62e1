//! Moves that put the ball on the mover's goal row.
use vstd::prelude::*;
use crate::board::{BoardModel, ChessBallBoard, Player};
use crate::moves::{all_wf, legal_moves, possible_moves, views, MoveInfo};

verus! {

/// The row that `p` must bring the ball to: row 0 for Black, the last row otherwise.
pub open spec fn goal_row(m: BoardModel, p: Player) -> int {
    if p == Player::Black {
        0
    } else {
        m.rows - 1
    }
}

/// The ball stands on the goal row of `p`.
pub open spec fn reaches_goal(m: BoardModel, p: Player) -> bool {
    match m.ball_cell() {
        Some(rc) => rc.0 == goal_row(m, p),
        None => false,
    }
}

/// The moves of `s`, in order, whose resulting board has the ball on the goal row of `p`.
pub open spec fn wins_of(s: Seq<(MoveInfo, BoardModel)>, p: Player) -> Seq<MoveInfo>
    decreases s.len(),
{
    if s.len() == 0 {
        seq![]
    } else {
        wins_of(s.drop_last(), p) + (if reaches_goal(s.last().1, p) {
            seq![s.last().0]
        } else {
            seq![]
        })
    }
}

/// The winning moves of `p` on `m`.
pub open spec fn winning_list(m: BoardModel, p: Player) -> Seq<MoveInfo> {
    wins_of(legal_moves(m, p), p)
}

/// Whether the board `b` has the ball on the goal row of `p`.
pub fn ball_on_goal_row(b: &ChessBallBoard, p: Player) -> (r: bool)
    requires
        b.wf(),
    ensures
        r == reaches_goal(b@, p),
{
    let goal: usize = if p == Player::Black { 0 } else { b.rows() - 1 };
    match b.find_ball() {
        Some((br, _bc)) => br == goal,
        None => false,
    }
}

/// The moves of `player` after which the ball stands on its goal row, in the
/// order of `possible_moves`.
pub fn winning_moves(position: &ChessBallBoard, player: Player) -> (wins: Vec<MoveInfo>)
    requires
        position.wf(),
    ensures
        wins@ == winning_list(position@, player),
{
    let moves = possible_moves(position, player);
    let ghost s = views(moves@);
    let mut wins: Vec<MoveInfo> = Vec::new();
    let mut i: usize = 0;
    assert(s.take(0) =~= Seq::<(MoveInfo, BoardModel)>::empty());
    while i < moves.len()
        invariant
            s == views(moves@),
            all_wf(moves@),
            i <= moves.len(),
            wins@ == wins_of(s.take(i as int), player),
        decreases moves.len() - i,
    {
        assert(s.take(i as int + 1).drop_last() =~= s.take(i as int));
        assert(moves@[i as int].1.wf());
        if ball_on_goal_row(&moves[i].1, player) {
            wins.push(moves[i].0);
        }
        i += 1;
        assert(wins@ =~= wins_of(s.take(i as int), player));
    }
    assert(s.take(i as int) =~= s);
    wins
}

/// `mv` is the move of an entry of `s` whose board has the ball on the goal row of `p`.
pub open spec fn winning_entry(s: Seq<(MoveInfo, BoardModel)>, mv: MoveInfo, p: Player) -> bool {
    exists|j: int| 0 <= j < s.len() && (#[trigger] s[j]).0 == mv && reaches_goal(s[j].1, p)
}

pub proof fn lemma_wins_of_members(s: Seq<(MoveInfo, BoardModel)>, p: Player)
    ensures
        forall|i: int| 0 <= i < wins_of(s, p).len() ==> winning_entry(s, #[trigger] wins_of(s, p)[i], p),
    decreases s.len(),
{
    if s.len() > 0 {
        let s0 = s.drop_last();
        lemma_wins_of_members(s0, p);
        let w = wins_of(s, p);
        let w0 = wins_of(s0, p);
        assert forall|i: int| 0 <= i < w.len() implies winning_entry(s, #[trigger] w[i], p) by {
            if i < w0.len() {
                assert(w[i] == w0[i]);
                assert(winning_entry(s0, w0[i], p));
                let j = choose|j: int| 0 <= j < s0.len() && (#[trigger] s0[j]).0 == w0[i] && reaches_goal(s0[j].1, p);
                assert(s[j] == s0[j]);
            } else {
                assert(s[s.len() - 1] == s.last());
            }
        }
    }
}

/// Every winning move of `p` on `m` is a legal move of `p` on `m` (same move,
/// so same origin, destination and kind), and the board it leads to has the
/// ball on the goal row of `p`.
pub proof fn lemma_winning_moves_are_legal(m: BoardModel, p: Player)
    ensures
        forall|i: int|
            0 <= i < winning_list(m, p).len() ==> winning_entry(legal_moves(m, p), #[trigger] winning_list(m, p)[i], p),
{
    lemma_wins_of_members(legal_moves(m, p), p);
}

} // verus!
