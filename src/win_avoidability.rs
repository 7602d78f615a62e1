//! Whether the opponent could have prevented a win that is now on the board.
use vstd::prelude::*;
use crate::blocking_move::{blocking_move, find_blocking_move};
use crate::board::{opponent_of, BoardModel, ChessBallBoard, Player};
use crate::moves::{all_wf, possible_previous_moves, previous_positions, views};

verus! {

/// Every position from which a move of the opponent of `p` could have led to
/// `m` offered that opponent a blocking move, and there is at least one such position.
pub open spec fn win_avoidable(m: BoardModel, p: Player) -> bool {
    let q = opponent_of(p);
    let prev = previous_positions(m, q);
    prev.len() > 0 && forall|i: int| 0 <= i < prev.len() ==> (#[trigger] blocking_move(prev[i].1, q)) is Some
}

/// False when the opponent of `player` had no way to reach `position`, or when
/// some position it may have moved from left it no blocking move; true when
/// every such position gave it one.
pub fn is_win_avoidable_by_opponent(position: &ChessBallBoard, player: Player) -> (r: bool)
    requires
        position.wf(),
    ensures
        r == win_avoidable(position@, player),
{
    let opponent = player.opponent();
    let previous = possible_previous_moves(position, opponent);
    let ghost s = views(previous@);
    if previous.len() == 0 {
        return false;
    }
    let mut i: usize = 0;
    while i < previous.len()
        invariant
            s == views(previous@),
            s == previous_positions(position@, opponent),
            all_wf(previous@),
            opponent == opponent_of(player),
            i <= previous.len(),
            forall|k: int| 0 <= k < i ==> (#[trigger] blocking_move(s[k].1, opponent)) is Some,
        decreases previous.len() - i,
    {
        assert(previous@[i as int].1.wf());
        if find_blocking_move(&previous[i].1, opponent).is_none() {
            assert(blocking_move(s[i as int].1, opponent) is None);
            return false;
        }
        i += 1;
    }
    true
}

} // verus!
