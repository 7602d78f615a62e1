//! Fixed-depth minimax search with immediate-win short cuts.
use vstd::prelude::*;
use crate::board::{opponent_of, BoardModel, ChessBallBoard, Player};
use crate::heuristics::{evaluate, evaluation};
use crate::moves::{all_wf, legal_moves, possible_moves, views, MoveInfo};
use crate::winning_moves::{
    ball_on_goal_row, lemma_wins_of_members, reaches_goal, winning_entry, winning_list, wins_of,
};

verus! {

/// A search score: a forced loss, a static score, or a forced win.
#[derive(Debug, Clone, Copy, PartialEq, Eq, Structural)]
pub enum Score {
    NegInfinity,
    Finite(i64),
    Infinity,
}

/// `a` is below `b`.
pub open spec fn score_lt(a: Score, b: Score) -> bool {
    match (a, b) {
        (Score::NegInfinity, Score::NegInfinity) => false,
        (Score::NegInfinity, _) => true,
        (Score::Finite(x), Score::Finite(y)) => x < y,
        (Score::Finite(_), Score::Infinity) => true,
        _ => false,
    }
}

impl Score {
    pub fn less_than(self, other: Score) -> (r: bool)
        ensures
            r == score_lt(self, other),
    {
        match (self, other) {
            (Score::NegInfinity, Score::NegInfinity) => false,
            (Score::NegInfinity, _) => true,
            (Score::Finite(x), Score::Finite(y)) => x < y,
            (Score::Finite(_), Score::Infinity) => true,
            _ => false,
        }
    }
}

/// The first entry of `s` whose board has the ball on the goal row of `p`.
pub open spec fn first_win(s: Seq<(MoveInfo, BoardModel)>, p: Player) -> Option<(MoveInfo, BoardModel)>
    decreases s.len(),
{
    if s.len() == 0 {
        None
    } else if reaches_goal(s[0].1, p) {
        Some(s[0])
    } else {
        first_win(s.drop_first(), p)
    }
}

pub open spec fn view_pair(x: Option<(MoveInfo, ChessBallBoard)>) -> Option<(MoveInfo, BoardModel)> {
    match x {
        Some(y) => Some((y.0, y.1@)),
        None => None,
    }
}

/// The first move of `player`, in the order of `possible_moves`, that puts
/// the ball on its goal row, with the board it leads to.
pub fn has_immediate_win(board: &ChessBallBoard, player: Player) -> (r: Option<(MoveInfo, ChessBallBoard)>)
    requires
        board.wf(),
    ensures
        view_pair(r) == first_win(legal_moves(board@, player), player),
        r matches Some(x) ==> x.1.wf(),
{
    let moves = possible_moves(board, player);
    let ghost s = views(moves@);
    let mut i: usize = 0;
    assert(s.skip(0) =~= s);
    while i < moves.len()
        invariant
            s == views(moves@),
            s == legal_moves(board@, player),
            all_wf(moves@),
            i <= moves.len(),
            first_win(s, player) == first_win(s.skip(i as int), player),
        decreases moves.len() - i,
    {
        assert(moves@[i as int].1.wf());
        assert(s.skip(i as int)[0] == s[i as int]);
        assert(s[i as int] == (moves@[i as int].0, moves@[i as int].1@));
        if ball_on_goal_row(&moves[i].1, player) {
            return Some((moves[i].0, moves[i].1.snapshot()));
        }
        assert(s.skip(i as int).drop_first() =~= s.skip(i as int + 1));
        i += 1;
    }
    None
}

/// The entry that `first_win` picks is one of `s` and wins; it picks one
/// whenever some entry of `s` wins.
pub proof fn lemma_first_win(s: Seq<(MoveInfo, BoardModel)>, p: Player)
    ensures
        first_win(s, p) matches Some(x) ==> s.contains(x) && reaches_goal(x.1, p),
        (exists|j: int| 0 <= j < s.len() && reaches_goal(#[trigger] s[j].1, p)) ==> first_win(s, p) is Some,
    decreases s.len(),
{
    if s.len() > 0 {
        lemma_first_win(s.drop_first(), p);
        if !reaches_goal(s[0].1, p) {
            if let Some(x) = first_win(s, p) {
                let j = choose|j: int| 0 <= j < s.drop_first().len() && s.drop_first()[j] == x;
                assert(s[j + 1] == x);
            }
            if exists|j: int| 0 <= j < s.len() && reaches_goal(#[trigger] s[j].1, p) {
                let j = choose|j: int| 0 <= j < s.len() && reaches_goal(#[trigger] s[j].1, p);
                assert(j > 0);
                assert(s.drop_first()[j - 1] == s[j]);
            }
        } else {
            assert(s[0] == s[0]);
        }
    }
}

/// The score and choice of a node where `to_move` moves, `ply` plies above
/// the leaves, maximizing or minimizing, with leaves scored for `root`.
pub open spec fn node_value(m: BoardModel, to_move: Player, ply: nat, maximizing: bool, root: Player) -> (
    Score,
    Option<(MoveInfo, BoardModel)>,
)
    decreases ply, 0nat, 0nat,
{
    let other = opponent_of(to_move);
    let moves = legal_moves(m, to_move);
    match first_win(moves, to_move) {
        Some(x) => (if maximizing { Score::Infinity } else { Score::NegInfinity }, Some(x)),
        None => if first_win(legal_moves(m, other), other) is Some {
            (if maximizing { Score::NegInfinity } else { Score::Infinity }, None)
        } else if ply == 0 || moves.len() == 0 {
            (Score::Finite(evaluation(m, root) as i64), None)
        } else {
            best_of(moves, other, (ply - 1) as nat, maximizing, root, moves.len())
        },
    }
}

/// The best of the first n entries of `s` for the side that chooses among
/// them (the highest child score when maximizing, the lowest otherwise; the
/// first one on ties), where each child is a node of `child_mover`. With n at
/// least one an entry is always chosen.
pub open spec fn best_of(
    s: Seq<(MoveInfo, BoardModel)>,
    child_mover: Player,
    ply: nat,
    maximizing: bool,
    root: Player,
    n: nat,
) -> (Score, Option<(MoveInfo, BoardModel)>)
    decreases ply, 1nat, n,
{
    if n == 0 {
        (if maximizing { Score::NegInfinity } else { Score::Infinity }, None)
    } else if n == 1 {
        (node_value(s[0].1, child_mover, ply, !maximizing, root).0, Some(s[0]))
    } else {
        let prev = best_of(s, child_mover, ply, maximizing, root, (n - 1) as nat);
        let v = node_value(s[n - 1].1, child_mover, ply, !maximizing, root).0;
        if (maximizing && score_lt(prev.0, v)) || (!maximizing && score_lt(v, prev.0)) {
            (v, Some(s[n - 1]))
        } else {
            prev
        }
    }
}

fn minimax(node: &ChessBallBoard, to_move: Player, ply: usize, maximizing: bool, root: Player) -> (r: (
    Score,
    Option<(MoveInfo, ChessBallBoard)>,
))
    requires
        node.wf(),
    ensures
        r.0 == node_value(node@, to_move, ply as nat, maximizing, root).0,
        view_pair(r.1) == node_value(node@, to_move, ply as nat, maximizing, root).1,
        r.1 matches Some(x) ==> x.1.wf(),
    decreases ply,
{
    if let Some((mv, after)) = has_immediate_win(node, to_move) {
        let score = if maximizing { Score::Infinity } else { Score::NegInfinity };
        return (score, Some((mv, after)));
    }
    let other = to_move.opponent();
    if has_immediate_win(node, other).is_some() {
        let score = if maximizing { Score::NegInfinity } else { Score::Infinity };
        return (score, None);
    }
    if ply == 0 {
        return (Score::Finite(evaluate(node, root)), None);
    }
    let moves = possible_moves(node, to_move);
    if moves.len() == 0 {
        return (Score::Finite(evaluate(node, root)), None);
    }
    let ghost s = views(moves@);
    let mut best = if maximizing { Score::NegInfinity } else { Score::Infinity };
    let mut best_index: Option<usize> = None;
    let mut i: usize = 0;
    while i < moves.len()
        invariant
            s == views(moves@),
            s == legal_moves(node@, to_move),
            all_wf(moves@),
            other == opponent_of(to_move),
            ply >= 1,
            i <= moves.len(),
            best == best_of(s, other, (ply - 1) as nat, maximizing, root, i as nat).0,
            best_index matches Some(k) ==> k < i && best_of(s, other, (ply - 1) as nat, maximizing, root, i as nat).1
                == Some(s[k as int]),
            best_index is None ==> i == 0,
        decreases moves.len() - i,
    {
        assert(moves@[i as int].1.wf());
        assert(s[i as int] == (moves@[i as int].0, moves@[i as int].1@));
        let (score, _) = minimax(&moves[i].1, other, ply - 1, !maximizing, root);
        if best_index.is_none() || (maximizing && best.less_than(score)) || (!maximizing && score.less_than(best)) {
            best = score;
            best_index = Some(i);
        }
        i += 1;
    }
    assert(i >= 1);
    match best_index {
        Some(k) => {
            assert(moves@[k as int].1.wf());
            assert(s[k as int] == (moves@[k as int].0, moves@[k as int].1@));
            (best, Some((moves[k].0, moves[k].1.snapshot())))
        },
        None => (best, None),
    }
}

/// Searches `depth` plies ahead for `player` and returns its choice of move,
/// the board it leads to, and the score: `Infinity` for a win now,
/// `NegInfinity` when the opponent cannot be kept from winning, a static
/// score for `player` otherwise.
pub fn choose_best_move(board: &ChessBallBoard, player: Player, depth: usize) -> (r: (
    Option<MoveInfo>,
    Option<ChessBallBoard>,
    Score,
))
    requires
        board.wf(),
    ensures
        r.2 == node_value(board@, player, depth as nat, true, player).0,
        (match node_value(board@, player, depth as nat, true, player).1 {
            Some(x) => r.0 == Some(x.0) && (r.1 matches Some(b) && b@ == x.1 && b.wf()),
            None => r.0 is None && r.1 is None,
        }),
        winning_list(board@, player).len() > 0 ==> r.2 == Score::Infinity && r.0 is Some && (r.1 matches Some(b)
            && reaches_goal(b@, player)),
        winning_list(board@, player).len() == 0 && winning_list(board@, opponent_of(player)).len() == 0 && depth >= 1
            && legal_moves(board@, player).len() > 0 ==> r.0 is Some && (r.1 matches Some(b) && legal_moves(
            board@,
            player,
        ).contains((r.0->0, b@))),
{
    proof {
        let s = legal_moves(board@, player);
        lemma_first_win(s, player);
        lemma_wins_of_members(s, player);
        if winning_list(board@, player).len() > 0 {
            assert(winning_entry(s, winning_list(board@, player)[0], player));
        }
        if winning_list(board@, player).len() == 0 && winning_list(board@, opponent_of(player)).len() == 0
            && depth >= 1 && s.len() > 0 {
            let q = opponent_of(player);
            lemma_first_win(legal_moves(board@, q), q);
            lemma_no_wins(s, player);
            lemma_no_wins(legal_moves(board@, q), q);
            lemma_best_of_chooses(s, q, (depth - 1) as nat, true, player, s.len());
        }
    }
    let (score, choice) = minimax(board, player, depth, true, player);
    match choice {
        Some((mv, after)) => (Some(mv), Some(after), score),
        None => (None, None, score),
    }
}

/// With no entry of `s` winning for `p`, `first_win` finds none.
proof fn lemma_no_wins(s: Seq<(MoveInfo, BoardModel)>, p: Player)
    requires
        wins_of(s, p).len() == 0,
    ensures
        first_win(s, p) is None,
{
    lemma_first_win(s, p);
    if let Some(x) = first_win(s, p) {
        let j = choose|j: int| 0 <= j < s.len() && s[j] == x;
        lemma_wins_of_has(s, p, j);
    }
}

/// An entry whose board wins for `p` puts a move in `wins_of(s, p)`.
proof fn lemma_wins_of_has(s: Seq<(MoveInfo, BoardModel)>, p: Player, j: int)
    requires
        0 <= j < s.len(),
        reaches_goal(s[j].1, p),
    ensures
        wins_of(s, p).len() > 0,
    decreases s.len(),
{
    if j < s.len() - 1 {
        assert(s.drop_last()[j] == s[j]);
        lemma_wins_of_has(s.drop_last(), p, j);
    } else {
        assert(s.last() == s[j]);
    }
}

/// Among at least one entry, `best_of` chooses one of them.
proof fn lemma_best_of_chooses(
    s: Seq<(MoveInfo, BoardModel)>,
    child_mover: Player,
    ply: nat,
    maximizing: bool,
    root: Player,
    n: nat,
)
    requires
        1 <= n <= s.len(),
    ensures
        best_of(s, child_mover, ply, maximizing, root, n).1 matches Some(x) && s.contains(x),
    decreases n,
{
    if n == 1 {
        assert(s[0] == s[0]);
    } else {
        lemma_best_of_chooses(s, child_mover, ply, maximizing, root, (n - 1) as nat);
        assert(s[n - 1] == s[n - 1]);
    }
}

/// When `p` can win at once, the search returns a winning move with the
/// score `Infinity`, whatever the depth.
pub proof fn lemma_search_takes_win(m: BoardModel, p: Player, depth: nat)
    requires
        winning_list(m, p).len() > 0,
    ensures
        node_value(m, p, depth, true, p).0 == Score::Infinity,
        node_value(m, p, depth, true, p).1 matches Some(x) && reaches_goal(x.1, p) && legal_moves(m, p).contains(
            x,
        ),
{
    let s = legal_moves(m, p);
    lemma_first_win(s, p);
    lemma_wins_of_members(s, p);
    assert(winning_entry(s, winning_list(m, p)[0], p));
}

} // verus!
