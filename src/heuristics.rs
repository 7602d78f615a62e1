//! Features of a position, seen from one side: counts and flags from which a
//! static score is made.
use vstd::prelude::*;
use crate::board::{opponent_of, BoardModel, Cell, ChessBallBoard, PieceType, Player};
use crate::moves::{cell, dir, direction, lemma_legal_moves_bound, legal_moves, owned_by, possible_moves, step};
use crate::win_avoidability::{is_win_avoidable_by_opponent, win_avoidable};
use crate::winning_moves::{winning_list, winning_moves};

verus! {

/// The ball's cell, the first ball in row-major order.
pub fn ball_pos(board: &ChessBallBoard) -> (res: Option<Cell>)
    requires
        board.wf(),
    ensures
        res matches Some(rc) ==> board@.ball_cell() == Some((rc.0 as int, rc.1 as int)),
        res is None ==> board@.ball_cell() is None,
{
    board.find_ball()
}

/// A piece of `p` stands right behind the ball at (br, bc), seen along
/// direction `d`, and could push it into the empty, allowed cell ahead.
pub open spec fn pusher_in_dir(m: BoardModel, p: Player, br: int, bc: int, d: int) -> bool {
    let (dr, dc) = dir(d);
    &&& m.inside(br - dr, bc - dc)
    &&& m.inside(br + dr, bc + dc)
    &&& !m.forbidden_col(bc + dc)
    &&& owned_by(m, br - dr, bc - dc, p)
    &&& m.at(br + dr, bc + dc) is None
}

/// Number of directions among 0 .. n in which `p` has a pusher.
pub open spec fn pushers_upto(m: BoardModel, p: Player, br: int, bc: int, n: nat) -> nat
    decreases n,
{
    if n == 0 {
        0
    } else {
        pushers_upto(m, p, br, bc, (n - 1) as nat) + if pusher_in_dir(m, p, br, bc, n - 1) {
            1nat
        } else {
            0nat
        }
    }
}

/// Number of pieces of `p` that could push the ball this ply.
pub open spec fn adjacent_pushers(m: BoardModel, p: Player) -> nat {
    match m.ball_cell() {
        Some(b) => pushers_upto(m, p, b.0, b.1, 8),
        None => 0,
    }
}

/// How many pieces of `player` stand behind the ball with an empty, allowed
/// cell beyond it, so that they could push it now.
pub fn count_adjacent_pushers(board: &ChessBallBoard, player: Player) -> (n: usize)
    requires
        board.wf(),
    ensures
        n == adjacent_pushers(board@, player),
        n <= 8,
{
    let ghost m = board@;
    match board.find_ball() {
        None => 0,
        Some((br, bc)) => {
            let mut count: usize = 0;
            let mut d: usize = 0;
            while d < 8
                invariant
                    board.wf(),
                    m == board@,
                    m.inside(br as int, bc as int),
                    d <= 8,
                    count == pushers_upto(m, player, br as int, bc as int, d as nat),
                    count <= d,
                decreases 8 - d,
            {
                let (dr, dc) = direction(d);
                let behind = step(board, br, bc, -dr, -dc);
                let ahead = step(board, br, bc, dr, dc);
                if let (Some((pr, pc)), Some((ar, ac))) = (behind, ahead) {
                    if !board.is_forbidden_col(ac) {
                        let own = match board.get_piece(pr, pc) {
                            Some(q) => q.player == player,
                            None => false,
                        };
                        if own && board.get_piece(ar, ac).is_none() {
                            count += 1;
                        }
                    }
                }
                d += 1;
            }
            count
        },
    }
}

/// The neighbour of the ball in direction `d` holds a piece of `p`
/// (`friendly`), or a piece of another owner (not `friendly`).
pub open spec fn neighbour_of_ball(m: BoardModel, p: Player, br: int, bc: int, d: int, friendly: bool) -> bool {
    let (dr, dc) = dir(d);
    &&& m.inside(br + dr, bc + dc)
    &&& m.at(br + dr, bc + dc) is Some
    &&& (m.at(br + dr, bc + dc)->0.player == p) == friendly
}

pub open spec fn neighbours_upto(m: BoardModel, p: Player, br: int, bc: int, n: nat, friendly: bool) -> nat
    decreases n,
{
    if n == 0 {
        0
    } else {
        neighbours_upto(m, p, br, bc, (n - 1) as nat, friendly) + if neighbour_of_ball(
            m,
            p,
            br,
            bc,
            n - 1,
            friendly,
        ) {
            1nat
        } else {
            0nat
        }
    }
}

/// (pieces of `p`, other pieces) among the eight cells around the ball.
pub open spec fn control(m: BoardModel, p: Player) -> (nat, nat) {
    match m.ball_cell() {
        Some(b) => (neighbours_upto(m, p, b.0, b.1, 8, true), neighbours_upto(m, p, b.0, b.1, 8, false)),
        None => (0, 0),
    }
}

/// Pieces of `player` and pieces of other owners on the eight cells around the ball.
pub fn count_control_around_ball(board: &ChessBallBoard, player: Player) -> (res: (usize, usize))
    requires
        board.wf(),
    ensures
        res.0 == control(board@, player).0,
        res.1 == control(board@, player).1,
        res.0 <= 8,
        res.1 <= 8,
{
    let ghost m = board@;
    match board.find_ball() {
        None => (0, 0),
        Some((br, bc)) => {
            let mut friendly: usize = 0;
            let mut enemy: usize = 0;
            let mut d: usize = 0;
            while d < 8
                invariant
                    board.wf(),
                    m == board@,
                    m.inside(br as int, bc as int),
                    d <= 8,
                    friendly == neighbours_upto(m, player, br as int, bc as int, d as nat, true),
                    enemy == neighbours_upto(m, player, br as int, bc as int, d as nat, false),
                    friendly <= d,
                    enemy <= d,
                decreases 8 - d,
            {
                let (dr, dc) = direction(d);
                if let Some((r, c)) = step(board, br, bc, dr, dc) {
                    if let Some(q) = board.get_piece(r, c) {
                        if q.player == player {
                            friendly += 1;
                        } else {
                            enemy += 1;
                        }
                    }
                }
                d += 1;
            }
            (friendly, enemy)
        },
    }
}

/// Number of legal moves of `player`.
pub fn mobility(board: &ChessBallBoard, player: Player) -> (n: usize)
    requires
        board.wf(),
    ensures
        n == legal_moves(board@, player).len(),
{
    possible_moves(board, player).len()
}

/// An opposing defender stands next to (r, c) in direction `d`, and the cell
/// on the other side of (r, c) is empty, so that the defender could tackle
/// the piece at (r, c) into it.
pub open spec fn threat_in_dir(m: BoardModel, p: Player, r: int, c: int, d: int) -> bool {
    let (dr, dc) = dir(d);
    &&& m.inside(r + dr, c + dc)
    &&& m.inside(r - dr, c - dc)
    &&& owned_by(m, r + dr, c + dc, opponent_of(p))
    &&& m.at(r + dr, c + dc)->0.piece_type == PieceType::Defender
    &&& m.at(r - dr, c - dc) is None
}

pub open spec fn threat_upto(m: BoardModel, p: Player, r: int, c: int, n: nat) -> bool
    decreases n,
{
    n > 0 && (threat_upto(m, p, r, c, (n - 1) as nat) || threat_in_dir(m, p, r, c, n - 1))
}

/// The piece at (r, c) belongs to `p`, is not the ball, and can be tackled.
pub open spec fn vulnerable_at(m: BoardModel, p: Player, r: int, c: int) -> bool {
    &&& owned_by(m, r, c, p)
    &&& m.at(r, c)->0.piece_type != PieceType::Ball
    &&& threat_upto(m, p, r, c, 8)
}

/// Number of vulnerable pieces of `p` in cells 0 .. n of row r.
pub open spec fn vulnerable_in_row(m: BoardModel, p: Player, r: int, n: nat) -> nat
    decreases n,
{
    if n == 0 {
        0
    } else {
        vulnerable_in_row(m, p, r, (n - 1) as nat) + if vulnerable_at(m, p, r, n - 1) {
            1nat
        } else {
            0nat
        }
    }
}

/// Number of vulnerable pieces of `p` in rows 0 .. n.
pub open spec fn vulnerable_in_rows(m: BoardModel, p: Player, n: nat) -> nat
    decreases n,
{
    if n == 0 {
        0
    } else {
        vulnerable_in_rows(m, p, (n - 1) as nat) + vulnerable_in_row(m, p, n - 1, m.cols)
    }
}

pub open spec fn vulnerable(m: BoardModel, p: Player) -> nat {
    vulnerable_in_rows(m, p, m.rows)
}

proof fn lemma_threat_mono(m: BoardModel, p: Player, r: int, c: int, n: nat, k: nat)
    requires
        threat_upto(m, p, r, c, n),
        n <= k,
    ensures
        threat_upto(m, p, r, c, k),
    decreases k - n,
{
    if n < k {
        lemma_threat_mono(m, p, r, c, n, (k - 1) as nat);
    }
}

/// Whether the piece of `player` at (r, c) can be tackled by an opposing defender.
fn is_vulnerable(board: &ChessBallBoard, player: Player, r: usize, c: usize) -> (v: bool)
    requires
        board.wf(),
        board@.inside(r as int, c as int),
    ensures
        v == vulnerable_at(board@, player, r as int, c as int),
{
    let ghost m = board@;
    let piece = match board.get_piece(r, c) {
        Some(q) => *q,
        None => {
            return false;
        },
    };
    if piece.player != player || piece.piece_type == PieceType::Ball {
        return false;
    }
    let opponent = player.opponent();
    let mut d: usize = 0;
    while d < 8
        invariant
            board.wf(),
            m == board@,
            m.inside(r as int, c as int),
            opponent == opponent_of(player),
            m.at(r as int, c as int) == Some(piece),
            piece.player == player,
            piece.piece_type != PieceType::Ball,
            d <= 8,
            !threat_upto(m, player, r as int, c as int, d as nat),
        decreases 8 - d,
    {
        let (dr, dc) = direction(d);
        let near = step(board, r, c, dr, dc);
        let far = step(board, r, c, -dr, -dc);
        if let (Some((nr, nc)), Some((fr, fc))) = (near, far) {
            if let Some(q) = board.get_piece(nr, nc) {
                if q.player == opponent && q.piece_type == PieceType::Defender && board.get_piece(fr, fc).is_none() {
                    assert(threat_upto(m, player, r as int, c as int, (d + 1) as nat));
                    proof {
                        lemma_threat_mono(m, player, r as int, c as int, (d + 1) as nat, 8);
                    }
                    return true;
                }
            }
        }
        d += 1;
    }
    false
}

proof fn lemma_vulnerable_bound(m: BoardModel, p: Player, r: int, n: nat)
    ensures
        vulnerable_in_row(m, p, r, n) <= n,
    decreases n,
{
    if n > 0 {
        lemma_vulnerable_bound(m, p, r, (n - 1) as nat);
    }
}

proof fn lemma_vulnerable_rows_bound(m: BoardModel, p: Player, n: nat)
    ensures
        vulnerable_in_rows(m, p, n) <= n * m.cols,
    decreases n,
{
    if n > 0 {
        lemma_vulnerable_rows_bound(m, p, (n - 1) as nat);
        lemma_vulnerable_bound(m, p, n - 1, m.cols);
        assert((n - 1) * m.cols + m.cols == n * m.cols) by (nonlinear_arith);
    }
}

/// How many pieces of `player` (the ball aside) an opposing defender next to
/// them could tackle into the empty cell on their other side.
pub fn vulnerable_pieces_count(board: &ChessBallBoard, player: Player) -> (n: usize)
    requires
        board.wf(),
    ensures
        n == vulnerable(board@, player),
        n <= board@.rows * board@.cols,
{
    let ghost m = board@;
    let rows = board.rows();
    let cols = board.cols();
    let mut count: usize = 0;
    let mut r: usize = 0;
    while r < rows
        invariant
            board.wf(),
            m == board@,
            rows == m.rows,
            cols == m.cols,
            r <= rows,
            count == vulnerable_in_rows(m, player, r as nat),
            count <= r * cols,
        decreases rows - r,
    {
        let ghost done = count;
        assert(r * cols <= 64 * 64) by (nonlinear_arith)
            requires
                r <= 64,
                cols <= 64,
        ;
        let mut c: usize = 0;
        while c < cols
            invariant
                board.wf(),
                m == board@,
                rows == m.rows,
                cols == m.cols,
                r < rows,
                c <= cols,
                done == vulnerable_in_rows(m, player, r as nat),
                done <= r * cols,
                r * cols <= 64 * 64,
                count == done + vulnerable_in_row(m, player, r as int, c as nat),
                count <= done + c,
            decreases cols - c,
        {
            if is_vulnerable(board, player, r, c) {
                count += 1;
            }
            c += 1;
        }
        assert(r * cols + cols == (r + 1) * cols) by (nonlinear_arith);
        r += 1;
    }
    proof {
        lemma_vulnerable_rows_bound(m, player, m.rows);
    }
    count
}

/// The piece at (r, c) belongs to another owner than `p` and is not the ball.
pub open spec fn opposing_at(m: BoardModel, p: Player, r: int, c: int) -> bool {
    m.at(r, c) is Some && m.at(r, c)->0.player != p && m.at(r, c)->0.piece_type != PieceType::Ball
}

pub open spec fn opposing_in_row(m: BoardModel, p: Player, r: int, n: nat) -> nat
    decreases n,
{
    if n == 0 {
        0
    } else {
        opposing_in_row(m, p, r, (n - 1) as nat) + if opposing_at(m, p, r, n - 1) {
            1nat
        } else {
            0nat
        }
    }
}

/// Opposing pieces in rows lo .. hi.
pub open spec fn opposing_in_rows(m: BoardModel, p: Player, lo: int, hi: int) -> nat
    decreases hi - lo,
{
    if hi <= lo {
        0
    } else {
        opposing_in_rows(m, p, lo, hi - 1) + opposing_in_row(m, p, hi - 1, m.cols)
    }
}

/// Opposing pieces strictly between the ball's row and the goal row of `p`.
pub open spec fn opposing_between(m: BoardModel, p: Player) -> nat {
    match m.ball_cell() {
        None => 0,
        Some(b) => if p == Player::Neutral {
            0
        } else {
            let goal = if p == Player::White { m.rows - 1 } else { 0 };
            let lo = if b.0 < goal { b.0 } else { goal };
            let hi = if b.0 < goal { goal } else { b.0 };
            if hi - lo <= 1 {
                0
            } else {
                opposing_in_rows(m, p, lo + 1, hi)
            }
        },
    }
}

proof fn lemma_opposing_row_bound(m: BoardModel, p: Player, r: int, n: nat)
    ensures
        opposing_in_row(m, p, r, n) <= n,
    decreases n,
{
    if n > 0 {
        lemma_opposing_row_bound(m, p, r, (n - 1) as nat);
    }
}

proof fn lemma_opposing_rows_bound(m: BoardModel, p: Player, lo: int, hi: int)
    requires
        lo <= hi,
    ensures
        opposing_in_rows(m, p, lo, hi) <= (hi - lo) * m.cols,
    decreases hi - lo,
{
    if lo < hi {
        lemma_opposing_rows_bound(m, p, lo, hi - 1);
        lemma_opposing_row_bound(m, p, hi - 1, m.cols);
        assert((hi - 1 - lo) * m.cols + m.cols == (hi - lo) * m.cols) by (nonlinear_arith);
    }
}

/// Pieces of other owners than `player` (the ball aside) in the rows strictly
/// between the ball's row and the goal row of `player`.
pub fn count_opponent_pieces_between_ball_and_goal(board: &ChessBallBoard, player: Player) -> (n: usize)
    requires
        board.wf(),
    ensures
        n == opposing_between(board@, player),
        n <= board@.rows * board@.cols,
{
    let ghost m = board@;
    let ball_row = match board.find_ball() {
        Some((br, _bc)) => br,
        None => {
            return 0;
        },
    };
    if player == Player::Neutral {
        return 0;
    }
    let goal = if player == Player::White { board.rows() - 1 } else { 0 };
    let start = if ball_row < goal { ball_row } else { goal };
    let end = if ball_row < goal { goal } else { ball_row };
    if end - start <= 1 {
        return 0;
    }
    let cols = board.cols();
    let mut count: usize = 0;
    let mut r: usize = start + 1;
    proof {
        lemma_opposing_rows_bound(m, player, start + 1, end as int);
        assert((end - (start + 1)) * m.cols <= m.rows * m.cols) by (nonlinear_arith)
            requires
                end - (start + 1) <= m.rows,
        ;
        assert(m.rows * m.cols <= 64 * 64) by (nonlinear_arith)
            requires
                m.rows <= 64,
                m.cols <= 64,
        ;
    }
    while r < end
        invariant
            board.wf(),
            m == board@,
            cols == m.cols,
            start + 1 <= r <= end,
            end < m.rows,
            count == opposing_in_rows(m, player, start + 1, r as int),
            opposing_in_rows(m, player, start + 1, end as int) <= 64 * 64,
        decreases end - r,
    {
        let ghost done = count;
        let mut c: usize = 0;
        proof {
            lemma_opposing_rows_bound(m, player, start + 1, r as int + 1);
            lemma_opposing_mono(m, player, start + 1, r as int + 1, end as int);
        }
        while c < cols
            invariant
                board.wf(),
                m == board@,
                cols == m.cols,
                r < end < m.rows,
                c <= cols,
                done == opposing_in_rows(m, player, start + 1, r as int),
                done + opposing_in_row(m, player, r as int, cols as nat) <= 64 * 64,
                count == done + opposing_in_row(m, player, r as int, c as nat),
            decreases cols - c,
        {
            proof {
                lemma_opposing_row_mono(m, player, r as int, (c + 1) as nat, cols as nat);
            }
            if let Some(q) = board.get_piece(r, c) {
                if q.player != player && q.piece_type != PieceType::Ball {
                    count += 1;
                }
            }
            c += 1;
        }
        r += 1;
    }
    count
}

proof fn lemma_opposing_row_mono(m: BoardModel, p: Player, r: int, n: nat, k: nat)
    requires
        n <= k,
    ensures
        opposing_in_row(m, p, r, n) <= opposing_in_row(m, p, r, k),
    decreases k - n,
{
    if n < k {
        lemma_opposing_row_mono(m, p, r, n, (k - 1) as nat);
    }
}

proof fn lemma_opposing_mono(m: BoardModel, p: Player, lo: int, hi: int, top: int)
    requires
        lo <= hi <= top,
    ensures
        opposing_in_rows(m, p, lo, hi) <= opposing_in_rows(m, p, lo, top),
    decreases top - hi,
{
    if hi < top {
        lemma_opposing_mono(m, p, lo, hi, top - 1);
    }
}

/// A piece of `p` stands right behind the ball, seen toward the goal row of
/// White (for White) or of Black (for the others), and the cell in front of
/// the ball is empty and in an allowed column: a push this turn would bring
/// the ball a row closer.
pub open spec fn pusher_behind(m: BoardModel, p: Player) -> bool {
    match m.ball_cell() {
        None => false,
        Some(b) => {
            let f: int = if p == Player::White { 1 } else { -1 };
            &&& m.inside(b.0 - f, b.1)
            &&& owned_by(m, b.0 - f, b.1, p)
            &&& m.inside(b.0 + f, b.1)
            &&& m.at(b.0 + f, b.1) is None
            &&& !m.forbidden_col(b.1)
        },
    }
}

pub fn has_pusher_behind(board: &ChessBallBoard, player: Player) -> (r: bool)
    requires
        board.wf(),
    ensures
        r == pusher_behind(board@, player),
{
    let (br, bc) = match board.find_ball() {
        Some(b) => b,
        None => {
            return false;
        },
    };
    let f: isize = if player == Player::White { 1 } else { -1 };
    let behind = step(board, br, bc, -f, 0);
    let front = step(board, br, bc, f, 0);
    match (behind, front) {
        (Some((hr, hc)), Some((fr, fc))) => {
            let own = match board.get_piece(hr, hc) {
                Some(q) => q.player == player,
                None => false,
            };
            own && board.get_piece(fr, fc).is_none() && !board.is_forbidden_col(fc)
        },
        _ => false,
    }
}

/// What a position offers one side: the raw counts and flags behind its score.
#[derive(Debug, Clone, Copy, PartialEq, Eq)]
pub struct Features {
    /// The side has a winning move.
    pub win_now: bool,
    /// Its opponent has a winning move.
    pub lose_now: bool,
    /// Where the ball is.
    pub ball: Option<Cell>,
    /// Own pieces that could push the ball now.
    pub adj_pushers: usize,
    /// Opposing pieces that could push the ball now.
    pub opp_adj_pushers: usize,
    /// Own pieces around the ball.
    pub control_friendly: usize,
    /// Other pieces around the ball.
    pub control_enemy: usize,
    /// Own legal moves.
    pub mobility: usize,
    /// Opposing legal moves.
    pub opp_mobility: usize,
    /// Own pieces that an opposing defender could tackle.
    pub vulnerable: usize,
    /// An own piece behind the ball could push it toward the goal now.
    pub pusher_behind: bool,
    /// The side has a winning move that the opponent could not have prevented.
    pub unavoidable_win: bool,
    /// Opposing pieces between the ball's row and the goal row.
    pub opp_between: usize,
}

pub open spec fn features_of(m: BoardModel, p: Player) -> Features {
    let q = opponent_of(p);
    let win_now = winning_list(m, p).len() > 0;
    Features {
        win_now,
        lose_now: winning_list(m, q).len() > 0,
        ball: match m.ball_cell() {
            Some(b) => Some(cell(b.0, b.1)),
            None => None,
        },
        adj_pushers: adjacent_pushers(m, p) as usize,
        opp_adj_pushers: adjacent_pushers(m, q) as usize,
        control_friendly: control(m, p).0 as usize,
        control_enemy: control(m, p).1 as usize,
        mobility: legal_moves(m, p).len() as usize,
        opp_mobility: legal_moves(m, q).len() as usize,
        vulnerable: vulnerable(m, p) as usize,
        pusher_behind: pusher_behind(m, p),
        unavoidable_win: win_now && !win_avoidable(m, p),
        opp_between: opposing_between(m, p) as usize,
    }
}

/// Bounds on the counts of a position.
pub open spec fn features_in_range(f: Features) -> bool {
    &&& f.adj_pushers <= 8
    &&& f.opp_adj_pushers <= 8
    &&& f.control_friendly <= 8
    &&& f.control_enemy <= 8
    &&& f.mobility <= 8 * 64 * 64
    &&& f.opp_mobility <= 8 * 64 * 64
    &&& f.vulnerable <= 64 * 64
    &&& f.opp_between <= 64 * 64
}

/// The features of `board` seen from `player`.
pub fn features(board: &ChessBallBoard, player: Player) -> (f: Features)
    requires
        board.wf(),
    ensures
        f == features_of(board@, player),
        features_in_range(f),
{
    let ghost m = board@;
    let opponent = player.opponent();
    let win_now = winning_moves(board, player).len() > 0;
    let lose_now = winning_moves(board, opponent).len() > 0;
    let (control_friendly, control_enemy) = count_control_around_ball(board, player);
    let unavoidable_win = win_now && !is_win_avoidable_by_opponent(board, player);
    proof {
        lemma_legal_moves_bound(m, player);
        lemma_legal_moves_bound(m, opponent);
        assert(m.rows * m.cols <= 64 * 64) by (nonlinear_arith)
            requires
                m.rows <= 64,
                m.cols <= 64,
        ;
    }
    Features {
        win_now,
        lose_now,
        ball: board.find_ball(),
        adj_pushers: count_adjacent_pushers(board, player),
        opp_adj_pushers: count_adjacent_pushers(board, opponent),
        control_friendly,
        control_enemy,
        mobility: mobility(board, player),
        opp_mobility: mobility(board, opponent),
        vulnerable: vulnerable_pieces_count(board, player),
        pusher_behind: has_pusher_behind(board, player),
        unavoidable_win,
        opp_between: count_opponent_pieces_between_ball_and_goal(board, player),
    }
}

pub open spec fn flag(b: bool, unit: int) -> int {
    if b {
        unit
    } else {
        0
    }
}

/// The terms of the score that depend on the ball: its progress toward the
/// goal row, a forbidden column, the push distance and its row.
pub open spec fn ball_terms(f: Features, p: Player, k: int, cols: int) -> int {
    match f.ball {
        Some(b) => {
            let br = b.0 as int;
            let bc = b.1 as int;
            let progress = if p == Player::White { br } else { k - br };
            let to_go = if p == Player::Black { br } else { k - br };
            let twice_left = 2 * to_go - (if f.pusher_behind { 1int } else { 0int });
            let twice_eff = if twice_left < 0 { 0 } else { twice_left };
            let row_value = if p == Player::Black { k - br } else { br };
            120 * progress + flag(bc == 0 || bc == cols - 1, 120 * k) + 60 * (2 * k - twice_eff) + 120 * row_value
        },
        None => 0 - 120 * k,
    }
}

/// The terms of the score made of counts.
pub open spec fn count_terms(f: Features, k: int) -> int {
    (15 * k) * (f.adj_pushers + f.opp_adj_pushers) + (15 * k) * (f.control_friendly - f.control_enemy) + (2 * k) * (
    f.mobility - f.opp_mobility) + (24 * k) * f.vulnerable + (24 * k) * f.opp_between
}

/// The static score of features `f` for `p` on a board of `rows` rows and
/// `cols` columns, in units of 1 / (120 * (rows - 1)): the sum of the win and
/// loss flags, ball progress, ball in a forbidden column, pushers / 8,
/// control / 8, mobility difference / 60, vulnerable pieces / 5, push
/// distance, the unavoidable-win flag, ball row, and opposing pieces ahead / 5.
pub open spec fn score_of_features(f: Features, p: Player, rows: int, cols: int) -> int {
    let k = rows - 1;
    flag(f.win_now, 120 * k) + flag(f.lose_now, 120 * k) + flag(f.unavoidable_win, 120 * k) + ball_terms(f, p, k, cols)
        + count_terms(f, k)
}

/// The static score of `m` for `p`.
pub open spec fn evaluation(m: BoardModel, p: Player) -> int {
    score_of_features(features_of(m, p), p, m.rows as int, m.cols as int)
}

fn times(a: i64, b: i64) -> (r: i64)
    requires
        0 <= a <= 2000,
        -100_000 <= b <= 100_000,
    ensures
        r == a * b,
        -200_000_000 <= r <= 200_000_000,
{
    assert(-200_000_000 <= a * b <= 200_000_000) by (nonlinear_arith)
        requires
            0 <= a <= 2000,
            -100_000 <= b <= 100_000,
    ;
    a * b
}

fn ball_score(f: &Features, player: Player, k: i64, cols: usize) -> (s: i64)
    requires
        1 <= k <= 63,
        1 <= cols <= 64,
        f.ball matches Some(b) ==> b.0 <= k,
    ensures
        s == ball_terms(*f, player, k as int, cols as int),
        -100_000 <= s <= 100_000,
{
    match f.ball {
        Some((br, bc)) => {
            let br = br as i64;
            let progress = if player == Player::White { br } else { k - br };
            let to_go = if player == Player::Black { br } else { k - br };
            let twice_left = 2 * to_go - if f.pusher_behind { 1 } else { 0 };
            let twice_eff = if twice_left < 0 { 0 } else { twice_left };
            let row_value = if player == Player::Black { k - br } else { br };
            let edge = if bc == 0 || bc == cols - 1 { 120 * k } else { 0 };
            120 * progress + edge + 60 * (2 * k - twice_eff) + 120 * row_value
        },
        None => 0 - 120 * k,
    }
}

fn count_score(f: &Features, k: i64) -> (s: i64)
    requires
        1 <= k <= 63,
        features_in_range(*f),
    ensures
        s == count_terms(*f, k as int),
        -1_000_000_000 <= s <= 1_000_000_000,
{
    let pushers = times(15 * k, f.adj_pushers as i64 + f.opp_adj_pushers as i64);
    let control = times(15 * k, f.control_friendly as i64 - f.control_enemy as i64);
    let mob = times(2 * k, f.mobility as i64 - f.opp_mobility as i64);
    let vuln = times(24 * k, f.vulnerable as i64);
    let between = times(24 * k, f.opp_between as i64);
    pushers + control + mob + vuln + between
}

/// The score of features `f` for `player` on a board of `rows` rows and `cols` columns.
pub fn score_features(f: &Features, player: Player, rows: usize, cols: usize) -> (s: i64)
    requires
        2 <= rows <= 64,
        1 <= cols <= 64,
        features_in_range(*f),
        f.ball matches Some(b) ==> b.0 < rows,
    ensures
        s == score_of_features(*f, player, rows as int, cols as int),
{
    let k: i64 = rows as i64 - 1;
    let unit: i64 = 120 * k;
    let flags: i64 = (if f.win_now { unit } else { 0 }) + (if f.lose_now { unit } else { 0 }) + (if f.unavoidable_win {
        unit
    } else {
        0
    });
    flags + ball_score(f, player, k, cols) + count_score(f, k)
}

/// The static score of `board` for `player`.
pub fn evaluate(board: &ChessBallBoard, player: Player) -> (s: i64)
    requires
        board.wf(),
    ensures
        s == evaluation(board@, player),
{
    let f = features(board, player);
    score_features(&f, player, board.rows(), board.cols())
}

} // verus!
