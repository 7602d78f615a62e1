//! What every generated move does to the board.
use vstd::prelude::*;
use crate::board::{lemma_first_ball_unique, BoardModel, Cell, PieceType, Player};
use crate::moves::{cell, dir, dirs_gen, forward_move, legal_moves, owned_by, row_gen, rows_gen, MoveInfo};

verus! {

/// The entry `x` is the move of the piece of `p` at (r, c) in direction d.
pub open spec fn move_from_cell(m: BoardModel, p: Player, x: (MoveInfo, BoardModel), r: int, c: int, d: int) -> bool {
    &&& m.inside(r, c)
    &&& owned_by(m, r, c, p)
    &&& 0 <= d < 8
    &&& forward_move(m, p, r, c, d) == Some(x)
}

pub open spec fn generated(m: BoardModel, p: Player, x: (MoveInfo, BoardModel)) -> bool {
    exists|r: int, c: int, d: int| move_from_cell(m, p, x, r, c, d)
}

proof fn lemma_dirs_members(m: BoardModel, p: Player, r: int, c: int, n: nat)
    requires
        m.inside(r, c),
        owned_by(m, r, c, p),
        n <= 8,
    ensures
        forall|i: int| 0 <= i < dirs_gen(m, p, r, c, n, false).len() ==> generated(m, p, #[trigger] dirs_gen(m, p, r, c, n, false)[i]),
    decreases n,
{
    if n > 0 {
        lemma_dirs_members(m, p, r, c, (n - 1) as nat);
        let prev = dirs_gen(m, p, r, c, (n - 1) as nat, false);
        let all = dirs_gen(m, p, r, c, n, false);
        assert forall|i: int| 0 <= i < all.len() implies generated(m, p, #[trigger] all[i]) by {
            if i < prev.len() {
                assert(all[i] == prev[i]);
            } else {
                assert(move_from_cell(m, p, all[i], r, c, n - 1));
            }
        }
    }
}

proof fn lemma_row_members(m: BoardModel, p: Player, r: int, n: nat)
    requires
        0 <= r < m.rows,
        n <= m.cols,
    ensures
        forall|i: int| 0 <= i < row_gen(m, p, r, n, false).len() ==> generated(m, p, #[trigger] row_gen(m, p, r, n, false)[i]),
    decreases n,
{
    if n > 0 {
        lemma_row_members(m, p, r, (n - 1) as nat);
        let prev = row_gen(m, p, r, (n - 1) as nat, false);
        let all = row_gen(m, p, r, n, false);
        if owned_by(m, r, n - 1, p) {
            lemma_dirs_members(m, p, r, n - 1, 8);
        }
        assert forall|i: int| 0 <= i < all.len() implies generated(m, p, #[trigger] all[i]) by {
            if i < prev.len() {
                assert(all[i] == prev[i]);
            } else {
                assert(all[i] == dirs_gen(m, p, r, n - 1, 8, false)[i - prev.len()]);
            }
        }
    }
}

proof fn lemma_rows_members(m: BoardModel, p: Player, n: nat)
    requires
        n <= m.rows,
    ensures
        forall|i: int| 0 <= i < rows_gen(m, p, n, false).len() ==> generated(m, p, #[trigger] rows_gen(m, p, n, false)[i]),
    decreases n,
{
    if n > 0 {
        lemma_rows_members(m, p, (n - 1) as nat);
        lemma_row_members(m, p, n - 1, m.cols);
        let prev = rows_gen(m, p, (n - 1) as nat, false);
        let all = rows_gen(m, p, n, false);
        assert forall|i: int| 0 <= i < all.len() implies generated(m, p, #[trigger] all[i]) by {
            if i < prev.len() {
                assert(all[i] == prev[i]);
            } else {
                assert(all[i] == row_gen(m, p, n - 1, m.cols, false)[i - prev.len()]);
            }
        }
    }
}

/// Every legal move is the move of a piece of the mover in one direction.
pub proof fn lemma_legal_members(m: BoardModel, p: Player)
    ensures
        forall|i: int| 0 <= i < legal_moves(m, p).len() ==> generated(m, p, #[trigger] legal_moves(m, p)[i]),
{
    lemma_rows_members(m, p, m.rows);
}

pub open spec fn ints(x: Cell) -> (int, int) {
    (x.0 as int, x.1 as int)
}

/// The third cell that a move names: where the ball went for a push, where
/// the tackled piece went for a tackle.
pub open spec fn third_cell(mv: MoveInfo) -> Option<Cell> {
    if mv.push_ball {
        mv.ball_to
    } else if mv.tackle {
        mv.pushed_piece_to
    } else {
        None
    }
}

/// (r, c) is one of the cells that `mv` names.
pub open spec fn touches(mv: MoveInfo, r: int, c: int) -> bool {
    (r, c) == ints(mv.from) || (r, c) == ints(mv.to) || (third_cell(mv) matches Some(t) && (r, c) == ints(t))
}

/// The move `mv` from `m` to `nb` changes the cells it names, all of them and
/// no others: two distinct cells for a step or a jump, three for a push or a
/// tackle.
pub open spec fn changes_exactly(m: BoardModel, mv: MoveInfo, nb: BoardModel) -> bool {
    &&& nb.wf()
    &&& nb.rows == m.rows
    &&& nb.cols == m.cols
    &&& (mv.push_ball as int) + (mv.jump as int) + (mv.tackle as int) <= 1
    &&& (third_cell(mv) is Some) == (mv.push_ball || mv.tackle)
    &&& ints(mv.from) != ints(mv.to)
    &&& (third_cell(mv) matches Some(t) ==> ints(t) != ints(mv.from) && ints(t) != ints(mv.to))
    &&& forall|r: int, c: int| m.inside(r, c) ==> (nb.at(r, c) != m.at(r, c) <==> touches(mv, r, c))
}

proof fn lemma_forward_move_closed(m: BoardModel, p: Player, r: int, c: int, d: int)
    requires
        m.wf(),
        m.inside(r, c),
        owned_by(m, r, c, p),
        0 <= d < 8,
        forward_move(m, p, r, c, d) is Some,
        m.one_ball(),
    ensures
        forward_move(m, p, r, c, d) matches Some(x) && changes_exactly(m, x.0, x.1) && x.1.one_ball()
            && x.1.ball_cell() == Some(ball_after(m, x.0)),
{
    let (mv, nb) = forward_move(m, p, r, c, d)->0;
    let piece = m.at(r, c)->0;
    let (dr, dc) = dir(d);
    let (r1, c1) = (r + dr, c + dc);
    let (r2, c2) = (r + 2 * dr, c + 2 * dc);
    assert(dr != 0 || dc != 0);
    assert(ints(cell(r, c)) == (r, c));
    let (br, bc) = choose|br: int, bc: int|
        #![trigger m.is_ball(br, bc)]
        m.is_ball(br, bc) && forall|x: int, y: int| #[trigger] m.is_ball(x, y) ==> x == br && y == bc;
    if mv.push_ball {
        assert(m.is_ball(r1, c1));
        assert(piece.piece_type != PieceType::Ball) by {
            if piece.piece_type == PieceType::Ball {
                assert(m.is_ball(r, c));
            }
        }
    }
    assert(m.inside(r1, c1));
    assert(ints(cell(r1, c1)) == (r1, c1));
    assert(ints(mv.from) == (r, c));
    let third: Option<(int, int)> = if mv.push_ball || mv.tackle {
        Some((r2, c2))
    } else {
        None
    };
    if third is Some {
        assert(m.inside(r2, c2));
        assert(ints(cell(r2, c2)) == (r2, c2));
        assert(ints(third_cell(mv)->0) == (r2, c2));
    } else {
        assert(third_cell(mv) is None);
    }
    let to: (int, int) = if mv.jump { (r2, c2) } else { (r1, c1) };
    if mv.jump {
        assert(m.inside(r2, c2));
        assert(ints(cell(r2, c2)) == (r2, c2));
    }
    assert(ints(mv.to) == to);
    assert forall|x: int, y: int| m.inside(x, y) implies (nb.at(x, y) != m.at(x, y) <==> touches(mv, x, y)) by {
        if (x, y) != (r, c) && (x, y) != to && (third is None || (x, y) != third->0) {
            assert(nb.at(x, y) == m.at(x, y));
        }
    }
    assert(changes_exactly(m, mv, nb));
    {
        let nbc: (int, int) = if mv.push_ball {
            (r2, c2)
        } else if piece.piece_type == PieceType::Ball {
            to
        } else {
            (br, bc)
        };
        if mv.push_ball {
        } else if piece.piece_type == PieceType::Ball {
            assert(m.is_ball(r, c));
        } else {
            assert((br, bc) != (r, c));
            assert((br, bc) != to);
            assert(third is None || (br, bc) != third->0);
        }
        assert(nb.is_ball(nbc.0, nbc.1));
        assert forall|x: int, y: int| #[trigger] nb.is_ball(x, y) implies x == nbc.0 && y == nbc.1 by {
            if (x, y) != (r, c) && (x, y) != to && (third is None || (x, y) != third->0) {
                assert(nb.at(x, y) == m.at(x, y));
                assert(m.is_ball(x, y));
            }
        }
        assert(nb.one_ball());
        lemma_sole_ball(m, br, bc);
        lemma_sole_ball(nb, nbc.0, nbc.1);
        if !mv.push_ball && piece.piece_type != PieceType::Ball {
            assert(m.ball_cell() != Some(ints(mv.from)));
        }
    }
}

/// The cell of the only ball is where the ball is.
proof fn lemma_sole_ball(m: BoardModel, br: int, bc: int)
    requires
        m.is_ball(br, bc),
        forall|x: int, y: int| #[trigger] m.is_ball(x, y) ==> x == br && y == bc,
    ensures
        m.ball_cell() == Some((br, bc)),
{
    assert(m.first_ball_at(br, bc));
    lemma_first_ball_unique(m, br, bc);
}

/// Where the ball is after the move `mv` from `m`: where it was pushed, or
/// where the neutral side moved it, or where it was.
pub open spec fn ball_after(m: BoardModel, mv: MoveInfo) -> (int, int) {
    if mv.push_ball {
        ints(mv.ball_to->0)
    } else if m.ball_cell() == Some(ints(mv.from)) {
        ints(mv.to)
    } else {
        m.ball_cell()->0
    }
}

/// On a well-formed board with exactly one ball, every legal move of `p`
/// changes exactly the cells that it names (two for a step or a jump, three
/// for a push or a tackle), and the board it leads to has exactly one ball:
/// where it was pushed for a push, where it was otherwise (unless the neutral
/// side moved the ball itself).
pub proof fn lemma_moves_change_only_their_cells(m: BoardModel, p: Player)
    requires
        m.wf(),
        m.one_ball(),
    ensures
        forall|i: int|
            0 <= i < legal_moves(m, p).len() ==> changes_exactly(
                m,
                (#[trigger] legal_moves(m, p)[i]).0,
                legal_moves(m, p)[i].1,
            ) && legal_moves(m, p)[i].1.one_ball() && legal_moves(m, p)[i].1.ball_cell() == Some(
                ball_after(m, legal_moves(m, p)[i].0),
            ),
{
    lemma_legal_members(m, p);
    assert forall|i: int| 0 <= i < legal_moves(m, p).len() implies changes_exactly(
        m,
        (#[trigger] legal_moves(m, p)[i]).0,
        legal_moves(m, p)[i].1,
    ) && legal_moves(m, p)[i].1.one_ball() && legal_moves(m, p)[i].1.ball_cell() == Some(
        ball_after(m, legal_moves(m, p)[i].0),
    ) by {
        let x = legal_moves(m, p)[i];
        assert(generated(m, p, x));
        let (r, c, d) = choose|r: int, c: int, d: int| move_from_cell(m, p, x, r, c, d);
        lemma_forward_move_closed(m, p, r, c, d);
    }
}

/// a, b and c lie on one line, each next to the one before, in that order.
pub open spec fn in_line(a: Cell, b: Cell, c: Cell) -> bool {
    ints(c).0 == 2 * ints(b).0 - ints(a).0 && ints(c).1 == 2 * ints(b).1 - ints(a).1
}

/// No reply in `replies` undoes the tackle `t` (a move from A that pushed a
/// piece from B to C): none jumps over or tackles the piece at B from C, none
/// jumps over B onto A or tackles the piece at B back onto A, and none starts
/// from A, which the tackle left empty.
pub open spec fn no_retaliation(t: MoveInfo, replies: Seq<(MoveInfo, BoardModel)>) -> bool {
    forall|j: int|
        0 <= j < replies.len() ==> {
            let mv = (#[trigger] replies[j]).0;
            &&& !(mv.jump && mv.jumped_over == t.pushed_piece_from && Some(mv.from) == t.pushed_piece_to)
            &&& !(mv.tackle && mv.pushed_piece_from == t.pushed_piece_from && Some(mv.from) == t.pushed_piece_to)
            &&& !(mv.jump && mv.jumped_over == t.pushed_piece_from && mv.to == t.from)
            &&& !(mv.tackle && mv.pushed_piece_from == t.pushed_piece_from && mv.pushed_piece_to == Some(t.from))
            &&& mv.from != t.from
        }
}

proof fn lemma_tackle_memory(m: BoardModel, p: Player, x: (MoveInfo, BoardModel))
    requires
        m.wf(),
        generated(m, p, x),
        x.0.tackle,
    ensures
        x.0.pushed_piece_from is Some,
        x.0.pushed_piece_to is Some,
        x.1.last_tackle == Some((x.0.pushed_piece_from->0, x.0.pushed_piece_to->0)),
        m.inside(ints(x.0.from).0, ints(x.0.from).1),
        x.1.at(ints(x.0.from).0, ints(x.0.from).1) is None,
        in_line(x.0.from, x.0.pushed_piece_from->0, x.0.pushed_piece_to->0),
{
    let (r, c, d) = choose|r: int, c: int, d: int| move_from_cell(m, p, x, r, c, d);
    let (dr, dc) = dir(d);
    assert(dr != 0 || dc != 0);
    assert(ints(cell(r, c)) == (r, c));
    assert(ints(cell(r + dr, c + dc)) == (r + dr, c + dc));
    assert(ints(cell(r + 2 * dr, c + 2 * dc)) == (r + 2 * dr, c + 2 * dc));
}

proof fn lemma_reply_respects_memory(n: BoardModel, q: Player, y: (MoveInfo, BoardModel))
    requires
        n.wf(),
        generated(n, q, y),
    ensures
        y.0.jump ==> y.0.jumped_over is Some && n.last_tackle != Some((y.0.jumped_over->0, y.0.from)),
        y.0.tackle ==> y.0.pushed_piece_from is Some && n.last_tackle != Some((y.0.pushed_piece_from->0, y.0.from)),
        n.inside(ints(y.0.from).0, ints(y.0.from).1),
        n.at(ints(y.0.from).0, ints(y.0.from).1) is Some,
        y.0.jump ==> in_line(y.0.from, y.0.jumped_over->0, y.0.to),
        y.0.tackle ==> y.0.pushed_piece_to is Some && in_line(y.0.from, y.0.pushed_piece_from->0, y.0.pushed_piece_to->0),
{
    let (r, c, d) = choose|r: int, c: int, d: int| move_from_cell(n, q, y, r, c, d);
    let (dr, dc) = dir(d);
    assert(ints(cell(r, c)) == (r, c));
    if y.0.jump || y.0.tackle {
        assert(ints(cell(r + dr, c + dc)) == (r + dr, c + dc));
        assert(ints(cell(r + 2 * dr, c + 2 * dc)) == (r + 2 * dr, c + 2 * dc));
    }
}

/// After a tackle by `p` from A that pushed a piece from B to C, no legal
/// move of `q` on the resulting board jumps over or tackles the piece at B
/// from C (so none jumps over B onto A or tackles it back onto A), and none
/// starts from A.
pub proof fn lemma_no_immediate_retaliation(m: BoardModel, p: Player, q: Player)
    requires
        m.wf(),
    ensures
        forall|i: int|
            0 <= i < legal_moves(m, p).len() && (#[trigger] legal_moves(m, p)[i]).0.tackle ==> no_retaliation(
                legal_moves(m, p)[i].0,
                legal_moves(legal_moves(m, p)[i].1, q),
            ),
{
    lemma_legal_members(m, p);
    assert forall|i: int| 0 <= i < legal_moves(m, p).len() && (#[trigger] legal_moves(m, p)[i]).0.tackle implies no_retaliation(
        legal_moves(m, p)[i].0,
        legal_moves(legal_moves(m, p)[i].1, q),
    ) by {
        let x = legal_moves(m, p)[i];
        lemma_tackle_memory(m, p, x);
        let (r, c, d) = choose|r: int, c: int, d: int| move_from_cell(m, p, x, r, c, d);
        assert(x.1.wf());
        let replies = legal_moves(x.1, q);
        lemma_legal_members(x.1, q);
        assert forall|j: int| 0 <= j < replies.len() implies {
            let mv = (#[trigger] replies[j]).0;
            &&& !(mv.jump && mv.jumped_over == x.0.pushed_piece_from && Some(mv.from) == x.0.pushed_piece_to)
            &&& !(mv.tackle && mv.pushed_piece_from == x.0.pushed_piece_from && Some(mv.from) == x.0.pushed_piece_to)
            &&& !(mv.jump && mv.jumped_over == x.0.pushed_piece_from && mv.to == x.0.from)
            &&& !(mv.tackle && mv.pushed_piece_from == x.0.pushed_piece_from && mv.pushed_piece_to == Some(x.0.from))
            &&& mv.from != x.0.from
        } by {
            lemma_reply_respects_memory(x.1, q, replies[j]);
        }
    }
}

} // verus!
