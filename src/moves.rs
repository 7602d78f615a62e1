//! Move generation: the legal moves of a side, and the positions from which a
//! move of that side could have produced a given board.
use vstd::prelude::*;
use crate::board::{ball_piece, BoardModel, Cell, ChessBallBoard, Piece, PieceType, Player, MAX_SIDE};

verus! {

/// What a move did: where the piece went, and what else it moved.
#[derive(Debug, Clone, Copy, PartialEq, Eq)]
pub struct MoveInfo {
    pub from: Cell,
    pub to: Cell,
    pub push_ball: bool,
    pub ball_to: Option<Cell>,
    pub jump: bool,
    pub jumped_over: Option<Cell>,
    pub tackle: bool,
    pub pushed_piece_from: Option<Cell>,
    pub pushed_piece_to: Option<Cell>,
}

/// The kind of a move, with what each kind moves besides the piece.
#[derive(Debug, Clone, Copy, PartialEq, Eq)]
pub enum MoveKind {
    SimpleMove,
    BallPush { ball_to: Cell },
    AttackerJump { over: Cell },
    DefenderTackle { pushed_from: Cell, pushed_to: Cell },
}

pub open spec fn kind_of(mv: MoveInfo) -> MoveKind {
    if mv.push_ball && mv.ball_to is Some {
        MoveKind::BallPush { ball_to: mv.ball_to->0 }
    } else if mv.jump && mv.jumped_over is Some {
        MoveKind::AttackerJump { over: mv.jumped_over->0 }
    } else if mv.tackle && mv.pushed_piece_from is Some && mv.pushed_piece_to is Some {
        MoveKind::DefenderTackle { pushed_from: mv.pushed_piece_from->0, pushed_to: mv.pushed_piece_to->0 }
    } else {
        MoveKind::SimpleMove
    }
}

/// A cell given by integer coordinates.
pub open spec fn cell(r: int, c: int) -> Cell {
    (r as usize, c as usize)
}

pub open spec fn simple_info(from: Cell, to: Cell) -> MoveInfo {
    MoveInfo {
        from,
        to,
        push_ball: false,
        ball_to: None,
        jump: false,
        jumped_over: None,
        tackle: false,
        pushed_piece_from: None,
        pushed_piece_to: None,
    }
}

pub open spec fn push_info(from: Cell, to: Cell, ball_to: Cell) -> MoveInfo {
    MoveInfo { push_ball: true, ball_to: Some(ball_to), ..simple_info(from, to) }
}

pub open spec fn jump_info(from: Cell, to: Cell, over: Cell) -> MoveInfo {
    MoveInfo { jump: true, jumped_over: Some(over), ..simple_info(from, to) }
}

pub open spec fn tackle_info(from: Cell, to: Cell, pushed_from: Cell, pushed_to: Cell) -> MoveInfo {
    MoveInfo {
        tackle: true,
        pushed_piece_from: Some(pushed_from),
        pushed_piece_to: Some(pushed_to),
        ..simple_info(from, to)
    }
}

impl MoveInfo {
    /// What kind of move this is.
    pub fn kind(&self) -> (k: MoveKind)
        ensures
            k == kind_of(*self),
    {
        if self.push_ball && self.ball_to.is_some() {
            MoveKind::BallPush { ball_to: self.ball_to.unwrap() }
        } else if self.jump && self.jumped_over.is_some() {
            MoveKind::AttackerJump { over: self.jumped_over.unwrap() }
        } else if self.tackle && self.pushed_piece_from.is_some() && self.pushed_piece_to.is_some() {
            MoveKind::DefenderTackle { pushed_from: self.pushed_piece_from.unwrap(), pushed_to: self.pushed_piece_to.unwrap() }
        } else {
            MoveKind::SimpleMove
        }
    }

    /// A plain step from one cell to another.
    pub fn simple(from: Cell, to: Cell) -> (m: Self)
        ensures
            m == simple_info(from, to),
    {
        MoveInfo {
            from,
            to,
            push_ball: false,
            ball_to: None,
            jump: false,
            jumped_over: None,
            tackle: false,
            pushed_piece_from: None,
            pushed_piece_to: None,
        }
    }
}

/// The eight directions, as (row step, column step).
pub open spec fn dir(d: int) -> (int, int) {
    if d == 0 {
        (-1, 0)
    } else if d == 1 {
        (1, 0)
    } else if d == 2 {
        (0, -1)
    } else if d == 3 {
        (0, 1)
    } else if d == 4 {
        (-1, -1)
    } else if d == 5 {
        (-1, 1)
    } else if d == 6 {
        (1, -1)
    } else {
        (1, 1)
    }
}

pub fn direction(d: usize) -> (s: (isize, isize))
    requires
        d < 8,
    ensures
        s.0 as int == dir(d as int).0,
        s.1 as int == dir(d as int).1,
{
    if d == 0 {
        (-1, 0)
    } else if d == 1 {
        (1, 0)
    } else if d == 2 {
        (0, -1)
    } else if d == 3 {
        (0, 1)
    } else if d == 4 {
        (-1, -1)
    } else if d == 5 {
        (-1, 1)
    } else if d == 6 {
        (1, -1)
    } else {
        (1, 1)
    }
}

/// The cell (r + dr, c + dc), if it lies on the board.
pub open spec fn shift(m: BoardModel, r: int, c: int, dr: int, dc: int) -> Option<(int, int)> {
    if m.inside(r + dr, c + dc) {
        Some((r + dr, c + dc))
    } else {
        None
    }
}

pub open spec fn as_ints(o: Option<Cell>) -> Option<(int, int)> {
    match o {
        Some(p) => Some((p.0 as int, p.1 as int)),
        None => None,
    }
}

fn offset(x: usize, k: isize, bound: usize) -> (y: Option<usize>)
    requires
        x < bound <= MAX_SIDE,
        -2 <= k <= 2,
    ensures
        y == (if 0 <= x + k < bound { Some((x + k) as usize) } else { None::<usize> }),
{
    if k >= 0 {
        let y = x + k as usize;
        if y < bound {
            Some(y)
        } else {
            None
        }
    } else {
        let m = (-k) as usize;
        if x >= m {
            Some(x - m)
        } else {
            None
        }
    }
}

/// The cell (r + dr, c + dc) of `b`, if it lies on the board.
pub fn step(b: &ChessBallBoard, r: usize, c: usize, dr: isize, dc: isize) -> (res: Option<Cell>)
    requires
        b.wf(),
        b@.inside(r as int, c as int),
        -2 <= dr <= 2,
        -2 <= dc <= 2,
    ensures
        as_ints(res) == shift(b@, r as int, c as int, dr as int, dc as int),
{
    let nr = offset(r, dr, b.rows());
    let nc = offset(c, dc, b.cols());
    match (nr, nc) {
        (Some(x), Some(y)) => Some((x, y)),
        _ => None,
    }
}

/// The move that the piece of `p` at (r, c) makes in direction `d`, if any:
/// a step onto an empty cell, a push of the ball, an attacker's jump or a
/// defender's tackle. At most one of them applies.
pub open spec fn forward_move(m: BoardModel, p: Player, r: int, c: int, d: int) -> Option<(MoveInfo, BoardModel)> {
    let piece = m.at(r, c)->0;
    let (dr, dc) = dir(d);
    let (r1, c1) = (r + dr, c + dc);
    let (r2, c2) = (r + 2 * dr, c + 2 * dc);
    let origin = m.set(r, c, None).with_tackle(None);
    if !m.inside(r1, c1) {
        None
    } else if m.at(r1, c1) is None {
        Some((simple_info(cell(r, c), cell(r1, c1)), origin.set(r1, c1, Some(piece))))
    } else if m.at(r1, c1)->0.piece_type == PieceType::Ball {
        if m.inside(r2, c2) && m.at(r2, c2) is None && !m.forbidden_col(c2) {
            Some(
                (
                    push_info(cell(r, c), cell(r1, c1), cell(r2, c2)),
                    origin.set(r1, c1, Some(piece)).set(r2, c2, Some(ball_piece())),
                ),
            )
        } else {
            None
        }
    } else if m.inside(r2, c2) && m.at(r2, c2) is None && m.last_tackle != Some((cell(r1, c1), cell(r, c))) {
        if piece.piece_type == PieceType::Attacker {
            Some((jump_info(cell(r, c), cell(r2, c2), cell(r1, c1)), origin.set(r2, c2, Some(piece))))
        } else if piece.piece_type == PieceType::Defender && m.at(r1, c1)->0.player != p {
            Some(
                (
                    tackle_info(cell(r, c), cell(r1, c1), cell(r1, c1), cell(r2, c2)),
                    origin.set(r1, c1, Some(piece)).set(r2, c2, m.at(r1, c1)).with_tackle(
                        Some((cell(r1, c1), cell(r2, c2))),
                    ),
                ),
            )
        } else {
            None
        }
    } else {
        None
    }
}

pub open spec fn opt_seq<T>(o: Option<T>) -> Seq<T> {
    match o {
        Some(x) => seq![x],
        None => seq![],
    }
}

/// A step back from the cell behind (r, c) in direction `d`.
pub open spec fn back_simple(m: BoardModel, r: int, c: int, d: int) -> Seq<(MoveInfo, BoardModel)> {
    let (dr, dc) = dir(d);
    let (r1, c1) = (r - dr, c - dc);
    if m.inside(r1, c1) && m.at(r1, c1) is None {
        seq![(simple_info(cell(r1, c1), cell(r, c)), m.set(r, c, None).set(r1, c1, Some(m.at(r, c)->0)).with_tackle(None))]
    } else {
        seq![]
    }
}

/// A push that sent the ball from (r, c) to the cell ahead, where it is now.
pub open spec fn back_push(m: BoardModel, r: int, c: int, d: int) -> Seq<(MoveInfo, BoardModel)> {
    let (dr, dc) = dir(d);
    let (r1, c1) = (r - dr, c - dc);
    let (ra, ca) = (r + dr, c + dc);
    if m.inside(r1, c1) && m.at(r1, c1) is None && m.inside(ra, ca) && m.at(ra, ca) is Some
        && m.at(ra, ca)->0.piece_type == PieceType::Ball && !m.forbidden_col(ca) {
        seq![
            (
                push_info(cell(r1, c1), cell(r, c), cell(ra, ca)),
                m.set(ra, ca, None).set(r, c, Some(ball_piece())).set(r1, c1, Some(m.at(r, c)->0)).with_tackle(None),
            ),
        ]
    } else {
        seq![]
    }
}

/// An attacker's jump over the piece behind (r, c).
pub open spec fn back_jump(m: BoardModel, r: int, c: int, d: int) -> Seq<(MoveInfo, BoardModel)> {
    let piece = m.at(r, c)->0;
    let (dr, dc) = dir(d);
    let (r1, c1) = (r - dr, c - dc);
    let (r2, c2) = (r - 2 * dr, c - 2 * dc);
    if piece.piece_type == PieceType::Attacker && m.inside(r1, c1) && m.at(r1, c1) is Some
        && m.at(r1, c1)->0.piece_type != PieceType::Ball && m.inside(r2, c2) && m.at(r2, c2) is None {
        seq![
            (
                jump_info(cell(r2, c2), cell(r, c), cell(r1, c1)),
                m.set(r, c, None).set(r2, c2, Some(piece)).with_tackle(None),
            ),
        ]
    } else {
        seq![]
    }
}

/// A defender's tackle that pushed the opposing piece now ahead of (r, c) out of (r, c).
pub open spec fn back_tackle(m: BoardModel, p: Player, r: int, c: int, d: int) -> Seq<(MoveInfo, BoardModel)> {
    let piece = m.at(r, c)->0;
    let (dr, dc) = dir(d);
    let (r1, c1) = (r - dr, c - dc);
    let (ra, ca) = (r + dr, c + dc);
    if piece.piece_type == PieceType::Defender && m.inside(r1, c1) && m.at(r1, c1) is None && m.inside(ra, ca)
        && m.at(ra, ca) is Some && m.at(ra, ca)->0.player != p && m.at(ra, ca)->0.piece_type != PieceType::Ball {
        seq![
            (
                tackle_info(cell(r1, c1), cell(r, c), cell(r, c), cell(ra, ca)),
                m.set(r1, c1, Some(piece)).set(r, c, m.at(ra, ca)).set(ra, ca, None).with_tackle(None),
            ),
        ]
    } else {
        seq![]
    }
}

/// The positions from which the piece of `p` now at (r, c) could have arrived
/// by a move in direction `d`: a step, a push, a jump or a tackle, in that order.
/// The memory of the latest tackle is not reconstructed.
pub open spec fn backward_moves(m: BoardModel, p: Player, r: int, c: int, d: int) -> Seq<(MoveInfo, BoardModel)> {
    back_simple(m, r, c, d) + back_push(m, r, c, d) + back_jump(m, r, c, d) + back_tackle(m, p, r, c, d)
}

/// What direction `d` gives for the piece at (r, c): forward moves, or with
/// `retro` the positions it could have come from.
pub open spec fn dir_gen(m: BoardModel, p: Player, r: int, c: int, d: int, retro: bool) -> Seq<(MoveInfo, BoardModel)> {
    if retro {
        backward_moves(m, p, r, c, d)
    } else {
        opt_seq(forward_move(m, p, r, c, d))
    }
}

/// Directions 0 .. n, in order.
pub open spec fn dirs_gen(m: BoardModel, p: Player, r: int, c: int, n: nat, retro: bool) -> Seq<(MoveInfo, BoardModel)>
    decreases n,
{
    if n == 0 {
        seq![]
    } else {
        dirs_gen(m, p, r, c, (n - 1) as nat, retro) + dir_gen(m, p, r, c, n - 1, retro)
    }
}

pub open spec fn owned_by(m: BoardModel, r: int, c: int, p: Player) -> bool {
    m.at(r, c) is Some && m.at(r, c)->0.player == p
}

pub open spec fn cell_gen(m: BoardModel, p: Player, r: int, c: int, retro: bool) -> Seq<(MoveInfo, BoardModel)> {
    if owned_by(m, r, c, p) {
        dirs_gen(m, p, r, c, 8, retro)
    } else {
        seq![]
    }
}

/// Cells 0 .. n of row r, in order.
pub open spec fn row_gen(m: BoardModel, p: Player, r: int, n: nat, retro: bool) -> Seq<(MoveInfo, BoardModel)>
    decreases n,
{
    if n == 0 {
        seq![]
    } else {
        row_gen(m, p, r, (n - 1) as nat, retro) + cell_gen(m, p, r, n - 1, retro)
    }
}

/// Rows 0 .. n, in order.
pub open spec fn rows_gen(m: BoardModel, p: Player, n: nat, retro: bool) -> Seq<(MoveInfo, BoardModel)>
    decreases n,
{
    if n == 0 {
        seq![]
    } else {
        rows_gen(m, p, (n - 1) as nat, retro) + row_gen(m, p, n - 1, m.cols, retro)
    }
}

/// Every legal move of `p`, with the board it leads to: by origin cell in
/// row-major order, then by direction.
pub open spec fn legal_moves(m: BoardModel, p: Player) -> Seq<(MoveInfo, BoardModel)> {
    rows_gen(m, p, m.rows, false)
}

/// Every position from which a move of `p` could have led to `m`.
pub open spec fn previous_positions(m: BoardModel, p: Player) -> Seq<(MoveInfo, BoardModel)> {
    rows_gen(m, p, m.rows, true)
}

pub open spec fn views(s: Seq<(MoveInfo, ChessBallBoard)>) -> Seq<(MoveInfo, BoardModel)> {
    s.map_values(|x: (MoveInfo, ChessBallBoard)| (x.0, x.1@))
}

pub open spec fn all_wf(s: Seq<(MoveInfo, ChessBallBoard)>) -> bool {
    forall|i: int| 0 <= i < s.len() ==> (#[trigger] s[i]).1.wf()
}

proof fn lemma_views_push(s: Seq<(MoveInfo, ChessBallBoard)>, x: (MoveInfo, ChessBallBoard))
    ensures
        views(s.push(x)) == views(s).push((x.0, x.1@)),
{
    assert(views(s.push(x)) =~= views(s).push((x.0, x.1@)));
}

fn push_result(out: &mut Vec<(MoveInfo, ChessBallBoard)>, mv: MoveInfo, b: ChessBallBoard)
    requires
        all_wf(old(out)@),
        b.wf(),
    ensures
        views(final(out)@) == views(old(out)@).push((mv, b@)),
        all_wf(final(out)@),
{
    proof {
        lemma_views_push(out@, (mv, b));
    }
    out.push((mv, b));
}

/// Appends the forward move of the piece at (r, c) in direction d, if any.
fn forward_at(
    b: &ChessBallBoard,
    p: Player,
    r: usize,
    c: usize,
    d: usize,
    out: &mut Vec<(MoveInfo, ChessBallBoard)>,
)
    requires
        b.wf(),
        b@.inside(r as int, c as int),
        owned_by(b@, r as int, c as int, p),
        d < 8,
        all_wf(old(out)@),
    ensures
        views(final(out)@) == views(old(out)@) + opt_seq(forward_move(b@, p, r as int, c as int, d as int)),
        all_wf(final(out)@),
{
    let ghost m = b@;
    let piece = *b.get_piece(r, c).unwrap();
    let (dr, dc) = direction(d);
    let n1 = step(b, r, c, dr, dc);
    let n2 = step(b, r, c, 2 * dr, 2 * dc);
    let ghost produced = opt_seq(forward_move(m, p, r as int, c as int, d as int));
    if n1.is_none() {
        assert(views(out@) + produced =~= views(out@));
        return;
    }
    let (r1, c1) = n1.unwrap();
    let mut nb = b.snapshot();
    nb.remove_piece(r, c);
    nb.set_last_tackle(None);
    match b.get_piece(r1, c1) {
        None => {
            nb.place_piece(r1, c1, piece);
            push_result(out, MoveInfo::simple((r, c), (r1, c1)), nb);
            return;
        },
        Some(target) => {
            let target = *target;
            match n2 {
                None => {
                    assert(views(out@) + produced =~= views(out@));
                    return;
                },
                Some((r2, c2)) => {
                    let beyond_free = b.get_piece(r2, c2).is_none();
                    if target.piece_type == PieceType::Ball {
                        if beyond_free && !b.is_forbidden_col(c2) {
                            nb.place_piece(r1, c1, piece);
                            let ball = Piece { piece_type: PieceType::Ball, player: Player::Neutral };
                            nb.place_piece(r2, c2, ball);
                            let mut info = MoveInfo::simple((r, c), (r1, c1));
                            info.push_ball = true;
                            info.ball_to = Some((r2, c2));
                            push_result(out, info, nb);
                        } else {
                            assert(views(out@) + produced =~= views(out@));
                        }
                        return;
                    }
                    let reversing = match b.last_tackle() {
                        Some((x, y)) => x.0 == r1 && x.1 == c1 && y.0 == r && y.1 == c,
                        None => false,
                    };
                    if !beyond_free || reversing {
                        assert(views(out@) + produced =~= views(out@));
                        return;
                    }
                    if piece.piece_type == PieceType::Attacker {
                        nb.place_piece(r2, c2, piece);
                        let mut info = MoveInfo::simple((r, c), (r2, c2));
                        info.jump = true;
                        info.jumped_over = Some((r1, c1));
                        push_result(out, info, nb);
                    } else if piece.piece_type == PieceType::Defender && target.player != p {
                        nb.place_piece(r1, c1, piece);
                        nb.place_piece(r2, c2, target);
                        nb.set_last_tackle(Some(((r1, c1), (r2, c2))));
                        let mut info = MoveInfo::simple((r, c), (r1, c1));
                        info.tackle = true;
                        info.pushed_piece_from = Some((r1, c1));
                        info.pushed_piece_to = Some((r2, c2));
                        push_result(out, info, nb);
                    } else {
                        assert(views(out@) + produced =~= views(out@));
                    }
                },
            }
        },
    }
}

/// Appends the positions from which the piece at (r, c) could have come in direction d.
fn backward_at(
    b: &ChessBallBoard,
    p: Player,
    r: usize,
    c: usize,
    d: usize,
    out: &mut Vec<(MoveInfo, ChessBallBoard)>,
)
    requires
        b.wf(),
        b@.inside(r as int, c as int),
        owned_by(b@, r as int, c as int, p),
        d < 8,
        all_wf(old(out)@),
    ensures
        views(final(out)@) == views(old(out)@) + backward_moves(b@, p, r as int, c as int, d as int),
        all_wf(final(out)@),
{
    let ghost m = b@;
    let ghost (ri, ci, di) = (r as int, c as int, d as int);
    let ghost start = views(out@);
    let piece = *b.get_piece(r, c).unwrap();
    let (dr, dc) = direction(d);
    let back1 = step(b, r, c, -dr, -dc);
    let back2 = step(b, r, c, -2 * dr, -2 * dc);
    let ahead = step(b, r, c, dr, dc);
    let back_free = match back1 {
        Some((x, y)) => b.get_piece(x, y).is_none(),
        None => false,
    };
    let ahead_piece: Option<Piece> = match ahead {
        Some((x, y)) => match b.get_piece(x, y) {
            Some(q) => Some(*q),
            None => None,
        },
        None => None,
    };
    if back_free {
        let (r1, c1) = back1.unwrap();
        let mut nb = b.snapshot();
        nb.remove_piece(r, c);
        nb.place_piece(r1, c1, piece);
        nb.set_last_tackle(None);
        push_result(out, MoveInfo::simple((r1, c1), (r, c)), nb);
    }
    assert(views(out@) =~= start + back_simple(m, ri, ci, di));
    let ghost s1 = views(out@);
    if back_free && ahead_piece.is_some() {
        let (r1, c1) = back1.unwrap();
        let (ra, ca) = ahead.unwrap();
        if ahead_piece.unwrap().piece_type == PieceType::Ball && !b.is_forbidden_col(ca) {
            let mut nb = b.snapshot();
            nb.remove_piece(ra, ca);
            nb.place_piece(r, c, Piece { piece_type: PieceType::Ball, player: Player::Neutral });
            nb.place_piece(r1, c1, piece);
            nb.set_last_tackle(None);
            let mut info = MoveInfo::simple((r1, c1), (r, c));
            info.push_ball = true;
            info.ball_to = Some((ra, ca));
            push_result(out, info, nb);
        }
    }
    assert(views(out@) =~= s1 + back_push(m, ri, ci, di));
    let ghost s2 = views(out@);
    if piece.piece_type == PieceType::Attacker && back1.is_some() && back2.is_some() {
        let (r1, c1) = back1.unwrap();
        let (r2, c2) = back2.unwrap();
        let over_ok = match b.get_piece(r1, c1) {
            Some(q) => q.piece_type != PieceType::Ball,
            None => false,
        };
        if over_ok && b.get_piece(r2, c2).is_none() {
            let mut nb = b.snapshot();
            nb.remove_piece(r, c);
            nb.place_piece(r2, c2, piece);
            nb.set_last_tackle(None);
            let mut info = MoveInfo::simple((r2, c2), (r, c));
            info.jump = true;
            info.jumped_over = Some((r1, c1));
            push_result(out, info, nb);
        }
    }
    assert(views(out@) =~= s2 + back_jump(m, ri, ci, di));
    let ghost s3 = views(out@);
    if piece.piece_type == PieceType::Defender && back_free && ahead_piece.is_some() {
        let (r1, c1) = back1.unwrap();
        let (ra, ca) = ahead.unwrap();
        let victim = ahead_piece.unwrap();
        if victim.player != p && victim.piece_type != PieceType::Ball {
            let mut nb = b.snapshot();
            nb.place_piece(r1, c1, piece);
            nb.place_piece(r, c, victim);
            nb.remove_piece(ra, ca);
            nb.set_last_tackle(None);
            let mut info = MoveInfo::simple((r1, c1), (r, c));
            info.tackle = true;
            info.pushed_piece_from = Some((r, c));
            info.pushed_piece_to = Some((ra, ca));
            push_result(out, info, nb);
        }
    }
    assert(views(out@) =~= s3 + back_tackle(m, p, ri, ci, di));
    assert(views(out@) =~= start + backward_moves(m, p, ri, ci, di));
}

/// All moves of `p` on `b`, or with `retro` all positions it could have come from.
fn generate(b: &ChessBallBoard, p: Player, retro: bool) -> (res: Vec<(MoveInfo, ChessBallBoard)>)
    requires
        b.wf(),
    ensures
        views(res@) == rows_gen(b@, p, b@.rows, retro),
        all_wf(res@),
{
    let ghost m = b@;
    let mut out: Vec<(MoveInfo, ChessBallBoard)> = Vec::new();
    assert(views(out@) =~= rows_gen(m, p, 0, retro));
    let rows = b.rows();
    let cols = b.cols();
    let mut r: usize = 0;
    while r < rows
        invariant
            b.wf(),
            m == b@,
            rows == m.rows,
            cols == m.cols,
            r <= rows,
            views(out@) == rows_gen(m, p, r as nat, retro),
            all_wf(out@),
        decreases rows - r,
    {
        let ghost done = views(out@);
        assert(views(out@) =~= done + row_gen(m, p, r as int, 0, retro));
        let mut c: usize = 0;
        while c < cols
            invariant
                b.wf(),
                m == b@,
                rows == m.rows,
                cols == m.cols,
                r < rows,
                c <= cols,
                done == rows_gen(m, p, r as nat, retro),
                views(out@) == done + row_gen(m, p, r as int, c as nat, retro),
                all_wf(out@),
            decreases cols - c,
        {
            let ghost before_cell = views(out@);
            let owned = match b.get_piece(r, c) {
                Some(q) => q.player == p,
                None => false,
            };
            if owned {
                assert(before_cell =~= before_cell + dirs_gen(m, p, r as int, c as int, 0, retro));
                let mut d: usize = 0;
                while d < 8
                    invariant
                        b.wf(),
                        m == b@,
                        m.inside(r as int, c as int),
                        owned_by(m, r as int, c as int, p),
                        d <= 8,
                        views(out@) == before_cell + dirs_gen(m, p, r as int, c as int, d as nat, retro),
                        all_wf(out@),
                    decreases 8 - d,
                {
                    let ghost before_dir = views(out@);
                    if retro {
                        backward_at(b, p, r, c, d, &mut out);
                    } else {
                        forward_at(b, p, r, c, d, &mut out);
                    }
                    assert(views(out@) =~= before_cell + dirs_gen(m, p, r as int, c as int, (d + 1) as nat, retro));
                    d += 1;
                }
            }
            assert(views(out@) =~= before_cell + cell_gen(m, p, r as int, c as int, retro));
            assert(views(out@) =~= done + row_gen(m, p, r as int, (c + 1) as nat, retro));
            c += 1;
        }
        assert(views(out@) =~= rows_gen(m, p, (r + 1) as nat, retro));
        r += 1;
    }
    out
}

/// Every legal move of `player` on `board`, each with the board it leads to.
pub fn possible_moves(board: &ChessBallBoard, player: Player) -> (res: Vec<(MoveInfo, ChessBallBoard)>)
    requires
        board.wf(),
    ensures
        views(res@) == legal_moves(board@, player),
        all_wf(res@),
{
    generate(board, player, false)
}

/// Every position from which a move of `player` could have led to `board`,
/// each with the move that would have done it.
pub fn possible_previous_moves(board: &ChessBallBoard, player: Player) -> (res: Vec<(MoveInfo, ChessBallBoard)>)
    requires
        board.wf(),
    ensures
        views(res@) == previous_positions(board@, player),
        all_wf(res@),
{
    generate(board, player, true)
}

proof fn lemma_dirs_len(m: BoardModel, p: Player, r: int, c: int, n: nat)
    ensures
        dirs_gen(m, p, r, c, n, false).len() <= n,
    decreases n,
{
    if n > 0 {
        lemma_dirs_len(m, p, r, c, (n - 1) as nat);
    }
}

proof fn lemma_row_len(m: BoardModel, p: Player, r: int, n: nat)
    ensures
        row_gen(m, p, r, n, false).len() <= 8 * n,
    decreases n,
{
    if n > 0 {
        lemma_row_len(m, p, r, (n - 1) as nat);
        lemma_dirs_len(m, p, r, n - 1, 8);
    }
}

proof fn lemma_rows_len(m: BoardModel, p: Player, n: nat)
    ensures
        rows_gen(m, p, n, false).len() <= 8 * n * m.cols,
    decreases n,
{
    if n > 0 {
        lemma_rows_len(m, p, (n - 1) as nat);
        lemma_row_len(m, p, n - 1, m.cols);
        assert(8 * (n - 1) * m.cols + 8 * m.cols == 8 * n * m.cols) by (nonlinear_arith);
    }
}

/// A side has at most one move per direction from each of its cells.
pub proof fn lemma_legal_moves_bound(m: BoardModel, p: Player)
    requires
        m.wf(),
    ensures
        legal_moves(m, p).len() <= 8 * m.rows * m.cols,
        legal_moves(m, p).len() <= 8 * 64 * 64,
{
    lemma_rows_len(m, p, m.rows);
    assert(8 * m.rows * m.cols <= 8 * 64 * 64) by (nonlinear_arith)
        requires
            m.rows <= 64,
            m.cols <= 64,
    ;
}

/// The first entry of `s` whose move goes from `from` to `to`.
pub open spec fn first_matching(s: Seq<(MoveInfo, BoardModel)>, from: Cell, to: Cell) -> Option<(MoveInfo, BoardModel)>
    decreases s.len(),
{
    if s.len() == 0 {
        None
    } else if s[0].0.from == from && s[0].0.to == to {
        Some(s[0])
    } else {
        first_matching(s.drop_first(), from, to)
    }
}

/// Plays the first legal move of `player` from (r1, c1) to (r2, c2), if there
/// is one, and says whether there was.
pub fn try_apply_human_move(
    b: &mut ChessBallBoard,
    player: Player,
    r1: usize,
    c1: usize,
    r2: usize,
    c2: usize,
) -> (applied: bool)
    requires
        old(b).wf(),
    ensures
        final(b).wf(),
        (match first_matching(legal_moves(old(b)@, player), (r1, c1), (r2, c2)) {
            Some(x) => applied && final(b)@ == x.1,
            None => !applied && final(b)@ == old(b)@,
        }),
{
    let moves = possible_moves(b, player);
    let ghost s = views(moves@);
    let mut i: usize = 0;
    assert(s.skip(0) =~= s);
    while i < moves.len()
        invariant
            s == views(moves@),
            s == legal_moves(old(b)@, player),
            all_wf(moves@),
            b@ == old(b)@,
            b.wf(),
            i <= moves.len(),
            first_matching(s, (r1, c1), (r2, c2)) == first_matching(s.skip(i as int), (r1, c1), (r2, c2)),
        decreases moves.len() - i,
    {
        assert(s.skip(i as int)[0] == s[i as int]);
        assert(s[i as int] == (moves@[i as int].0, moves@[i as int].1@));
        assert(moves@[i as int].1.wf());
        let mv = moves[i].0;
        if mv.from.0 == r1 && mv.from.1 == c1 && mv.to.0 == r2 && mv.to.1 == c2 {
            *b = moves[i].1.snapshot();
            return true;
        }
        assert(s.skip(i as int).drop_first() =~= s.skip(i as int + 1));
        i += 1;
    }
    false
}

} // verus!
