//! The board: a grid of cells, each empty or holding one piece, plus the
//! memory of the most recent defender tackle.
use vstd::prelude::*;

verus! {

/// Number of rows of a board made by `ChessBallBoard::new`.
pub const DEFAULT_ROWS: usize = 6;

/// Number of columns of a board made by `ChessBallBoard::new`.
pub const DEFAULT_COLS: usize = 7;

/// Largest number of rows, or of columns, that a board may have.
pub const MAX_SIDE: usize = 64;

#[derive(Debug, Clone, Copy, PartialEq, Eq, Structural)]
pub enum Player {
    White,
    Black,
    Neutral,
}

/// The side that plays against `p`; the neutral owner of the ball has none but itself.
pub open spec fn opponent_of(p: Player) -> Player {
    match p {
        Player::White => Player::Black,
        Player::Black => Player::White,
        Player::Neutral => Player::Neutral,
    }
}

pub open spec fn player_of_char(c: char) -> Option<Player> {
    if c == 'W' {
        Some(Player::White)
    } else if c == 'B' {
        Some(Player::Black)
    } else if c == 'N' {
        Some(Player::Neutral)
    } else {
        None
    }
}

pub open spec fn char_of_player(p: Player) -> char {
    match p {
        Player::White => 'W',
        Player::Black => 'B',
        Player::Neutral => 'N',
    }
}

impl Player {
    pub fn from_char(c: char) -> (r: Option<Self>)
        ensures
            r == player_of_char(c),
    {
        match c {
            'W' => Some(Player::White),
            'B' => Some(Player::Black),
            'N' => Some(Player::Neutral),
            _ => None,
        }
    }

    pub fn to_char(&self) -> (r: char)
        ensures
            r == char_of_player(*self),
            player_of_char(r) == Some(*self),
    {
        match self {
            Player::White => 'W',
            Player::Black => 'B',
            Player::Neutral => 'N',
        }
    }

    pub fn opponent(self) -> (r: Player)
        ensures
            r == opponent_of(self),
    {
        match self {
            Player::White => Player::Black,
            Player::Black => Player::White,
            Player::Neutral => Player::Neutral,
        }
    }
}

#[derive(Debug, Clone, Copy, PartialEq, Eq, Structural)]
pub enum PieceType {
    Attacker,
    Defender,
    Ball,
}

pub open spec fn kind_of_char(c: char) -> Option<PieceType> {
    if c == 'A' {
        Some(PieceType::Attacker)
    } else if c == 'D' {
        Some(PieceType::Defender)
    } else if c == 'B' {
        Some(PieceType::Ball)
    } else {
        None
    }
}

pub open spec fn char_of_kind(t: PieceType) -> char {
    match t {
        PieceType::Attacker => 'A',
        PieceType::Defender => 'D',
        PieceType::Ball => 'B',
    }
}

impl PieceType {
    pub fn from_char(c: char) -> (r: Option<Self>)
        ensures
            r == kind_of_char(c),
    {
        match c {
            'A' => Some(PieceType::Attacker),
            'D' => Some(PieceType::Defender),
            'B' => Some(PieceType::Ball),
            _ => None,
        }
    }

    pub fn to_char(&self) -> (r: char)
        ensures
            r == char_of_kind(*self),
            kind_of_char(r) == Some(*self),
    {
        match self {
            PieceType::Attacker => 'A',
            PieceType::Defender => 'D',
            PieceType::Ball => 'B',
        }
    }
}

#[derive(Debug, Clone, Copy, PartialEq, Eq, Structural)]
pub struct Piece {
    pub piece_type: PieceType,
    pub player: Player,
}

/// The ball, which belongs to neither side.
pub open spec fn ball_piece() -> Piece {
    Piece { piece_type: PieceType::Ball, player: Player::Neutral }
}

/// A cell of the board, as (row, column).
pub type Cell = (usize, usize);

/// The mathematical value of a board.
pub struct BoardModel {
    pub rows: nat,
    pub cols: nat,
    /// `cells[r][c]` is what stands at row `r`, column `c`.
    pub cells: Seq<Seq<Option<Piece>>>,
    /// (pushed from, pushed to) of the tackle that produced this board, if it was one.
    pub last_tackle: Option<(Cell, Cell)>,
}

impl BoardModel {
    pub open spec fn wf(self) -> bool {
        &&& 2 <= self.rows <= MAX_SIDE
        &&& 1 <= self.cols <= MAX_SIDE
        &&& self.cells.len() == self.rows
        &&& forall|r: int| 0 <= r < self.rows ==> (#[trigger] self.cells[r]).len() == self.cols
    }

    pub open spec fn inside(self, r: int, c: int) -> bool {
        0 <= r < self.rows && 0 <= c < self.cols
    }

    pub open spec fn at(self, r: int, c: int) -> Option<Piece> {
        self.cells[r][c]
    }

    pub open spec fn set(self, r: int, c: int, v: Option<Piece>) -> BoardModel {
        BoardModel { cells: self.cells.update(r, self.cells[r].update(c, v)), ..self }
    }

    pub open spec fn with_tackle(self, t: Option<(Cell, Cell)>) -> BoardModel {
        BoardModel { last_tackle: t, ..self }
    }

    /// A ball-destination column: the leftmost and the rightmost one are not.
    pub open spec fn forbidden_col(self, c: int) -> bool {
        c == 0 || c == self.cols - 1
    }

    pub open spec fn is_ball(self, r: int, c: int) -> bool {
        &&& self.inside(r, c)
        &&& self.at(r, c) is Some
        &&& self.at(r, c)->0.piece_type == PieceType::Ball
    }

    /// The ball at (r, c) comes first in row-major order.
    pub open spec fn first_ball_at(self, r: int, c: int) -> bool {
        &&& self.is_ball(r, c)
        &&& forall|r2: int, c2: int| #[trigger]
            self.is_ball(r2, c2) ==> !before(r2, c2, r, c)
    }

    /// Where the ball is: the first ball cell in row-major order.
    pub open spec fn ball_cell(self) -> Option<(int, int)> {
        if exists|rc: (int, int)| self.first_ball_at(rc.0, rc.1) {
            Some(choose|rc: (int, int)| self.first_ball_at(rc.0, rc.1))
        } else {
            None
        }
    }

    /// Exactly one cell holds the ball.
    pub open spec fn one_ball(self) -> bool {
        exists|br: int, bc: int|
            #![trigger self.is_ball(br, bc)]
            self.is_ball(br, bc) && forall|r: int, c: int| #[trigger]
                self.is_ball(r, c) ==> r == br && c == bc
    }
}

/// Row-major order of cells.
pub open spec fn before(r1: int, c1: int, r2: int, c2: int) -> bool {
    r1 < r2 || (r1 == r2 && c1 < c2)
}

pub open spec fn empty_model(rows: nat, cols: nat) -> BoardModel {
    BoardModel {
        rows,
        cols,
        cells: Seq::new(rows, |r: int| Seq::new(cols, |c: int| None::<Piece>)),
        last_tackle: None,
    }
}

pub open spec fn piece(player: Player, piece_type: PieceType) -> Option<Piece> {
    Some(Piece { piece_type, player })
}

/// The opening position: each side's defenders on its back row at columns
/// 1, 3 and 5, its attackers one row in at columns 2 and 4 (Black's back row
/// is row 0, White's the last row), and the ball on row 3, column 3.
pub open spec fn start_model() -> BoardModel {
    let e = empty_model(DEFAULT_ROWS as nat, DEFAULT_COLS as nat);
    let bd = piece(Player::Black, PieceType::Defender);
    let ba = piece(Player::Black, PieceType::Attacker);
    let wd = piece(Player::White, PieceType::Defender);
    let wa = piece(Player::White, PieceType::Attacker);
    e.set(0, 1, bd).set(0, 3, bd).set(0, 5, bd).set(1, 2, ba).set(1, 4, ba).set(3, 3, Some(ball_piece())).set(
        4,
        2,
        wa,
    ).set(4, 4, wa).set(5, 1, wd).set(5, 3, wd).set(5, 5, wd)
}

pub proof fn lemma_first_ball_unique(m: BoardModel, r: int, c: int)
    requires
        m.first_ball_at(r, c),
    ensures
        m.ball_cell() == Some((r, c)),
{
    assert(m.first_ball_at((r, c).0, (r, c).1));
    let rc = choose|rc: (int, int)| m.first_ball_at(rc.0, rc.1);
    assert(m.is_ball(rc.0, rc.1));
    assert(m.is_ball(r, c));
    assert(rc == (r, c));
}

#[derive(Debug, Clone)]
pub struct ChessBallBoard {
    rows: usize,
    cols: usize,
    cells: Vec<Vec<Option<Piece>>>,
    last_tackle: Option<(Cell, Cell)>,
}

impl View for ChessBallBoard {
    type V = BoardModel;

    closed spec fn view(&self) -> BoardModel {
        BoardModel {
            rows: self.rows as nat,
            cols: self.cols as nat,
            cells: self.cells@.map_values(|row: Vec<Option<Piece>>| row@),
            last_tackle: self.last_tackle,
        }
    }
}

impl ChessBallBoard {
    pub open spec fn wf(&self) -> bool {
        self@.wf()
    }

    pub fn rows(&self) -> (n: usize)
        ensures
            n == self@.rows,
    {
        self.rows
    }

    pub fn cols(&self) -> (n: usize)
        ensures
            n == self@.cols,
    {
        self.cols
    }

    /// An empty board of the default size.
    pub fn new() -> (b: Self)
        ensures
            b.wf(),
            b@ == empty_model(DEFAULT_ROWS as nat, DEFAULT_COLS as nat),
    {
        ChessBallBoard::with_size(DEFAULT_ROWS, DEFAULT_COLS)
    }

    /// An empty board of `rows` rows and `cols` columns.
    pub fn with_size(rows: usize, cols: usize) -> (b: Self)
        requires
            2 <= rows <= MAX_SIDE,
            1 <= cols <= MAX_SIDE,
        ensures
            b.wf(),
            b@ == empty_model(rows as nat, cols as nat),
    {
        let mut cells: Vec<Vec<Option<Piece>>> = Vec::new();
        let mut r: usize = 0;
        while r < rows
            invariant
                r <= rows,
                cells.len() == r,
                forall|i: int| 0 <= i < r ==> (#[trigger] cells@[i])@ == Seq::new(cols as nat, |c: int| None::<Piece>),
            decreases rows - r,
        {
            let mut row: Vec<Option<Piece>> = Vec::new();
            let mut c: usize = 0;
            while c < cols
                invariant
                    c <= cols,
                    row@ == Seq::new(c as nat, |k: int| None::<Piece>),
                decreases cols - c,
            {
                row.push(None);
                c += 1;
                assert(row@ =~= Seq::new(c as nat, |k: int| None::<Piece>));
            }
            cells.push(row);
            r += 1;
        }
        let b = ChessBallBoard { rows, cols, cells, last_tackle: None };
        assert(b@.cells =~= empty_model(rows as nat, cols as nat).cells);
        b
    }

    /// The board at the start of a game.
    pub fn start_position() -> (b: Self)
        ensures
            b.wf(),
            b@ == start_model(),
    {
        let black_d = Piece { piece_type: PieceType::Defender, player: Player::Black };
        let black_a = Piece { piece_type: PieceType::Attacker, player: Player::Black };
        let white_d = Piece { piece_type: PieceType::Defender, player: Player::White };
        let white_a = Piece { piece_type: PieceType::Attacker, player: Player::White };
        let mut b = ChessBallBoard::new();
        b.place_piece(0, 1, black_d);
        b.place_piece(0, 3, black_d);
        b.place_piece(0, 5, black_d);
        b.place_piece(1, 2, black_a);
        b.place_piece(1, 4, black_a);
        b.place_piece(3, 3, Piece { piece_type: PieceType::Ball, player: Player::Neutral });
        b.place_piece(4, 2, white_a);
        b.place_piece(4, 4, white_a);
        b.place_piece(5, 1, white_d);
        b.place_piece(5, 3, white_d);
        b.place_piece(5, 5, white_d);
        b
    }

    /// A board with the same cells and the same tackle memory.
    pub fn snapshot(&self) -> (b: Self)
        requires
            self.wf(),
        ensures
            b@ == self@,
    {
        let mut cells: Vec<Vec<Option<Piece>>> = Vec::new();
        let mut r: usize = 0;
        while r < self.rows
            invariant
                self.wf(),
                r <= self.rows,
                cells.len() == r,
                forall|i: int| 0 <= i < r ==> (#[trigger] cells@[i])@ == self@.cells[i],
            decreases self.rows - r,
        {
            let mut row: Vec<Option<Piece>> = Vec::new();
            let mut c: usize = 0;
            while c < self.cols
                invariant
                    self.wf(),
                    r < self.rows,
                    c <= self.cols,
                    row@ == self@.cells[r as int].subrange(0, c as int),
                decreases self.cols - c,
            {
                assert(self@.cells[r as int] == self.cells@[r as int]@);
                row.push(self.cells[r][c]);
                c += 1;
                assert(row@ =~= self@.cells[r as int].subrange(0, c as int));
            }
            assert(row@ =~= self@.cells[r as int]);
            cells.push(row);
            r += 1;
        }
        let b = ChessBallBoard { rows: self.rows, cols: self.cols, cells, last_tackle: self.last_tackle };
        assert(b@.cells =~= self@.cells);
        b
    }

    pub fn place_piece(&mut self, r: usize, c: usize, piece: Piece)
        requires
            old(self).wf(),
            r < old(self)@.rows,
            c < old(self)@.cols,
        ensures
            final(self)@ == old(self)@.set(r as int, c as int, Some(piece)),
    {
        self.set_cell(r, c, Some(piece));
    }

    pub fn remove_piece(&mut self, r: usize, c: usize)
        requires
            old(self).wf(),
            r < old(self)@.rows,
            c < old(self)@.cols,
        ensures
            final(self)@ == old(self)@.set(r as int, c as int, None),
    {
        self.set_cell(r, c, None);
    }

    fn set_cell(&mut self, r: usize, c: usize, v: Option<Piece>)
        requires
            old(self).wf(),
            r < old(self)@.rows,
            c < old(self)@.cols,
        ensures
            final(self)@ == old(self)@.set(r as int, c as int, v),
    {
        assert(self.cells@[r as int]@ == self@.cells[r as int]);
        self.cells[r].set(c, v);
        assert(self@.cells =~= old(self)@.set(r as int, c as int, v).cells);
    }

    /// Sets the memory of the latest tackle.
    pub fn set_last_tackle(&mut self, t: Option<(Cell, Cell)>)
        ensures
            final(self)@ == old(self)@.with_tackle(t),
    {
        self.last_tackle = t;
    }

    pub fn last_tackle(&self) -> (t: Option<(Cell, Cell)>)
        ensures
            t == self@.last_tackle,
    {
        self.last_tackle
    }

    pub fn get_piece(&self, r: usize, c: usize) -> (p: Option<&Piece>)
        requires
            self.wf(),
            r < self@.rows,
            c < self@.cols,
        ensures
            p matches Some(q) ==> self@.at(r as int, c as int) == Some(*q),
            p is None ==> self@.at(r as int, c as int) is None,
    {
        assert(self.cells@[r as int]@ == self@.cells[r as int]);
        self.cells[r][c].as_ref()
    }

    /// A mutable handle on the piece at (r, c); the rest of the board stays as it was.
    pub fn get_piece_mut(&mut self, r: usize, c: usize) -> (p: Option<&mut Piece>)
        requires
            old(self).wf(),
            r < old(self)@.rows,
            c < old(self)@.cols,
        ensures
            p matches Some(q) ==> old(self)@.at(r as int, c as int) == Some(*q)
                && final(self)@.at(r as int, c as int) == Some(*final(q)),
            p is None ==> old(self)@.at(r as int, c as int) is None
                && final(self)@.at(r as int, c as int) is None,
            final(self)@.rows == old(self)@.rows,
            final(self)@.cols == old(self)@.cols,
            final(self)@.last_tackle == old(self)@.last_tackle,
            forall|r2: int, c2: int|
                old(self)@.inside(r2, c2) && (r2, c2) != (r as int, c as int) ==> final(self)@.at(r2, c2)
                    == old(self)@.at(r2, c2),
    {
        let row: &mut Vec<Option<Piece>> = &mut self.cells[r];
        let cell: &mut Option<Piece> = &mut row[c];
        cell.as_mut()
    }

    /// The first cell in row-major order that holds the ball.
    pub fn find_ball(&self) -> (res: Option<Cell>)
        requires
            self.wf(),
        ensures
            res matches Some(rc) ==> self@.first_ball_at(rc.0 as int, rc.1 as int)
                && self@.ball_cell() == Some((rc.0 as int, rc.1 as int)),
            res is None ==> self@.ball_cell() is None
                && forall|r: int, c: int| !(#[trigger] self@.is_ball(r, c)),
    {
        let mut r: usize = 0;
        while r < self.rows
            invariant
                self.wf(),
                r <= self.rows,
                forall|r2: int, c2: int| r2 < r ==> !(#[trigger] self@.is_ball(r2, c2)),
            decreases self.rows - r,
        {
            let mut c: usize = 0;
            while c < self.cols
                invariant
                    self.wf(),
                    r < self.rows,
                    c <= self.cols,
                    forall|r2: int, c2: int|
                        before(r2, c2, r as int, c as int) ==> !(#[trigger] self@.is_ball(r2, c2)),
                decreases self.cols - c,
            {
                if let Some(p) = self.get_piece(r, c) {
                    if p.piece_type == PieceType::Ball {
                        proof {
                            assert(self@.first_ball_at(r as int, c as int));
                            lemma_first_ball_unique(self@, r as int, c as int);
                        }
                        return Some((r, c));
                    }
                }
                c += 1;
            }
            r += 1;
        }
        proof {
            assert forall|r2: int, c2: int| !(#[trigger] self@.first_ball_at(r2, c2)) by {
                if self@.first_ball_at(r2, c2) {
                    assert(self@.is_ball(r2, c2));
                }
            }
        }
        None
    }

    pub fn is_forbidden_col(&self, col: usize) -> (r: bool)
        requires
            self.wf(),
        ensures
            r == self@.forbidden_col(col as int),
    {
        col == 0 || col == self.cols - 1
    }
}

} // verus!
