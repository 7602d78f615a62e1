//! The board as text: one line per row, cells as two-character tokens
//! (owner letter, kind letter; `--` for an empty cell) separated by spaces.
use vstd::prelude::*;
use vstd::string::StringExecFns;
use crate::board::{
    char_of_kind, char_of_player, empty_model, kind_of_char, player_of_char, BoardModel, ChessBallBoard, Piece,
    PieceType, Player, DEFAULT_COLS, DEFAULT_ROWS,
};

verus! {

/// Unicode White_Space, the characters that separate tokens.
pub open spec fn is_space(c: char) -> bool {
    let u = c as u32;
    (0x9 <= u <= 0xd) || u == 0x20 || u == 0x85 || u == 0xa0 || u == 0x1680 || (0x2000 <= u <= 0x200a) || u
        == 0x2028 || u == 0x2029 || u == 0x202f || u == 0x205f || u == 0x3000
}

pub fn is_space_char(c: char) -> (r: bool)
    ensures
        r == is_space(c),
{
    let u = c as u32;
    (0x9 <= u && u <= 0xd) || u == 0x20 || u == 0x85 || u == 0xa0 || u == 0x1680 || (0x2000 <= u && u <= 0x200a)
        || u == 0x2028 || u == 0x2029 || u == 0x202f || u == 0x205f || u == 0x3000
}

/// Where splitting a text into lines of tokens stands: the finished lines
/// that hold tokens, the tokens of the current line, the current token.
pub struct Lexed {
    pub lines: Seq<Seq<Seq<char>>>,
    pub line: Seq<Seq<char>>,
    pub tok: Seq<char>,
}

pub open spec fn lexed_start() -> Lexed {
    Lexed { lines: seq![], line: seq![], tok: seq![] }
}

pub open spec fn close_token(st: Lexed) -> Lexed {
    if st.tok.len() > 0 {
        Lexed { line: st.line.push(st.tok), tok: seq![], ..st }
    } else {
        st
    }
}

/// Ends the current line; a line without tokens is dropped.
pub open spec fn close_line(st: Lexed) -> Lexed {
    let s1 = close_token(st);
    if s1.line.len() > 0 {
        Lexed { lines: s1.lines.push(s1.line), line: seq![], tok: seq![] }
    } else {
        s1
    }
}

pub open spec fn lex_char(st: Lexed, ch: char) -> Lexed {
    if ch == '\n' {
        close_line(st)
    } else if is_space(ch) {
        close_token(st)
    } else {
        Lexed { tok: st.tok.push(ch), ..st }
    }
}

pub open spec fn lex_from(st: Lexed, t: Seq<char>) -> Lexed
    decreases t.len(),
{
    if t.len() == 0 {
        st
    } else {
        lex_char(lex_from(st, t.drop_last()), t.last())
    }
}

/// The lines of `t` that hold tokens, each as its tokens: what splitting at
/// line breaks, trimming, dropping blank lines and splitting at white space gives.
pub open spec fn text_lines(t: Seq<char>) -> Seq<Seq<Seq<char>>> {
    close_line(lex_from(lexed_start(), t)).lines
}

/// Why a text is not a board.
pub enum ParseFailure {
    RowCount(nat, nat),
    ColCount(nat, nat, nat),
    InvalidToken(nat, nat, Seq<char>),
    UnknownPlayer(nat, nat, char),
    UnknownPiece(nat, nat, char),
}

/// Why a text is not a board; positions are (row, column) of the token.
#[derive(Debug, Clone, PartialEq, Eq)]
pub enum ParseError {
    /// The text has `found` lines with tokens where a board has `expected` rows.
    RowCount { expected: usize, found: usize },
    /// Row `row` has `found` tokens where a board has `expected` columns.
    ColCount { row: usize, expected: usize, found: usize },
    /// A token that is neither `--` nor two ASCII characters.
    InvalidToken { row: usize, col: usize, token: Vec<char> },
    /// A token whose first letter names no owner.
    UnknownPlayer { row: usize, col: usize, found: char },
    /// A token whose second letter names no kind of piece.
    UnknownPiece { row: usize, col: usize, found: char },
}

impl View for ParseError {
    type V = ParseFailure;

    open spec fn view(&self) -> ParseFailure {
        match self {
            ParseError::RowCount { expected, found } => ParseFailure::RowCount(*expected as nat, *found as nat),
            ParseError::ColCount { row, expected, found } => ParseFailure::ColCount(
                *row as nat,
                *expected as nat,
                *found as nat,
            ),
            ParseError::InvalidToken { row, col, token } => ParseFailure::InvalidToken(
                *row as nat,
                *col as nat,
                token@,
            ),
            ParseError::UnknownPlayer { row, col, found } => ParseFailure::UnknownPlayer(
                *row as nat,
                *col as nat,
                *found,
            ),
            ParseError::UnknownPiece { row, col, found } => ParseFailure::UnknownPiece(*row as nat, *col as nat, *found),
        }
    }
}

/// Why a token stands for no cell.
pub enum TokenFault {
    Malformed,
    Owner,
    Kind,
}

/// What a token stands for: an empty cell, a piece, or a fault.
pub open spec fn token_value(tok: Seq<char>) -> Result<Option<Piece>, TokenFault> {
    if tok == seq!['-', '-'] {
        Ok(None)
    } else if tok.len() != 2 || tok[0] as u32 >= 128 || tok[1] as u32 >= 128 {
        Err(TokenFault::Malformed)
    } else {
        match player_of_char(tok[0]) {
            None => Err(TokenFault::Owner),
            Some(player) => match kind_of_char(tok[1]) {
                None => Err(TokenFault::Kind),
                Some(piece_type) => Ok(Some(Piece { piece_type, player })),
            },
        }
    }
}

pub open spec fn token_failure(tok: Seq<char>, r: nat, c: nat) -> ParseFailure {
    match token_value(tok) {
        Err(TokenFault::Owner) => ParseFailure::UnknownPlayer(r, c, tok[0]),
        Err(TokenFault::Kind) => ParseFailure::UnknownPiece(r, c, tok[1]),
        _ => ParseFailure::InvalidToken(r, c, tok),
    }
}

/// Places the first n tokens of row r on `m`, stopping at the first bad one.
pub open spec fn fill_cells(m: BoardModel, toks: Seq<Seq<char>>, r: nat, n: nat) -> Result<BoardModel, ParseFailure>
    decreases n,
{
    if n == 0 {
        Ok(m)
    } else {
        match fill_cells(m, toks, r, (n - 1) as nat) {
            Err(e) => Err(e),
            Ok(m1) => match token_value(toks[n - 1]) {
                Err(_) => Err(token_failure(toks[n - 1], r, (n - 1) as nat)),
                Ok(None) => Ok(m1),
                Ok(Some(pc)) => Ok(m1.set(r as int, n - 1, Some(pc))),
            },
        }
    }
}

pub open spec fn fill_row(m: BoardModel, toks: Seq<Seq<char>>, r: nat) -> Result<BoardModel, ParseFailure> {
    if toks.len() != m.cols {
        Err(ParseFailure::ColCount(r, m.cols, toks.len()))
    } else {
        fill_cells(m, toks, r, toks.len())
    }
}

/// Places rows 0 .. n, stopping at the first bad one.
pub open spec fn fill_rows(m: BoardModel, ls: Seq<Seq<Seq<char>>>, n: nat) -> Result<BoardModel, ParseFailure>
    decreases n,
{
    if n == 0 {
        Ok(m)
    } else {
        match fill_rows(m, ls, (n - 1) as nat) {
            Err(e) => Err(e),
            Ok(m1) => fill_row(m1, ls[n - 1], (n - 1) as nat),
        }
    }
}

/// The board of the default size that the text `t` describes, or why there
/// is none: one line with tokens per row, one token per column.
pub open spec fn parse_text(t: Seq<char>) -> Result<BoardModel, ParseFailure> {
    let ls = text_lines(t);
    if ls.len() != DEFAULT_ROWS {
        Err(ParseFailure::RowCount(DEFAULT_ROWS as nat, ls.len()))
    } else {
        fill_rows(empty_model(DEFAULT_ROWS as nat, DEFAULT_COLS as nat), ls, DEFAULT_ROWS as nat)
    }
}

pub open spec fn token_text(x: Option<Piece>) -> Seq<char> {
    match x {
        None => seq!['-', '-'],
        Some(p) => seq![char_of_player(p.player), char_of_kind(p.piece_type)],
    }
}

/// The first k tokens of row r, separated by spaces.
pub open spec fn cells_text(m: BoardModel, r: int, k: nat) -> Seq<char>
    decreases k,
{
    if k == 0 {
        seq![]
    } else if k == 1 {
        token_text(m.at(r, 0))
    } else {
        cells_text(m, r, (k - 1) as nat) + seq![' '] + token_text(m.at(r, k - 1))
    }
}

pub open spec fn row_text(m: BoardModel, r: int) -> Seq<char> {
    cells_text(m, r, m.cols) + seq!['\n']
}

pub open spec fn rows_text(m: BoardModel, n: nat) -> Seq<char>
    decreases n,
{
    if n == 0 {
        seq![]
    } else {
        rows_text(m, (n - 1) as nat) + row_text(m, n - 1)
    }
}

/// The text of a board: each row on a line of its own, ended by a line break.
pub open spec fn board_text(m: BoardModel) -> Seq<char> {
    rows_text(m, m.rows)
}

fn chars_of(s: &str) -> (v: Vec<char>)
    ensures
        v@ == s@,
{
    let mut v: Vec<char> = Vec::new();
    for ch in it: s.chars()
        invariant
            v@ == it.seq().take(it.index()),
    {
        v.push(ch);
    }
    v
}

fn copy_chars(v: &Vec<char>) -> (w: Vec<char>)
    ensures
        w@ == v@,
{
    let mut w: Vec<char> = Vec::new();
    let mut i: usize = 0;
    while i < v.len()
        invariant
            i <= v.len(),
            w@ == v@.take(i as int),
        decreases v.len() - i,
    {
        w.push(v[i]);
        i += 1;
        assert(w@ =~= v@.take(i as int));
    }
    assert(w@ =~= v@);
    w
}

pub open spec fn tokens_view(l: Seq<Vec<char>>) -> Seq<Seq<char>> {
    l.map_values(|t: Vec<char>| t@)
}

pub open spec fn lines_view(ls: Seq<Vec<Vec<char>>>) -> Seq<Seq<Seq<char>>> {
    ls.map_values(|l: Vec<Vec<char>>| tokens_view(l@))
}

/// Splits `t` into its lines that hold tokens, each as its tokens.
fn split_lines(t: &Vec<char>) -> (ls: Vec<Vec<Vec<char>>>)
    ensures
        lines_view(ls@) == text_lines(t@),
{
    let mut lines: Vec<Vec<Vec<char>>> = Vec::new();
    let mut line: Vec<Vec<char>> = Vec::new();
    let mut tok: Vec<char> = Vec::new();
    let mut i: usize = 0;
    assert(t@.take(0) =~= Seq::<char>::empty());
    assert(lines_view(lines@) =~= seq![]);
    assert(tokens_view(line@) =~= seq![]);
    while i < t.len()
        invariant
            i <= t.len(),
            lines_view(lines@) == lex_from(lexed_start(), t@.take(i as int)).lines,
            tokens_view(line@) == lex_from(lexed_start(), t@.take(i as int)).line,
            tok@ == lex_from(lexed_start(), t@.take(i as int)).tok,
        decreases t.len() - i,
    {
        let ghost before = lex_from(lexed_start(), t@.take(i as int));
        assert(t@.take(i as int + 1).drop_last() =~= t@.take(i as int));
        let ch = t[i];
        let ends_line = ch == '\n';
        if ends_line || is_space_char(ch) {
            if tok.len() > 0 {
                line.push(tok);
                tok = Vec::new();
                assert(tokens_view(line@) =~= close_token(before).line);
            }
            if ends_line && line.len() > 0 {
                lines.push(line);
                line = Vec::new();
                assert(lines_view(lines@) =~= close_line(before).lines);
                assert(tokens_view(line@) =~= seq![]);
            }
        } else {
            tok.push(ch);
        }
        i += 1;
    }
    assert(t@.take(t.len() as int) =~= t@);
    let ghost end = lex_from(lexed_start(), t@);
    if tok.len() > 0 {
        line.push(tok);
        assert(tokens_view(line@) =~= close_token(end).line);
    }
    if line.len() > 0 {
        lines.push(line);
        assert(lines_view(lines@) =~= close_line(end).lines);
    }
    lines
}

proof fn lemma_fill_cells_err(m: BoardModel, toks: Seq<Seq<char>>, r: nat, k: nat, n: nat)
    requires
        fill_cells(m, toks, r, k) is Err,
        k <= n,
    ensures
        fill_cells(m, toks, r, n) == fill_cells(m, toks, r, k),
    decreases n - k,
{
    if k < n {
        lemma_fill_cells_err(m, toks, r, k, (n - 1) as nat);
    }
}

proof fn lemma_fill_rows_err(m: BoardModel, ls: Seq<Seq<Seq<char>>>, k: nat, n: nat)
    requires
        fill_rows(m, ls, k) is Err,
        k <= n,
    ensures
        fill_rows(m, ls, n) == fill_rows(m, ls, k),
    decreases n - k,
{
    if k < n {
        lemma_fill_rows_err(m, ls, k, (n - 1) as nat);
    }
}

impl ChessBallBoard {
    /// Reads a board of the default size from its text: a line of tokens per
    /// row (blank lines are skipped), a token per column, separated by white
    /// space; `--` for an empty cell, else an owner letter (W, B, N) and a kind
    /// letter (A, D, B).
    pub fn from_repr(s: &str) -> (r: Result<ChessBallBoard, ParseError>)
        ensures
            r matches Ok(b) ==> b.wf() && parse_text(s@) == Ok::<BoardModel, ParseFailure>(b@),
            r matches Err(e) ==> parse_text(s@) == Err::<BoardModel, ParseFailure>(e@),
    {
        let chars = chars_of(s);
        let lines = split_lines(&chars);
        let ghost ls = lines_view(lines@);
        let nrows = DEFAULT_ROWS;
        let ncols = DEFAULT_COLS;
        if lines.len() != nrows {
            return Err(ParseError::RowCount { expected: nrows, found: lines.len() });
        }
        let mut board = ChessBallBoard::new();
        let ghost start = board@;
        assert(parse_text(s@) == fill_rows(start, ls, nrows as nat));
        let mut r: usize = 0;
        while r < lines.len()
            invariant
                ls == lines_view(lines@),
                ls == text_lines(s@),
                lines.len() == nrows,
                nrows == DEFAULT_ROWS,
                ncols == DEFAULT_COLS,
                parse_text(s@) == fill_rows(start, ls, nrows as nat),
                start == empty_model(nrows as nat, ncols as nat),
                r <= lines.len(),
                board.wf(),
                board@.rows == nrows,
                board@.cols == ncols,
                fill_rows(start, ls, r as nat) == Ok::<BoardModel, ParseFailure>(board@),
            decreases lines.len() - r,
        {
            let toks = &lines[r];
            let ghost tv = tokens_view(toks@);
            assert(tv == ls[r as int]);
            if toks.len() != ncols {
                proof {
                    lemma_fill_rows_err(start, ls, (r + 1) as nat, nrows as nat);
                }
                return Err(ParseError::ColCount { row: r, expected: ncols, found: toks.len() });
            }
            let ghost row_start = board@;
            let mut c: usize = 0;
            while c < toks.len()
                invariant
                    tv == tokens_view(toks@),
                    toks.len() == ncols,
                    r < nrows,
                    c <= toks.len(),
                    board.wf(),
                    board@.rows == nrows,
                    board@.cols == ncols,
                    row_start.wf(),
                    row_start.rows == nrows,
                    row_start.cols == ncols,
                    fill_cells(row_start, tv, r as nat, c as nat) == Ok::<BoardModel, ParseFailure>(board@),
                    fill_rows(start, ls, r as nat) == Ok::<BoardModel, ParseFailure>(row_start),
                    tv == ls[r as int],
                    ls == text_lines(s@),
                    ls.len() == nrows,
                    parse_text(s@) == fill_rows(start, ls, nrows as nat),
                    start == empty_model(nrows as nat, ncols as nat),
                decreases toks.len() - c,
            {
                let tok = &toks[c];
                assert(tok@ == tv[c as int]);
                let dashes = tok.len() == 2 && tok[0] == '-' && tok[1] == '-';
                if dashes {
                    assert(tok@ =~= seq!['-', '-']);
                } else {
                    if tok.len() != 2 || tok[0] as u32 >= 128 || tok[1] as u32 >= 128 {
                        proof {
                            lemma_fill_cells_err(row_start, tv, r as nat, (c + 1) as nat, ncols as nat);
                            lemma_fill_rows_err(start, ls, (r + 1) as nat, nrows as nat);
                        }
                        return Err(ParseError::InvalidToken { row: r, col: c, token: copy_chars(tok) });
                    }
                    match Player::from_char(tok[0]) {
                        None => {
                            proof {
                                lemma_fill_cells_err(row_start, tv, r as nat, (c + 1) as nat, ncols as nat);
                                lemma_fill_rows_err(start, ls, (r + 1) as nat, nrows as nat);
                            }
                            return Err(ParseError::UnknownPlayer { row: r, col: c, found: tok[0] });
                        },
                        Some(player) => match PieceType::from_char(tok[1]) {
                            None => {
                                proof {
                                    lemma_fill_cells_err(
                                        row_start,
                                        tv,
                                        r as nat,
                                        (c + 1) as nat,
                                        ncols as nat,
                                    );
                                    lemma_fill_rows_err(start, ls, (r + 1) as nat, nrows as nat);
                                }
                                return Err(ParseError::UnknownPiece { row: r, col: c, found: tok[1] });
                            },
                            Some(piece_type) => {
                                board.place_piece(r, c, Piece { piece_type, player });
                            },
                        },
                    }
                }
                c += 1;
            }
            assert(fill_rows(start, ls, (r + 1) as nat) == Ok::<BoardModel, ParseFailure>(board@));
            r += 1;
        }
        Ok(board)
    }
}

/// The two-character token of a cell.
fn token_of(x: Option<Piece>) -> (s: &'static str)
    ensures
        s@ == token_text(x),
{
    match x {
        None => {
            proof {
                reveal_strlit("--");
            }
            "--"
        },
        Some(Piece { player: Player::White, piece_type: PieceType::Attacker }) => {
            proof {
                reveal_strlit("WA");
            }
            "WA"
        },
        Some(Piece { player: Player::White, piece_type: PieceType::Defender }) => {
            proof {
                reveal_strlit("WD");
            }
            "WD"
        },
        Some(Piece { player: Player::White, piece_type: PieceType::Ball }) => {
            proof {
                reveal_strlit("WB");
            }
            "WB"
        },
        Some(Piece { player: Player::Black, piece_type: PieceType::Attacker }) => {
            proof {
                reveal_strlit("BA");
            }
            "BA"
        },
        Some(Piece { player: Player::Black, piece_type: PieceType::Defender }) => {
            proof {
                reveal_strlit("BD");
            }
            "BD"
        },
        Some(Piece { player: Player::Black, piece_type: PieceType::Ball }) => {
            proof {
                reveal_strlit("BB");
            }
            "BB"
        },
        Some(Piece { player: Player::Neutral, piece_type: PieceType::Attacker }) => {
            proof {
                reveal_strlit("NA");
            }
            "NA"
        },
        Some(Piece { player: Player::Neutral, piece_type: PieceType::Defender }) => {
            proof {
                reveal_strlit("ND");
            }
            "ND"
        },
        Some(Piece { player: Player::Neutral, piece_type: PieceType::Ball }) => {
            proof {
                reveal_strlit("NB");
            }
            "NB"
        },
    }
}

impl ChessBallBoard {
    /// The text of the board: each row on a line of its own, its tokens
    /// separated by single spaces, each line ended by a line break.
    pub fn to_repr(&self) -> (s: String)
        requires
            self.wf(),
        ensures
            s@ == board_text(self@),
    {
        let ghost m = self@;
        let mut out = String::new();
        let rows = self.rows();
        let cols = self.cols();
        proof {
            reveal_strlit(" ");
            reveal_strlit("\n");
        }
        let mut r: usize = 0;
        while r < rows
            invariant
                self.wf(),
                m == self@,
                rows == m.rows,
                cols == m.cols,
                r <= rows,
                out@ == rows_text(m, r as nat),
                " "@ == seq![' '],
                "\n"@ == seq!['\n'],
            decreases rows - r,
        {
            let mut c: usize = 0;
            while c < cols
                invariant
                    self.wf(),
                    m == self@,
                    rows == m.rows,
                    cols == m.cols,
                    r < rows,
                    c <= cols,
                    out@ == rows_text(m, r as nat) + cells_text(m, r as int, c as nat),
                    " "@ == seq![' '],
                    "\n"@ == seq!['\n'],
                decreases cols - c,
            {
                if c > 0 {
                    out.append(" ");
                }
                let cell = match self.get_piece(r, c) {
                    Some(q) => Some(*q),
                    None => None,
                };
                out.append(token_of(cell));
                c += 1;
                assert(out@ =~= rows_text(m, r as nat) + cells_text(m, r as int, c as nat));
            }
            out.append("\n");
            r += 1;
            assert(out@ =~= rows_text(m, r as nat));
        }
        out
    }
}

proof fn lemma_lex_append(st: Lexed, t: Seq<char>, u: Seq<char>)
    ensures
        lex_from(st, t + u) == lex_from(lex_from(st, t), u),
    decreases u.len(),
{
    if u.len() == 0 {
        assert(t + u =~= t);
    } else {
        lemma_lex_append(st, t, u.drop_last());
        assert((t + u).drop_last() =~= t + u.drop_last());
        assert((t + u).last() == u.last());
    }
}

proof fn lemma_token_chars(x: Option<Piece>)
    ensures
        token_text(x).len() == 2,
        !is_space(token_text(x)[0]) && token_text(x)[0] != '\n',
        !is_space(token_text(x)[1]) && token_text(x)[1] != '\n',
        token_value(token_text(x)) == Ok::<Option<Piece>, TokenFault>(x),
{
    let t = token_text(x);
    assert('-' as u32 == 45);
    assert('W' as u32 == 87);
    assert('B' as u32 == 66);
    assert('N' as u32 == 78);
    assert('A' as u32 == 65);
    assert('D' as u32 == 68);
    if let Some(p) = x {
        assert(t != seq!['-', '-']) by {
            assert(t[0] != '-');
        }
    } else {
        assert(t =~= seq!['-', '-']);
    }
}

/// Lexing a token from a state with no token under way makes it the current token.
proof fn lemma_lex_token(st: Lexed, x: Option<Piece>)
    requires
        st.tok.len() == 0,
    ensures
        lex_from(st, token_text(x)) == (Lexed { tok: token_text(x), ..st }),
{
    let t = token_text(x);
    lemma_token_chars(x);
    let t1 = t.drop_last();
    assert(t1.drop_last() =~= Seq::<char>::empty());
    assert(lex_from(st, t1.drop_last()) == st);
    assert(t1.last() == t[0]);
    assert(lex_from(st, t1) == lex_char(st, t[0]));
    assert(t.last() == t[1]);
    assert(lex_from(st, t) == lex_char(lex_char(st, t[0]), t[1]));
    assert(st.tok.push(t[0]).push(t[1]) =~= t);
}

pub open spec fn row_tokens(m: BoardModel, r: int) -> Seq<Seq<char>> {
    Seq::new(m.cols, |c: int| token_text(m.at(r, c)))
}

proof fn lemma_lex_cells(m: BoardModel, r: int, lines: Seq<Seq<Seq<char>>>, k: nat)
    requires
        1 <= k <= m.cols,
    ensures
        lex_from(Lexed { lines, line: seq![], tok: seq![] }, cells_text(m, r, k)) == (Lexed {
            lines,
            line: row_tokens(m, r).take(k - 1),
            tok: token_text(m.at(r, k - 1)),
        }),
    decreases k,
{
    let st = Lexed { lines, line: seq![], tok: seq![] };
    if k == 1 {
        lemma_lex_token(st, m.at(r, 0));
        assert(row_tokens(m, r).take(0) =~= seq![]);
    } else {
        lemma_lex_cells(m, r, lines, (k - 1) as nat);
        let prefix = cells_text(m, r, (k - 1) as nat);
        lemma_lex_append(st, prefix + seq![' '], token_text(m.at(r, k - 1)));
        lemma_lex_append(st, prefix, seq![' ']);
        let s1 = lex_from(st, prefix);
        lemma_token_chars(m.at(r, k - 2));
        assert(seq![' '].drop_last() =~= Seq::<char>::empty());
        assert(' ' as u32 == 32);
        let s2 = lex_from(s1, seq![' ']);
        assert(lex_from(s1, seq![' '].drop_last()) == s1);
        assert(seq![' '].last() == ' ');
        assert(s2 == lex_char(s1, ' '));
        assert(s2 == close_token(s1));
        assert(s1.tok.len() == 2);
        assert(s2.line == row_tokens(m, r).take(k - 2).push(token_text(m.at(r, k - 2))));
        assert(s2.line =~= row_tokens(m, r).take(k - 1));
        lemma_lex_token(s2, m.at(r, k - 1));
    }
}

proof fn lemma_lex_row(m: BoardModel, r: int, lines: Seq<Seq<Seq<char>>>)
    requires
        1 <= m.cols,
    ensures
        lex_from(Lexed { lines, line: seq![], tok: seq![] }, row_text(m, r)) == (Lexed {
            lines: lines.push(row_tokens(m, r)),
            line: seq![],
            tok: seq![],
        }),
{
    let st = Lexed { lines, line: seq![], tok: seq![] };
    lemma_lex_cells(m, r, lines, m.cols);
    lemma_lex_append(st, cells_text(m, r, m.cols), seq!['\n']);
    assert(seq!['\n'].drop_last() =~= Seq::<char>::empty());
    lemma_token_chars(m.at(r, m.cols - 1));
    let s1 = lex_from(st, cells_text(m, r, m.cols));
    assert(lex_from(s1, seq!['\n'].drop_last()) == s1);
    assert(seq!['\n'].last() == '\n');
    assert(lex_from(s1, seq!['\n']) == close_line(s1));
    assert(row_tokens(m, r).take(m.cols - 1).push(token_text(m.at(r, m.cols - 1))) =~= row_tokens(m, r));
    assert(close_token(s1).line == row_tokens(m, r));
}

proof fn lemma_lex_rows(m: BoardModel, n: nat)
    requires
        1 <= m.cols,
    ensures
        lex_from(lexed_start(), rows_text(m, n)) == (Lexed {
            lines: Seq::new(n, |r: int| row_tokens(m, r)),
            line: seq![],
            tok: seq![],
        }),
    decreases n,
{
    if n == 0 {
        assert(Seq::new(0, |r: int| row_tokens(m, r)) =~= seq![]);
    } else {
        lemma_lex_rows(m, (n - 1) as nat);
        lemma_lex_append(lexed_start(), rows_text(m, (n - 1) as nat), row_text(m, n - 1));
        lemma_lex_row(m, n - 1, Seq::new((n - 1) as nat, |r: int| row_tokens(m, r)));
        assert(Seq::new((n - 1) as nat, |r: int| row_tokens(m, r)).push(row_tokens(m, n - 1)) =~= Seq::new(
            n,
            |r: int| row_tokens(m, r),
        ));
    }
}

/// The board `b` agrees with `m` on rows before `n`, and in row `n` on the
/// cells before `k`; every other cell is empty.
pub open spec fn filled_up_to(b: BoardModel, m: BoardModel, n: int, k: int) -> bool {
    &&& b.wf()
    &&& b.rows == m.rows
    &&& b.cols == m.cols
    &&& b.last_tackle is None
    &&& forall|x: int, y: int|
        #![trigger b.at(x, y)]
        b.inside(x, y) ==> b.at(x, y) == if x < n || (x == n && y < k) {
            m.at(x, y)
        } else {
            None
        }
}

proof fn lemma_fill_cells_text(b0: BoardModel, m: BoardModel, r: int, k: nat)
    requires
        m.wf(),
        0 <= r < m.rows,
        k <= m.cols,
        filled_up_to(b0, m, r, 0),
    ensures
        fill_cells(b0, row_tokens(m, r), r as nat, k) matches Ok(b) && filled_up_to(b, m, r, k as int),
    decreases k,
{
    if k > 0 {
        let toks = row_tokens(m, r);
        lemma_fill_cells_text(b0, m, r, (k - 1) as nat);
        lemma_token_chars(m.at(r, k - 1));
        assert(toks[k - 1] == token_text(m.at(r, k - 1)));
        let m1 = fill_cells(b0, toks, r as nat, (k - 1) as nat)->Ok_0;
        let b = fill_cells(b0, toks, r as nat, k)->Ok_0;
        assert(m1.at(r, k - 1) == None::<Piece>);
        assert forall|x: int, y: int| b.inside(x, y) implies #[trigger] b.at(x, y) == if x < r || (x == r && y < k) {
            m.at(x, y)
        } else {
            None
        } by {
            if x != r || y != k - 1 {
                assert(b.at(x, y) == m1.at(x, y));
            }
        }
    }
}

proof fn lemma_fill_rows_text(m: BoardModel, n: nat)
    requires
        m.wf(),
        n <= m.rows,
    ensures
        fill_rows(
            empty_model(m.rows, m.cols),
            Seq::new(m.rows, |r: int| row_tokens(m, r)),
            n,
        ) matches Ok(b) && filled_up_to(b, m, n as int, 0),
    decreases n,
{
    let e = empty_model(m.rows, m.cols);
    let ls = Seq::new(m.rows, |r: int| row_tokens(m, r));
    if n == 0 {
        assert(filled_up_to(e, m, 0, 0));
    } else {
        lemma_fill_rows_text(m, (n - 1) as nat);
        let b0 = fill_rows(e, ls, (n - 1) as nat)->Ok_0;
        assert(ls[n - 1] == row_tokens(m, n - 1));
        lemma_fill_cells_text(b0, m, n - 1, m.cols);
        let b = fill_cells(b0, row_tokens(m, n - 1), (n - 1) as nat, m.cols)->Ok_0;
        assert(filled_up_to(b, m, n as int, 0));
    }
}

/// Printing a board and reading the text back gives the same board, and the
/// text that it prints again is the same text. This holds of every board of
/// the default size without the memory of a tackle, which the text does not
/// hold.
pub proof fn lemma_round_trip(m: BoardModel)
    requires
        m.wf(),
        m.rows == DEFAULT_ROWS,
        m.cols == DEFAULT_COLS,
        m.last_tackle is None,
    ensures
        parse_text(board_text(m)) == Ok::<BoardModel, ParseFailure>(m),
        parse_text(board_text(m)) matches Ok(b) && board_text(b) == board_text(m),
{
    lemma_lex_rows(m, m.rows);
    let ls = Seq::new(m.rows, |r: int| row_tokens(m, r));
    assert(text_lines(board_text(m)) == ls);
    lemma_fill_rows_text(m, m.rows);
    assert(ls[0].len() == m.cols);
    let b = fill_rows(empty_model(m.rows, m.cols), ls, m.rows)->Ok_0;
    assert(b.cells =~~= m.cells) by {
        assert forall|x: int| 0 <= x < m.rows implies b.cells[x] =~= m.cells[x] by {
            assert forall|y: int| 0 <= y < m.cols implies b.cells[x][y] == m.cells[x][y] by {
                assert(b.at(x, y) == m.at(x, y));
            }
        }
    }
    assert(b == m);
}

} // verus!
