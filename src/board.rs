//! Squares, moves and the shared board that both peers keep in step.
use vstd::prelude::*;
use crate::message::{Promotion, WireMove};
use chess::{ChessMove, File, Piece, Rank};

verus! {

/// A square of the board; `row` and `column` lie in `0..8`.
#[derive(Clone, Copy, Debug, PartialEq, Eq, Structural)]
pub struct Square {
    pub row: u8,
    pub column: u8,
}

impl Square {
    pub open spec fn valid(self) -> bool {
        self.row < 8 && self.column < 8
    }
}

/// A move from one square to another, with the piece a pawn becomes.
#[derive(Clone, Copy, Debug, PartialEq, Eq, Structural)]
pub struct Move {
    pub from: Square,
    pub to: Square,
    pub promotion: Option<Promotion>,
}

impl Move {
    /// Both squares on the board and distinct.
    pub open spec fn well_formed(self) -> bool {
        self.from.valid() && self.to.valid() && self.from != self.to
    }
}

/// The linear index of a square: `row * 8 + column`.
pub open spec fn index_of(s: Square) -> nat {
    (s.row * 8 + s.column) as nat
}

/// The square with the given linear index.
pub open spec fn square_of(i: nat) -> Square {
    Square { row: (i / 8) as u8, column: (i % 8) as u8 }
}

/// Linear indices and squares convert into one another without loss.
pub proof fn lemma_index_round_trip(s: Square)
    requires
        s.valid(),
    ensures
        index_of(s) < 64,
        square_of(index_of(s)) == s,
{
    assert(index_of(s) < 64);
    assert((s.row * 8 + s.column) / 8 == s.row && (s.row * 8 + s.column) % 8 == s.column)
        by (nonlinear_arith)
        requires s.row < 8, s.column < 8;
}

pub fn encode_index(s: Square) -> (r: u32)
    requires
        s.valid(),
    ensures
        r == index_of(s),
{
    s.row as u32 * 8 + s.column as u32
}

pub fn decode_index(i: u32) -> (r: Option<Square>)
    ensures
        r == if i < 64 {
            Some(square_of(i as nat))
        } else {
            None
        },
{
    if i < 64 {
        Some(Square { row: (i / 8) as u8, column: (i % 8) as u8 })
    } else {
        None
    }
}

/// The wire form of a move.
pub open spec fn wire_of(m: Move) -> WireMove {
    WireMove {
        from_square: index_of(m.from) as u32,
        to_square: index_of(m.to) as u32,
        promotion: m.promotion,
    }
}

/// The move that a wire move stands for, where both indices are on the board.
pub open spec fn move_of(w: WireMove) -> Option<Move> {
    if w.from_square < 64 && w.to_square < 64 {
        Some(Move {
            from: square_of(w.from_square as nat),
            to: square_of(w.to_square as nat),
            promotion: w.promotion,
        })
    } else {
        None
    }
}

pub fn to_wire(m: Move) -> (r: WireMove)
    requires
        m.from.valid(),
        m.to.valid(),
    ensures
        r == wire_of(m),
{
    WireMove { from_square: encode_index(m.from), to_square: encode_index(m.to), promotion: m.promotion }
}

pub fn from_wire(w: WireMove) -> (r: Option<Move>)
    ensures
        r == move_of(w),
{
    match (decode_index(w.from_square), decode_index(w.to_square)) {
        (Some(from), Some(to)) => Some(Move { from, to, promotion: w.promotion }),
        _ => None,
    }
}

/// How a board came to be: the position it started from (`None` for the
/// standard one) and the moves made on it since, oldest first.
pub struct BoardHistory {
    pub start: Option<Seq<u8>>,
    pub moves: Seq<Move>,
}

/// The chess engine's position, which stays opaque here.
#[verifier::external_type_specification]
#[verifier::external_body]
pub struct ExBoard(chess::Board);

/// Whether the engine accepts `fen` as a position.
pub uninterp spec fn fen_accepted(fen: Seq<u8>) -> bool;

/// Whether the engine holds `m` legal on the board that `h` describes.
pub uninterp spec fn legal_in(h: BoardHistory, m: Move) -> bool;

/// Where a replay of the piece-placement field of a FEN record stands: the
/// 64 squares (`rank * 8 + file`; 0 empty, 1 a white piece other than the
/// king, 2 the white king, 3 a black piece other than the king, 4 the black
/// king) and the square that the next letter goes to.
pub struct Placement {
    pub grid: Seq<u8>,
    pub rank: nat,
    pub file: nat,
    pub bad: bool,
    pub done: bool,
}

/// The letters of the six pieces of either colour.
pub open spec fn piece_letter(c: u8) -> bool {
    c == 75 || c == 81 || c == 82 || c == 66 || c == 78 || c == 80 || c == 107 || c == 113 || c
        == 114 || c == 98 || c == 110 || c == 112
}

pub open spec fn piece_code(c: u8) -> u8 {
    if c == 75 {
        2
    } else if c == 107 {
        4
    } else if c < 97 {
        1
    } else {
        3
    }
}

/// One byte of the placement field, read as chess's board builder reads it:
/// `/` goes one rank down, a digit skips files, a letter places a piece and
/// moves one file right, ranks and files wrapping around; the first space
/// ends the field and any other byte is refused.
pub open spec fn place_step(s: Placement, c: u8) -> Placement {
    if s.done || s.bad {
        s
    } else if c == 32 {
        Placement { done: true, ..s }
    } else if c == 47 {
        Placement { rank: (s.rank + 7) % 8, file: 0, ..s }
    } else if 49 <= c <= 56 {
        Placement { file: ((s.file + (c - 48)) % 8) as nat, ..s }
    } else if piece_letter(c) {
        Placement {
            grid: s.grid.update((s.rank * 8 + s.file) as int, piece_code(c)),
            file: (s.file + 1) % 8,
            ..s
        }
    } else {
        Placement { bad: true, ..s }
    }
}

pub open spec fn replay(b: Seq<u8>) -> Placement
    decreases b.len(),
{
    if b.len() == 0 {
        Placement { grid: Seq::new(64, |i: int| 0u8), rank: 7, file: 0, bad: false, done: false }
    } else {
        place_step(replay(b.drop_last()), b.last())
    }
}

/// How many squares of `g` hold a code from `lo` to `hi`.
pub open spec fn count_codes(g: Seq<u8>, lo: u8, hi: u8) -> nat
    decreases g.len(),
{
    if g.len() == 0 {
        0
    } else {
        count_codes(g.drop_last(), lo, hi) + if lo <= g.last() <= hi {
            1nat
        } else {
            0nat
        }
    }
}

/// The placement field of `fen`, laid out on the board, leaves a king of each
/// colour standing and at most 16 pieces of either colour. The engine refuses
/// any position without one king of each colour, but reads past its tables
/// when the side to move has none; and its move generator holds one entry per
/// movable piece in room for 18.
pub open spec fn placement_safe(fen: Seq<u8>) -> bool {
    let p = replay(fen);
    &&& !p.bad
    &&& count_codes(p.grid, 2, 2) >= 1
    &&& count_codes(p.grid, 4, 4) >= 1
    &&& count_codes(p.grid, 1, 2) <= 16
    &&& count_codes(p.grid, 3, 4) <= 16
}

pub fn placement_safe_in(fen: &[u8]) -> (r: bool)
    ensures
        r == placement_safe(fen@),
{
    let mut grid: Vec<u8> = Vec::new();
    let mut j: usize = 0;
    while j < 64
        invariant
            j <= 64,
            grid@ =~= Seq::new(j as nat, |i: int| 0u8),
        decreases 64 - j,
    {
        grid.push(0);
        j += 1;
    }
    let mut rank: usize = 7;
    let mut file: usize = 0;
    let mut bad = false;
    let mut done = false;
    let mut i: usize = 0;
    assert(fen@.take(0) =~= Seq::<u8>::empty());
    while i < fen.len()
        invariant
            i <= fen@.len(),
            rank < 8,
            file < 8,
            grid@.len() == 64,
            replay(fen@.take(i as int)) == (Placement {
                grid: grid@,
                rank: rank as nat,
                file: file as nat,
                bad,
                done,
            }),
        decreases fen.len() - i,
    {
        let c = fen[i];
        assert(fen@.take(i + 1).drop_last() =~= fen@.take(i as int));
        assert(fen@.take(i + 1).last() == c);
        if !done && !bad {
            if c == 32 {
                done = true;
            } else if c == 47 {
                rank = (rank + 7) % 8;
                file = 0;
            } else if 49 <= c && c <= 56 {
                file = (file + (c - 48) as usize) % 8;
            } else if c == 75 || c == 81 || c == 82 || c == 66 || c == 78 || c == 80 || c == 107
                || c == 113 || c == 114 || c == 98 || c == 110 || c == 112 {
                let code: u8 = if c == 75 {
                    2
                } else if c == 107 {
                    4
                } else if c < 97 {
                    1
                } else {
                    3
                };
                grid.set(rank * 8 + file, code);
                file = (file + 1) % 8;
            } else {
                bad = true;
            }
        }
        i += 1;
    }
    assert(fen@.take(fen@.len() as int) =~= fen@);
    let mut white_kings: usize = 0;
    let mut black_kings: usize = 0;
    let mut white: usize = 0;
    let mut black: usize = 0;
    let mut k: usize = 0;
    assert(grid@.take(0) =~= Seq::<u8>::empty());
    while k < 64
        invariant
            k <= 64,
            grid@.len() == 64,
            white_kings == count_codes(grid@.take(k as int), 2, 2),
            black_kings == count_codes(grid@.take(k as int), 4, 4),
            white == count_codes(grid@.take(k as int), 1, 2),
            black == count_codes(grid@.take(k as int), 3, 4),
            white_kings <= k && black_kings <= k && white <= k && black <= k,
        decreases 64 - k,
    {
        let g = grid[k];
        assert(grid@.take(k + 1).drop_last() =~= grid@.take(k as int));
        assert(grid@.take(k + 1).last() == g);
        if g == 2 {
            white_kings += 1;
        }
        if g == 4 {
            black_kings += 1;
        }
        if 1 <= g && g <= 2 {
            white += 1;
        }
        if 3 <= g && g <= 4 {
            black += 1;
        }
        k += 1;
    }
    assert(grid@.take(64) =~= grid@);
    !bad && white_kings >= 1 && black_kings >= 1 && white <= 16 && black <= 16
}

/// The live board, with the history that produced it. Only the engine
/// wrappers below write either field, so the two change together.
pub struct SharedBoard {
    engine: chess::Board,
    history: Ghost<BoardHistory>,
}

impl View for SharedBoard {
    type V = BoardHistory;

    closed spec fn view(&self) -> BoardHistory {
        self.history@
    }
}

/// Relies on chess::Board's `Default`: the standard starting position.
#[verifier::external_body]
fn engine_default() -> (r: SharedBoard)
    ensures
        r@ == standard_history(),
{
    SharedBoard { engine: chess::Board::default(), history: Ghost(standard_history()) }
}

/// Relies on chess::Board's `FromStr`: the result depends on the text alone.
/// Only text whose placement leaves a king of each colour and at most 16
/// pieces of either colour is handed to it (see `placement_safe`).
#[verifier::external_body]
fn engine_from_fen(fen: &[u8]) -> (r: Option<SharedBoard>)
    requires
        placement_safe(fen@),
    ensures
        r is Some == fen_accepted(fen@),
        r matches Some(b) ==> b@ == (BoardHistory { start: Some(fen@), moves: Seq::empty() }),
{
    match std::str::from_utf8(fen) {
        Ok(text) => match <chess::Board as std::str::FromStr>::from_str(text) {
            Ok(engine) => Some(SharedBoard { engine, history: Ghost(BoardHistory { start: Some(fen@), moves: Seq::empty() }) }),
            Err(_) => None,
        },
        Err(_) => None,
    }
}

/// Relies on chess::Board::legal: the answer depends on the position, which
/// the history determines, and the move. Its move generator keeps one entry
/// per movable piece in room for 18; every board here starts with at most 16
/// pieces of each colour, and no move adds a piece to either colour.
#[verifier::external_body]
fn engine_legal(board: &SharedBoard, m: Move) -> (r: bool)
    ensures
        r == legal_in(board@, m),
{
    let promotion = match m.promotion {
        Some(Promotion::Knight) => Some(Piece::Knight),
        Some(Promotion::Bishop) => Some(Piece::Bishop),
        Some(Promotion::Rook) => Some(Piece::Rook),
        Some(Promotion::Queen) => Some(Piece::Queen),
        None => None,
    };
    let from = chess::Square::make_square(Rank::from_index(m.from.row as usize), File::from_index(m.from.column as usize));
    let to = chess::Square::make_square(Rank::from_index(m.to.row as usize), File::from_index(m.to.column as usize));
    board.engine.legal(ChessMove::new(from, to, promotion))
}

/// Relies on chess::Board::make_move_new, which unwraps the piece on the
/// source square and panics where a king is captured; neither happens to a
/// legal move. The move joins the history.
#[verifier::external_body]
fn engine_make_move(board: &mut SharedBoard, m: Move)
    requires
        legal_in(old(board)@, m),
    ensures
        final(board)@ == (BoardHistory { start: old(board)@.start, moves: old(board)@.moves.push(m) }),
{
    let promotion = match m.promotion {
        Some(Promotion::Knight) => Some(Piece::Knight),
        Some(Promotion::Bishop) => Some(Piece::Bishop),
        Some(Promotion::Rook) => Some(Piece::Rook),
        Some(Promotion::Queen) => Some(Piece::Queen),
        None => None,
    };
    let from = chess::Square::make_square(Rank::from_index(m.from.row as usize), File::from_index(m.from.column as usize));
    let to = chess::Square::make_square(Rank::from_index(m.to.row as usize), File::from_index(m.to.column as usize));
    board.engine = board.engine.make_move_new(ChessMove::new(from, to, promotion));
    board.history = Ghost(BoardHistory { start: board.history@.start, moves: board.history@.moves.push(m) });
}

/// A board in the standard starting position with no moves made.
pub open spec fn standard_history() -> BoardHistory {
    BoardHistory { start: None, moves: Seq::empty() }
}

/// The board that a starting position sent by a host gives.
pub open spec fn parsed_history(fen: Seq<u8>) -> BoardHistory {
    if placement_safe(fen) && fen_accepted(fen) {
        BoardHistory { start: Some(fen), moves: Seq::empty() }
    } else {
        standard_history()
    }
}

/// The history after `m` is tried: it is made where the engine holds it legal.
pub open spec fn after_move(h: BoardHistory, m: Move) -> BoardHistory {
    if legal_in(h, m) {
        BoardHistory { start: h.start, moves: h.moves.push(m) }
    } else {
        h
    }
}

/// The history after a local move: one from a square to itself is refused
/// before the engine is asked.
pub open spec fn after_local(h: BoardHistory, m: Move) -> BoardHistory {
    if m.from != m.to {
        after_move(h, m)
    } else {
        h
    }
}

/// The history after a move received from the peer. Indices off the board
/// and a move from a square to itself are refused. The move is then made only
/// where the engine holds it legal, where a trusting peer would apply it
/// unchecked: chess's `make_move_new` panics on an empty source square or a
/// captured king, and an unchecked illegal move can leave a position where
/// the next move the engine holds legal captures a king.
pub open spec fn after_remote(h: BoardHistory, w: WireMove) -> BoardHistory {
    match move_of(w) {
        Some(m) => after_local(h, m),
        None => h,
    }
}

impl SharedBoard {
    /// A board in the standard starting position.
    pub fn new() -> (r: SharedBoard)
        ensures
            r@ == standard_history(),
    {
        engine_default()
    }

    /// The engine's position, for display.
    pub fn engine(&self) -> chess::Board {
        self.engine
    }

    /// Tries a move on the board; `true` where it was made.
    pub fn try_move(&mut self, m: Move) -> (made: bool)
        requires
            m.from.valid(),
            m.to.valid(),
        ensures
            made == legal_in(old(self)@, m),
            final(self)@ == after_move(old(self)@, m),
    {
        if engine_legal(self, m) {
            engine_make_move(self, m);
            true
        } else {
            false
        }
    }

    /// A move chosen on this side: checked, then made.
    pub fn apply_local(&mut self, m: Move) -> (made: bool)
        requires
            m.from.valid(),
            m.to.valid(),
        ensures
            made ==> m.well_formed(),
            made == (m.from != m.to && legal_in(old(self)@, m)),
            final(self)@ == after_local(old(self)@, m),
    {
        if m.from == m.to {
            return false;
        }
        self.try_move(m)
    }
}

/// A board set up from the starting position that a host sent. Where the
/// placement field lacks a king of either colour or is not eight full rows,
/// or the engine does not accept the text, the standard position is used.
pub fn fen_parse(fen: &[u8]) -> (r: SharedBoard)
    ensures
        r@ == parsed_history(fen@),
{
    if placement_safe_in(fen) {
        match engine_from_fen(fen) {
            Some(board) => board,
            None => engine_default(),
        }
    } else {
        engine_default()
    }
}

} // verus!
