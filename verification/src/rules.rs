//! The rules of chess, which the `cozy_chess` crate knows: which positions
//! there are, which moves are legal, and what a move leads to.
//!
//! Every function here that calls the crate hands it a plain [`Position`] and
//! takes plain values back.

use crate::chess::{file_of, rank_of, CastleRights, Color, GameStatus, Move, Piece, Position};
use cozy_chess::{BoardBuilder, File, Rank, Square};
use vstd::prelude::*;

verus! {

#[verifier::external_type_specification]
#[verifier::external_body]
pub struct ExCozyBoard(cozy_chess::Board);

/// Whether a position is one that the getters of a `cozy_chess::Board` read,
/// so that `cozy_chess::BoardBuilder::build` makes that board of its parts
/// again.
pub uninterp spec fn accepted(board: Position) -> bool;

/// What `cozy_chess::Board::from_fen` reads from a text, or nothing where it
/// reports an error.
pub uninterp spec fn fen_board(text: Seq<char>, shredder: bool) -> Option<Position>;

/// What `cozy_chess::Board`'s `FromStr` reads from a text, or nothing where
/// it reports an error.
pub uninterp spec fn parsed_board(text: Seq<char>) -> Option<Position>;

/// The FEN in which `cozy_chess::Board`'s `Display` writes a position.
pub uninterp spec fn fen_text(board: Position) -> Seq<char>;

/// The legal moves in the order in which `cozy_chess::Board::generate_moves`
/// hands them out.
pub uninterp spec fn legal_moves_of(board: Position) -> Seq<Move>;

/// The position that `cozy_chess::Board::play_unchecked` makes of a legal move.
pub uninterp spec fn played(board: Position, mv: Move) -> Position;

/// The position that `cozy_chess::Board::null_move` makes.
pub uninterp spec fn null_moved(board: Position) -> Position;

/// The move that `cozy_chess::util::parse_uci_move` reads from a text, or
/// nothing where it reports an error.
pub uninterp spec fn uci_move(board: Position, text: Seq<char>) -> Option<Move>;

/// The text in which `cozy_chess::util::display_uci_move` writes a move.
pub uninterp spec fn uci_text(board: Position, mv: Move) -> Seq<char>;

/// The rank on which a side's pieces start.
pub open spec fn back_rank(color: Color) -> int {
    match color {
        Color::White => 0,
        Color::Black => 7,
    }
}

/// A king that takes its own rook castles.
pub open spec fn castles(board: Position, mv: Move) -> bool {
    board.color_at(mv.to as int) == Some(board.side_to_move)
}

/// Where castling puts the king.
pub open spec fn castled_king(mv: Move) -> int {
    8 * rank_of(mv.from as int) + if file_of(mv.from as int) < file_of(mv.to as int) {
        6int
    } else {
        2int
    }
}

/// Where castling puts the rook.
pub open spec fn castled_rook(mv: Move) -> int {
    8 * rank_of(mv.from as int) + if file_of(mv.from as int) < file_of(mv.to as int) {
        5int
    } else {
        3int
    }
}

/// A pawn that moves aside to an empty square captures in passing.
pub open spec fn in_passing(board: Position, mv: Move) -> bool {
    &&& board.piece_at(mv.from as int) == Some(Piece::Pawn)
    &&& file_of(mv.from as int) != file_of(mv.to as int)
    &&& board.piece_at(mv.to as int) is None
}

/// The square of the pawn that is captured in passing.
pub open spec fn passed_square(mv: Move) -> int {
    8 * rank_of(mv.from as int) + file_of(mv.to as int)
}

/// What every legal move looks like.
pub open spec fn plausible(board: Position, mv: Move) -> bool {
    let from = mv.from as int;
    let to = mv.to as int;
    &&& from < 64
    &&& to < 64
    &&& from != to
    &&& board.color_at(from) == Some(board.side_to_move)
    &&& board.piece_at(to) != Some(Piece::King)
    &&& castles(board, mv) ==> {
        &&& board.piece_at(from) == Some(Piece::King)
        &&& board.piece_at(to) == Some(Piece::Rook)
        &&& rank_of(from) == back_rank(board.side_to_move)
        &&& rank_of(to) == back_rank(board.side_to_move)
        &&& castled_king(mv) == from || castled_king(mv) == to || board.man_at(castled_king(mv)) is None
        &&& castled_rook(mv) == from || castled_rook(mv) == to || board.man_at(castled_rook(mv)) is None
    }
    &&& in_passing(board, mv) ==> {
        &&& board.en_passant is Some
        &&& rank_of(from) == match board.side_to_move {
            Color::White => 4int,
            Color::Black => 3int,
        }
        &&& board.man_at(passed_square(mv)) == Some((Piece::Pawn, board.side_to_move.other()))
    }
    &&& board.piece_at(from) == Some(Piece::Pawn) && file_of(from) == file_of(to)
        ==> board.piece_at(to) is None
    &&& board.piece_at(from) == Some(Piece::Pawn) ==> match board.side_to_move {
        Color::White => rank_of(from) < rank_of(to),
        Color::Black => rank_of(to) < rank_of(from),
    }
    &&& (mv.promotion is Some <==> board.piece_at(from) == Some(Piece::Pawn) && (rank_of(to) == 0
        || rank_of(to) == 7))
    &&& mv.promotion != Some(Piece::Pawn)
    &&& mv.promotion != Some(Piece::King)
}

/// What stands on a square after a legal move.
pub open spec fn man_after(board: Position, mv: Move, s: int) -> Option<(Piece, Color)> {
    let from = mv.from as int;
    let to = mv.to as int;
    if castles(board, mv) {
        if s == castled_king(mv) {
            Some((Piece::King, board.side_to_move))
        } else if s == castled_rook(mv) {
            Some((Piece::Rook, board.side_to_move))
        } else if s == from || s == to {
            None
        } else {
            board.man_at(s)
        }
    } else if s == to {
        match mv.promotion {
            Some(piece) => Some((piece, board.side_to_move)),
            None => board.man_at(from),
        }
    } else if s == from || (in_passing(board, mv) && s == passed_square(mv)) {
        None
    } else {
        board.man_at(s)
    }
}

/// Whether a legal move is of a pawn or captures something.
pub open spec fn is_irreversible(board: Position, mv: Move) -> bool {
    board.piece_at(mv.from as int) == Some(Piece::Pawn) || (board.piece_at(mv.to as int) is Some
        && !castles(board, mv))
}

/// The clock of moves without a capture or a pawn move, after a legal move.
pub open spec fn clock_after(board: Position, mv: Move) -> int {
    if is_irreversible(board, mv) {
        0
    } else if board.halfmove_clock < 100 {
        board.halfmove_clock + 1
    } else {
        100
    }
}

/// How many moves there can be: `cozy_chess` hands out at most 18 sets of
/// moves, each of at most 64 squares with at most four promotions.
pub const MAX_MOVES: usize = 4608;

/// The `cozy_chess::Board` that `cozy_chess::BoardBuilder::build` makes of the
/// position's parts. Nothing is claimed of it here: the functions below that
/// hand it to the crate say what comes back.
#[verifier::external_body]
fn build(board: &Position) -> cozy_chess::Board
    requires
        board.valid(),
{
    let file = |f: u8| File::index(f as usize);
    let side = cozy_chess::Color::index(board.side_to_move.index());
    BoardBuilder {
        board: std::array::from_fn(|s| board.man_on(s as u8).map(|m|
            (cozy_chess::Piece::index(m.0.index()), cozy_chess::Color::index(m.1.index())))),
        castle_rights: board.castle_rights.map(|r|
            cozy_chess::CastleRights { short: r.short.map(file), long: r.long.map(file) }),
        en_passant: board.en_passant.map(|f|
            Square::new(file(f), Rank::Sixth.relative_to(side))),
        side_to_move: side,
        halfmove_clock: board.halfmove_clock,
        fullmove_number: board.fullmove_number,
    }.build().unwrap()
}

/// Reads the parts of a `cozy_chess::Board` with its getters. Nothing is
/// claimed of them here: each function below says what holds of the position
/// that it hands back.
#[verifier::external_body]
fn read(board: &cozy_chess::Board) -> Position {
    let rights = |c| CastleRights {
        short: board.castle_rights(c).short.map(|f| f as u8),
        long: board.castle_rights(c).long.map(|f| f as u8),
    };
    Position {
        pieces: cozy_chess::Piece::ALL.map(|p| board.pieces(p).0),
        colors: cozy_chess::Color::ALL.map(|c| board.colors(c).0),
        side_to_move: Color::from_index(board.side_to_move() as usize),
        castle_rights: cozy_chess::Color::ALL.map(rights),
        en_passant: board.en_passant().map(|f| f as u8),
        halfmove_clock: board.halfmove_clock(), fullmove_number: board.fullmove_number(),
        checkers: board.checkers().0, hash: board.hash(),
    }
}

/// The move with these squares and the piece of this number.
fn plain_move(from: u8, to: u8, promotion: Option<usize>) -> (r: Move)
    requires
        promotion matches Some(p) ==> p < 6,
    ensures
        r.from == from,
        r.to == to,
        r.promotion == match promotion {
            Some(p) => Some(Piece::numbered(p as int)),
            None => None,
        },
{
    Move {
        from,
        to,
        promotion: match promotion {
            Some(p) => Some(Piece::from_index(p)),
            None => None,
        },
    }
}

/// Where the pieces stand at the start of a game.
pub open spec fn placed_for_start(board: Position) -> bool {
    &&& board.pieces@ == seq![
        0x00ff_0000_0000_ff00u64,
        0x4200_0000_0000_0042u64,
        0x2400_0000_0000_0024u64,
        0x8100_0000_0000_0081u64,
        0x0800_0000_0000_0008u64,
        0x1000_0000_0000_0010u64,
    ]
    &&& board.colors@ == seq![0xffffu64, 0xffff_0000_0000_0000u64]
}

/// `cozy_chess::Board::default`: the start position, with every piece on its
/// first square and White to move, which is also what `from_fen` reads from
/// its FEN.
#[verifier::external_body]
fn startpos() -> (r: Position)
    ensures
        r.wf(),
        accepted(r),
        r.kings_apart(),
        placed_for_start(r),
        r.side_to_move == Color::White,
        fen_board(START_FEN@, false) == Some(r),
{
    read(&cozy_chess::Board::default())
}

/// `cozy_chess::Board::from_fen`: what it reads is a board of the crate. The
/// crate does not ask whether the kings stand next to each other.
#[verifier::external_body]
fn read_fen(text: &str, shredder: bool) -> (r: Option<Position>)
    ensures
        r == fen_board(text@, shredder),
        r matches Some(board) ==> board.wf() && accepted(board),
{
    cozy_chess::Board::from_fen(text, shredder).ok().map(|board| read(&board))
}

/// `cozy_chess::Board`'s `FromStr`: what it reads is a board of the crate. The
/// crate does not ask whether the kings stand next to each other.
#[verifier::external_body]
fn read_any_fen(text: &str) -> (r: Option<Position>)
    ensures
        r == parsed_board(text@),
        r matches Some(board) ==> board.wf() && accepted(board),
{
    text.parse::<cozy_chess::Board>().ok().map(|board| read(&board))
}

/// `cozy_chess::Board`'s `Display`.
#[verifier::external_body]
fn write_fen(board: &Position) -> (r: String)
    requires
        board.valid(),
    ensures
        r@ == fen_text(*board),
{
    build(board).to_string()
}

/// `cozy_chess::Board::generate_moves`: the legal moves, each once, and each of
/// the shape that legal moves have. It would let a king take a king next to it,
/// which no position here has.
#[verifier::external_body]
pub(crate) fn legal_moves(board: &Position) -> (r: Vec<Move>)
    requires
        board.valid(),
    ensures
        r@ == legal_moves_of(*board),
        r@.no_duplicates(),
        r@.len() <= MAX_MOVES,
        forall|i: int| 0 <= i < r@.len() ==> plausible(*board, #[trigger] r@[i]),
{
    let mut moves = Vec::new();
    build(board).generate_moves(|set| {
        moves.extend(set.into_iter().map(|mv| plain_move(mv.from as u8, mv.to as u8,
            mv.promotion.map(|p| p as usize))));
        false
    });
    moves
}

/// `cozy_chess::Board::play_unchecked` on a legal move: it puts the pieces where
/// the move puts them, hands the move over, and sets the clock of moves without
/// a capture or a pawn move.
#[verifier::external_body]
pub(crate) fn play(board: &Position, mv: Move) -> (r: Position)
    requires
        board.valid(),
        legal_moves_of(*board).contains(mv),
    ensures
        r == played(*board, mv),
        r.valid(),
        r.side_to_move == board.side_to_move.other(),
        r.halfmove_clock == clock_after(*board, mv),
        forall|s: int| 0 <= s < 64 ==> #[trigger] r.man_at(s) == man_after(*board, mv, s),
{
    let mut next = build(board);
    next.play_unchecked(cozy_chess::Move {
        from: Square::index(mv.from as usize),
        to: Square::index(mv.to as usize),
        promotion: mv.promotion.map(|p| cozy_chess::Piece::index(p.index())),
    });
    read(&next)
}

/// `cozy_chess::Board::null_move`: there is one unless the side to move is in
/// check. It hands the move to the other side, which is not in check.
#[verifier::external_body]
pub(crate) fn null_move(board: &Position) -> (r: Option<Position>)
    requires
        board.valid(),
    ensures
        r == if board.checkers == 0 {
            Some(null_moved(*board))
        } else {
            None
        },
        r matches Some(next) ==> {
            &&& next.valid()
            &&& next.pieces == board.pieces
            &&& next.colors == board.colors
            &&& next.side_to_move == board.side_to_move.other()
            &&& next.castle_rights == board.castle_rights
            &&& next.en_passant is None
            &&& next.checkers == 0
            &&& next.halfmove_clock == if board.halfmove_clock < 100 {
                board.halfmove_clock + 1
            } else {
                100
            }
        },
{
    build(board).null_move().map(|next| read(&next))
}

/// `cozy_chess::Board::set_halfmove_clock`: it changes the clock alone.
#[verifier::external_body]
pub(crate) fn with_halfmove_clock(board: &Position, clock: u8) -> (r: Position)
    requires
        board.valid(),
        clock <= 100,
    ensures
        r == (Position { halfmove_clock: clock, ..*board }),
        r.valid(),
{
    let mut next = build(board);
    next.set_halfmove_clock(clock);
    read(&next)
}

/// `cozy_chess::util::parse_uci_move`: it need not be a legal move.
#[verifier::external_body]
pub(crate) fn read_uci_move(board: &Position, text: &str) -> (r: Option<Move>)
    requires
        board.valid(),
    ensures
        r == uci_move(*board, text@),
        r matches Some(mv) ==> mv.from < 64 && mv.to < 64,
{
    cozy_chess::util::parse_uci_move(&build(board), text).ok().map(|mv|
        plain_move(mv.from as u8, mv.to as u8, mv.promotion.map(|p| p as usize)))
}

/// `cozy_chess::util::display_uci_move`.
#[verifier::external_body]
pub(crate) fn write_uci_move(board: &Position, mv: Move) -> (r: String)
    requires
        board.valid(),
        mv.from < 64,
        mv.to < 64,
    ensures
        r@ == uci_text(*board, mv),
{
    let outside = cozy_chess::Move {
        from: Square::index(mv.from as usize),
        to: Square::index(mv.to as usize),
        promotion: mv.promotion.map(|p| cozy_chess::Piece::index(p.index())),
    };
    cozy_chess::util::display_uci_move(&build(board), outside).to_string()
}

/// The FEN of the start position.
pub const START_FEN: &'static str = "rnbqkbnr/pppppppp/8/8/8/8/PPPPPPPP/RNBQKBNR w KQkq - 0 1";

/// A board of the crate whose kings do not stand next to each other.
pub open spec fn with_kings_apart(board: Option<Position>) -> Option<Position> {
    match board {
        Some(b) if b.kings_apart() => Some(b),
        _ => None,
    }
}

/// The position that a FEN describes, or nothing where it describes none.
pub open spec fn fen_position(text: Seq<char>, shredder: bool) -> Option<Position> {
    with_kings_apart(fen_board(text, shredder))
}

/// The position that a FEN of either kind describes, or nothing where it
/// describes none.
pub open spec fn parsed_position(text: Seq<char>) -> Option<Position> {
    with_kings_apart(parsed_board(text))
}

/// Whether the side to move has a legal move.
pub open spec fn can_move(board: Position) -> bool {
    legal_moves_of(board).len() > 0
}

/// How the game stands in a position.
pub open spec fn status_of(board: Position) -> GameStatus {
    if can_move(board) {
        if board.halfmove_clock < 100 {
            GameStatus::Ongoing
        } else {
            GameStatus::Drawn
        }
    } else if board.checkers == 0 {
        GameStatus::Drawn
    } else {
        GameStatus::Won
    }
}

/// Whether the side to move has a legal move.
pub fn has_moves(board: &Position) -> (r: bool)
    requires
        board.valid(),
    ensures
        r == can_move(*board),
        forall|mv: Move| #[trigger]
            legal_moves_of(*board).contains(mv) ==> plausible(*board, mv),
{
    let moves = legal_moves(board);
    moves.len() > 0
}

/// Whether a move is legal.
pub fn is_legal(board: &Position, mv: Move) -> (r: bool)
    requires
        board.valid(),
    ensures
        r == legal_moves_of(*board).contains(mv),
{
    let moves = legal_moves(board);
    let mut i: usize = 0;
    while i < moves.len()
        invariant
            i <= moves.len(),
            moves@ == legal_moves_of(*board),
            forall|j: int| 0 <= j < i ==> moves@[j] != mv,
        decreases moves.len() - i,
    {
        if moves[i] == mv {
            return true;
        }
        i = i + 1;
    }
    false
}

impl Position {
    /// The start position.
    pub fn startpos() -> (r: Position)
        ensures
            r.valid(),
            placed_for_start(r),
            r.side_to_move == Color::White,
            fen_position(START_FEN@, false) == Some(r),
    {
        startpos()
    }

    /// The position that a FEN describes. Kings that stand next to each other
    /// are none.
    pub fn from_fen(text: &str, shredder: bool) -> (r: Option<Position>)
        ensures
            r == fen_position(text@, shredder),
            r matches Some(board) ==> board.valid(),
    {
        match read_fen(text, shredder) {
            Some(board) => if board.has_kings_apart() {
                Some(board)
            } else {
                None
            },
            None => None,
        }
    }

    /// The position that a FEN of either kind describes. Kings that stand next
    /// to each other are none.
    pub fn parse(text: &str) -> (r: Option<Position>)
        ensures
            r == parsed_position(text@),
            r matches Some(board) ==> board.valid(),
    {
        match read_any_fen(text) {
            Some(board) => if board.has_kings_apart() {
                Some(board)
            } else {
                None
            },
            None => None,
        }
    }

    /// The FEN of a position.
    pub fn fen(&self) -> (r: String)
        requires
            self.valid(),
        ensures
            r@ == fen_text(*self),
    {
        write_fen(self)
    }

    /// The legal moves, each once.
    pub fn moves(&self) -> (r: Vec<Move>)
        requires
            self.valid(),
        ensures
            r@ == legal_moves_of(*self),
            r@.no_duplicates(),
            forall|i: int| 0 <= i < r@.len() ==> plausible(*self, #[trigger] r@[i]),
    {
        legal_moves(self)
    }

    /// The position after a move, if it is legal.
    pub fn try_play(&self, mv: Move) -> (r: Option<Position>)
        requires
            self.valid(),
        ensures
            r == if legal_moves_of(*self).contains(mv) {
                Some(played(*self, mv))
            } else {
                None
            },
            r matches Some(next) ==> next.valid() && next.side_to_move
                == self.side_to_move.other() && forall|s: int|
                0 <= s < 64 ==> #[trigger] next.man_at(s) == man_after(*self, mv, s),
    {
        if is_legal(self, mv) {
            Some(play(self, mv))
        } else {
            None
        }
    }

    /// The position in which the other side moves instead, unless the side to
    /// move is in check. No move is counted.
    pub fn pass(&self) -> (r: Option<Position>)
        requires
            self.valid(),
        ensures
            r is Some <==> self.checkers == 0,
            r matches Some(next) ==> {
                &&& next.valid()
                &&& next.pieces == self.pieces
                &&& next.colors == self.colors
                &&& next.side_to_move == self.side_to_move.other()
                &&& next == (Position {
                    halfmove_clock: if self.halfmove_clock < 100 {
                        self.halfmove_clock
                    } else {
                        99
                    },
                    ..null_moved(*self)
                })
            },
    {
        match null_move(self) {
            Some(passed) => Some(with_halfmove_clock(&passed, passed.halfmove_clock - 1)),
            None => None,
        }
    }

    /// How the game stands.
    pub fn status(&self) -> (r: GameStatus)
        requires
            self.valid(),
        ensures
            r == status_of(*self),
            forall|mv: Move| #[trigger]
                legal_moves_of(*self).contains(mv) ==> plausible(*self, mv),
    {
        if has_moves(self) {
            if self.halfmove_clock < 100 {
                GameStatus::Ongoing
            } else {
                GameStatus::Drawn
            }
        } else if self.checkers == 0 {
            GameStatus::Drawn
        } else {
            GameStatus::Won
        }
    }
}

} // verus!
