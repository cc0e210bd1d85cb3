//! The board and its parts as plain values.

use crate::bits::{bit_of, contains, first, holds, lemma_lowest, lemma_operators, lowest_of};
use crate::attacks::{distance, files_apart, ranks_apart};
use crate::rules::accepted;
use vstd::prelude::*;

verus! {

#[derive(Clone, Copy, Debug, PartialEq, Eq, Structural)]
pub enum Color {
    White,
    Black,
}

impl Color {
    pub open spec fn number(self) -> int {
        match self {
            Color::White => 0,
            Color::Black => 1,
        }
    }

    pub open spec fn other(self) -> Color {
        match self {
            Color::White => Color::Black,
            Color::Black => Color::White,
        }
    }

    /// White is 0 and Black is 1.
    pub fn index(self) -> (r: usize)
        ensures
            r == self.number(),
            r < 2,
    {
        match self {
            Color::White => 0,
            Color::Black => 1,
        }
    }

    pub fn from_index(index: usize) -> (r: Color)
        requires
            index < 2,
        ensures
            r.number() == index,
    {
        if index == 0 {
            Color::White
        } else {
            Color::Black
        }
    }

    pub fn opposite(self) -> (r: Color)
        ensures
            r == self.other(),
    {
        match self {
            Color::White => Color::Black,
            Color::Black => Color::White,
        }
    }
}

#[derive(Clone, Copy, Debug, PartialEq, Eq, Structural)]
pub enum Piece {
    Pawn,
    Knight,
    Bishop,
    Rook,
    Queen,
    King,
}

impl Piece {
    pub open spec fn number(self) -> int {
        match self {
            Piece::Pawn => 0,
            Piece::Knight => 1,
            Piece::Bishop => 2,
            Piece::Rook => 3,
            Piece::Queen => 4,
            Piece::King => 5,
        }
    }

    /// The piece with a given number.
    pub open spec fn numbered(n: int) -> Piece {
        if n == 0 {
            Piece::Pawn
        } else if n == 1 {
            Piece::Knight
        } else if n == 2 {
            Piece::Bishop
        } else if n == 3 {
            Piece::Rook
        } else if n == 4 {
            Piece::Queen
        } else {
            Piece::King
        }
    }

    /// From pawn = 0 to king = 5.
    pub fn index(self) -> (r: usize)
        ensures
            r == self.number(),
            r < 6,
    {
        match self {
            Piece::Pawn => 0,
            Piece::Knight => 1,
            Piece::Bishop => 2,
            Piece::Rook => 3,
            Piece::Queen => 4,
            Piece::King => 5,
        }
    }

    pub fn from_index(index: usize) -> (r: Piece)
        requires
            index < 6,
        ensures
            r == Piece::numbered(index as int),
            r.number() == index,
    {
        if index == 0 {
            Piece::Pawn
        } else if index == 1 {
            Piece::Knight
        } else if index == 2 {
            Piece::Bishop
        } else if index == 3 {
            Piece::Rook
        } else if index == 4 {
            Piece::Queen
        } else {
            Piece::King
        }
    }
}

/// A move from one square to another. Castling is written as the king taking
/// its own rook. Squares are numbered from a1 = 0 along the ranks to h8 = 63.
#[derive(Clone, Copy, Debug, PartialEq, Eq, Structural)]
pub struct Move {
    pub from: u8,
    pub to: u8,
    pub promotion: Option<Piece>,
}

/// The files of the rooks with which a side may still castle.
#[derive(Clone, Copy, Debug, PartialEq, Eq, Structural)]
pub struct CastleRights {
    pub short: Option<u8>,
    pub long: Option<u8>,
}

/// How a game stands, seen by the side to move: `Won` is won by the side that
/// has just moved.
#[derive(Clone, Copy, Debug, PartialEq, Eq, Structural)]
pub enum GameStatus {
    Won,
    Drawn,
    Ongoing,
}

pub open spec fn file_of(s: int) -> int {
    s % 8
}

pub open spec fn rank_of(s: int) -> int {
    s / 8
}

pub fn file(square: u8) -> (r: u8)
    ensures
        r == file_of(square as int),
        r < 8,
{
    square % 8
}

pub fn rank(square: u8) -> (r: u8)
    ensures
        r == rank_of(square as int),
{
    square / 8
}

/// Whether two numbers are at most one apart.
fn near(a: u8, b: u8) -> (r: bool)
    ensures
        r == (distance(a as int, b as int) <= 1),
{
    if a < b {
        b - a <= 1
    } else {
        a - b <= 1
    }
}

/// A position. `pieces` is indexed by the piece's number and `colors` by the
/// color's; both hold sets of squares. `checkers` are the pieces that give
/// check to the side to move, and `hash` identifies the position.
#[derive(Clone, Copy, Debug, PartialEq, Eq)]
pub struct Position {
    pub pieces: [u64; 6],
    pub colors: [u64; 2],
    pub side_to_move: Color,
    pub castle_rights: [CastleRights; 2],
    pub en_passant: Option<u8>,
    pub halfmove_clock: u8,
    pub fullmove_number: u16,
    pub checkers: u64,
    pub hash: u64,
}

impl Position {
    pub open spec fn color_at(self, s: int) -> Option<Color> {
        if holds(self.colors[0], s) {
            Some(Color::White)
        } else if holds(self.colors[1], s) {
            Some(Color::Black)
        } else {
            None
        }
    }

    pub open spec fn piece_at(self, s: int) -> Option<Piece> {
        if holds(self.pieces[0], s) {
            Some(Piece::Pawn)
        } else if holds(self.pieces[1], s) {
            Some(Piece::Knight)
        } else if holds(self.pieces[2], s) {
            Some(Piece::Bishop)
        } else if holds(self.pieces[3], s) {
            Some(Piece::Rook)
        } else if holds(self.pieces[4], s) {
            Some(Piece::Queen)
        } else if holds(self.pieces[5], s) {
            Some(Piece::King)
        } else {
            None
        }
    }

    /// The piece on a square with its color.
    pub open spec fn man_at(self, s: int) -> Option<(Piece, Color)> {
        match (self.piece_at(s), self.color_at(s)) {
            (Some(p), Some(c)) => Some((p, c)),
            _ => None,
        }
    }

    pub open spec fn spec_occupied(self) -> u64 {
        self.colors[0] | self.colors[1]
    }

    pub open spec fn spec_colored(self, color: Color, piece: Piece) -> u64 {
        self.colors[color.number()] & self.pieces[piece.number()]
    }

    pub open spec fn king_of(self, color: Color) -> int {
        lowest_of(self.spec_colored(color, Piece::King))
    }

    /// Each square is empty, or holds one piece of one color.
    pub open spec fn one_man_per_square(self) -> bool {
        forall|s: int|
            0 <= s < 64 ==> {
                &&& !(holds(self.colors[0], s) && holds(self.colors[1], s))
                &&& (#[trigger] self.piece_at(s) is Some <==> self.color_at(s) is Some)
                &&& forall|n: int|
                    0 <= n < 6 ==> #[trigger] holds(self.pieces[n], s) == (self.piece_at(s) == Some(
                        Piece::numbered(n),
                    ))
            }
    }

    /// The shape that every position has, whatever the rules say of it.
    pub open spec fn wf(self) -> bool {
        &&& self.one_man_per_square()
        &&& forall|c: Color| #[trigger]
            self.spec_colored(c, Piece::King) == bit_of(self.king_of(c)) && self.spec_colored(
                c,
                Piece::King,
            ) != 0
        &&& forall|c: int|
            0 <= c < 2 ==> {
                &&& (#[trigger] self.castle_rights[c]).short matches Some(f) ==> f < 8
                &&& self.castle_rights[c].long matches Some(f) ==> f < 8
            }
        &&& self.en_passant matches Some(f) ==> f < 8
        &&& self.halfmove_clock <= 100
        &&& self.fullmove_number > 0
    }

    /// The kings do not stand next to each other.
    pub open spec fn kings_apart(self) -> bool {
        let white = self.king_of(Color::White);
        let black = self.king_of(Color::Black);
        files_apart(white, black) > 1 || ranks_apart(white, black) > 1
    }

    /// A position that the rules of chess accept.
    pub open spec fn valid(self) -> bool {
        self.wf() && accepted(self) && self.kings_apart()
    }

    /// Whether the kings do not stand next to each other.
    pub fn has_kings_apart(&self) -> (r: bool)
        requires
            self.wf(),
        ensures
            r == self.kings_apart(),
    {
        let white: u8 = self.king(Color::White);
        let black: u8 = self.king(Color::Black);
        !(near(file(white), file(black)) && near(rank(white), rank(black)))
    }

    /// The squares that hold a piece.
    pub fn occupied(&self) -> (r: u64)
        ensures
            r == self.spec_occupied(),
            self.one_man_per_square() ==> forall|s: int|
                0 <= s < 64 ==> holds(r, s) == (#[trigger] self.man_at(s) is Some),
    {
        proof {
            self.lemma_occupied();
        }
        self.colors[0] | self.colors[1]
    }

    pub proof fn lemma_occupied(self)
        ensures
            self.one_man_per_square() ==> forall|s: int|
                0 <= s < 64 ==> holds(self.spec_occupied(), s) == (#[trigger] self.man_at(
                    s,
                ) is Some),
    {
        if self.one_man_per_square() {
            assert forall|s: int| 0 <= s < 64 implies holds(self.spec_occupied(), s) == (
            #[trigger] self.man_at(s) is Some) by {
                lemma_operators(self.colors[0], self.colors[1], s);
                assert(self.piece_at(s) is Some <==> self.color_at(s) is Some);
            }
        }
    }

    /// The pieces of one kind and color.
    pub fn colored_pieces(&self, color: Color, piece: Piece) -> (r: u64)
        ensures
            r == self.spec_colored(color, piece),
    {
        self.colors[color.index()] & self.pieces[piece.index()]
    }

    /// The piece on a square.
    pub fn piece_on(&self, square: u8) -> (r: Option<Piece>)
        requires
            square < 64,
        ensures
            r == self.piece_at(square as int),
    {
        if contains(self.pieces[0], square) {
            Some(Piece::Pawn)
        } else if contains(self.pieces[1], square) {
            Some(Piece::Knight)
        } else if contains(self.pieces[2], square) {
            Some(Piece::Bishop)
        } else if contains(self.pieces[3], square) {
            Some(Piece::Rook)
        } else if contains(self.pieces[4], square) {
            Some(Piece::Queen)
        } else if contains(self.pieces[5], square) {
            Some(Piece::King)
        } else {
            None
        }
    }

    /// The color of the piece on a square.
    pub fn color_on(&self, square: u8) -> (r: Option<Color>)
        requires
            square < 64,
        ensures
            r == self.color_at(square as int),
    {
        if contains(self.colors[0], square) {
            Some(Color::White)
        } else if contains(self.colors[1], square) {
            Some(Color::Black)
        } else {
            None
        }
    }

    /// The piece on a square with its color.
    pub fn man_on(&self, square: u8) -> (r: Option<(Piece, Color)>)
        requires
            square < 64,
        ensures
            r == self.man_at(square as int),
    {
        match (self.piece_on(square), self.color_on(square)) {
            (Some(piece), Some(color)) => Some((piece, color)),
            _ => None,
        }
    }

    /// The square of a side's king.
    pub fn king(&self, color: Color) -> (r: u8)
        requires
            self.wf(),
        ensures
            r == self.king_of(color),
            r < 64,
    {
        let kings: u64 = self.colored_pieces(color, Piece::King);
        proof {
            assert(self.spec_colored(color, Piece::King) != 0);
            lemma_lowest(kings);
        }
        match first(kings) {
            Some(square) => square,
            None => 0,
        }
    }

    pub proof fn lemma_king(self, color: Color)
        requires
            self.wf(),
        ensures
            0 <= self.king_of(color) < 64,
            self.man_at(self.king_of(color)) == Some((Piece::King, color)),
            forall|s: int|
                0 <= s < 64 && #[trigger] self.man_at(s) == Some((Piece::King, color)) ==> s
                    == self.king_of(color),
    {
        let kings = self.spec_colored(color, Piece::King);
        let k = self.king_of(color);
        assert(kings == bit_of(k) && kings != 0);
        lemma_lowest(kings);
        lemma_operators(self.colors[color.number()], self.pieces[5], k);
        assert(self.piece_at(k) is Some <==> self.color_at(k) is Some);
        assert(holds(self.pieces[5], k) == (self.piece_at(k) == Some(Piece::numbered(5))));
        assert forall|s: int|
            0 <= s < 64 && #[trigger] self.man_at(s) == Some((Piece::King, color)) implies s == k by {
            lemma_operators(self.colors[color.number()], self.pieces[5], s);
            assert(self.piece_at(s) is Some <==> self.color_at(s) is Some);
            assert(holds(self.pieces[5], s) == (self.piece_at(s) == Some(Piece::numbered(5))));
            crate::bits::lemma_bit_of(k, s);
        }
    }
}

} // verus!
