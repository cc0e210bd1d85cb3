//! Hashes of parts of a position: of a side's pawns, of its other pieces, of
//! its minor and of its major pieces.

use crate::bits::{contains, holds};
use crate::chess::{Color, Piece, Position};
use vstd::prelude::*;

verus! {

/// How many keys there are.
pub const KEYS: usize = 792;

pub const FIRST_STATE: u128 = 0x7369787465656E2062797465206E756D;

pub const MULTIPLIER: u128 = 0x2360ED051FC65DA44385DF649FCCF645;

/// The state of the key generator before key `n`.
pub open spec fn state_before(n: nat) -> u128
    decreases n,
{
    if n == 0 {
        FIRST_STATE
    } else {
        state_before((n - 1) as nat).wrapping_mul(MULTIPLIER)
    }
}

/// A number with its bits turned to the right.
pub open spec fn turned(x: u64, by: u32) -> u64 {
    if by == 0 {
        x
    } else {
        (x >> by) | (x << ((64 - by) as u32))
    }
}

/// The key that a state of the generator gives.
pub open spec fn output_of(state: u128) -> u64 {
    turned(((state >> 64) as u64) ^ (state as u64), (state >> 122) as u32)
}

/// Key `n` of the generator.
pub open spec fn key_of(n: nat) -> u64 {
    output_of(state_before(n + 1))
}

/// The number of the key of a piece on a square. Eight keys come first, and
/// eight more before those of the pieces of each side.
pub open spec fn piece_key(color: Color, piece: Piece, s: int) -> nat {
    (16 + color.number() * 392 + piece.number() * 64 + s) as nat
}

/// The keys of a side's pieces of one kind below a square, taken together.
pub open spec fn kind_hash_below(board: Position, color: Color, piece: Piece, n: nat) -> u64
    decreases n,
{
    if n == 0 {
        0
    } else {
        kind_hash_below(board, color, piece, (n - 1) as nat) ^ (if holds(
            board.spec_colored(color, piece),
            n - 1,
        ) {
            key_of(piece_key(color, piece, n - 1))
        } else {
            0
        })
    }
}

/// The keys of a side's pieces of one kind, taken together.
pub open spec fn kind_hash_of(board: Position, color: Color, piece: Piece) -> u64 {
    kind_hash_below(board, color, piece, 64)
}

pub open spec fn pawn_hash_of(board: Position, color: Color) -> u64 {
    kind_hash_of(board, color, Piece::Pawn)
}

pub open spec fn minor_piece_hash_of(board: Position, color: Color) -> u64 {
    kind_hash_of(board, color, Piece::Knight) ^ kind_hash_of(board, color, Piece::Bishop)
}

pub open spec fn major_piece_hash_of(board: Position, color: Color) -> u64 {
    kind_hash_of(board, color, Piece::Rook) ^ kind_hash_of(board, color, Piece::Queen)
}

pub open spec fn non_pawn_hash_of(board: Position, color: Color) -> u64 {
    minor_piece_hash_of(board, color) ^ major_piece_hash_of(board, color) ^ kind_hash_of(
        board,
        color,
        Piece::King,
    )
}

/// The pawns of both sides.
pub open spec fn pawns_hash(board: Position) -> u64 {
    pawn_hash_of(board, board.side_to_move) ^ pawn_hash_of(board, board.side_to_move.other())
}

/// The minor pieces of both sides.
pub open spec fn minors_hash(board: Position) -> u64 {
    minor_piece_hash_of(board, board.side_to_move) ^ minor_piece_hash_of(
        board,
        board.side_to_move.other(),
    )
}

/// The major pieces of both sides.
pub open spec fn majors_hash(board: Position) -> u64 {
    major_piece_hash_of(board, board.side_to_move) ^ major_piece_hash_of(
        board,
        board.side_to_move.other(),
    )
}

/// The keys.
pub struct PieceKeys {
    pub keys: Vec<u64>,
}

fn key(state: u128) -> (r: u64)
    ensures
        r == output_of(state),
{
    let by: u32 = (state >> 122) as u32;
    proof {
        assert(((state >> 122) as u32) < 64) by (bit_vector);
    }
    let x: u64 = ((state >> 64) as u64) ^ (state as u64);
    if by == 0 {
        x
    } else {
        (x >> by) | (x << (64 - by))
    }
}

impl PieceKeys {
    pub open spec fn wf(self) -> bool {
        &&& self.keys@.len() == KEYS
        &&& forall|n: int| 0 <= n < KEYS ==> #[trigger] self.keys@[n] == key_of(n as nat)
    }

    pub fn new() -> (r: PieceKeys)
        ensures
            r.wf(),
    {
        let mut keys: Vec<u64> = Vec::new();
        let mut state: u128 = FIRST_STATE;
        while keys.len() < KEYS
            invariant
                keys@.len() <= KEYS,
                state == state_before(keys@.len()),
                forall|n: int| 0 <= n < keys@.len() ==> #[trigger] keys@[n] == key_of(n as nat),
            decreases KEYS - keys@.len(),
        {
            state = state.wrapping_mul(MULTIPLIER);
            keys.push(key(state));
        }
        PieceKeys { keys }
    }

    fn kind_hash(&self, board: &Position, color: Color, piece: Piece) -> (r: u64)
        requires
            self.wf(),
        ensures
            r == kind_hash_of(*board, color, piece),
    {
        let set: u64 = board.colored_pieces(color, piece);
        let base: usize = 16 + color.index() * 392 + piece.index() * 64;
        let mut hash: u64 = 0;
        let mut s: u8 = 0;
        while s < 64
            invariant
                self.wf(),
                s <= 64,
                set == board.spec_colored(color, piece),
                base == piece_key(color, piece, 0),
                hash == kind_hash_below(*board, color, piece, s as nat),
            decreases 64 - s,
        {
            let here: u64 = if contains(set, s) {
                assert(base + s < KEYS);
                self.keys[base + s as usize]
            } else {
                0
            };
            hash = hash ^ here;
            s = s + 1;
        }
        hash
    }

    pub fn pawn_hash(&self, board: &Position, color: Color) -> (r: u64)
        requires
            self.wf(),
        ensures
            r == pawn_hash_of(*board, color),
    {
        self.kind_hash(board, color, Piece::Pawn)
    }

    pub fn minor_piece_hash(&self, board: &Position, color: Color) -> (r: u64)
        requires
            self.wf(),
        ensures
            r == minor_piece_hash_of(*board, color),
    {
        self.kind_hash(board, color, Piece::Knight) ^ self.kind_hash(board, color, Piece::Bishop)
    }

    pub fn major_piece_hash(&self, board: &Position, color: Color) -> (r: u64)
        requires
            self.wf(),
        ensures
            r == major_piece_hash_of(*board, color),
    {
        self.kind_hash(board, color, Piece::Rook) ^ self.kind_hash(board, color, Piece::Queen)
    }

    pub fn non_pawn_hash(&self, board: &Position, color: Color) -> (r: u64)
        requires
            self.wf(),
        ensures
            r == non_pawn_hash_of(*board, color),
    {
        self.minor_piece_hash(board, color) ^ self.major_piece_hash(board, color) ^ self.kind_hash(
            board,
            color,
            Piece::King,
        )
    }

    pub fn pawns(&self, board: &Position) -> (r: u64)
        requires
            self.wf(),
        ensures
            r == pawns_hash(*board),
    {
        self.pawn_hash(board, board.side_to_move) ^ self.pawn_hash(
            board,
            board.side_to_move.opposite(),
        )
    }

    pub fn minors(&self, board: &Position) -> (r: u64)
        requires
            self.wf(),
        ensures
            r == minors_hash(*board),
    {
        self.minor_piece_hash(board, board.side_to_move) ^ self.minor_piece_hash(
            board,
            board.side_to_move.opposite(),
        )
    }

    pub fn majors(&self, board: &Position) -> (r: u64)
        requires
            self.wf(),
        ensures
            r == majors_hash(*board),
    {
        self.major_piece_hash(board, board.side_to_move) ^ self.major_piece_hash(
            board,
            board.side_to_move.opposite(),
        )
    }
}

/// Handing the move to the other side keeps the hashes of the pieces.
pub proof fn piece_hashes_ignore_the_side_to_move(board: Position, other: Position, color: Color)
    requires
        board.pieces == other.pieces,
        board.colors == other.colors,
    ensures
        pawn_hash_of(board, color) == pawn_hash_of(other, color),
        minor_piece_hash_of(board, color) == minor_piece_hash_of(other, color),
        major_piece_hash_of(board, color) == major_piece_hash_of(other, color),
        non_pawn_hash_of(board, color) == non_pawn_hash_of(other, color),
{
    lemma_kind_hash(board, other, color, Piece::Pawn, 64);
    lemma_kind_hash(board, other, color, Piece::Knight, 64);
    lemma_kind_hash(board, other, color, Piece::Bishop, 64);
    lemma_kind_hash(board, other, color, Piece::Rook, 64);
    lemma_kind_hash(board, other, color, Piece::Queen, 64);
    lemma_kind_hash(board, other, color, Piece::King, 64);
}

proof fn lemma_kind_hash(board: Position, other: Position, color: Color, piece: Piece, n: nat)
    requires
        board.pieces == other.pieces,
        board.colors == other.colors,
    ensures
        kind_hash_below(board, color, piece, n) == kind_hash_below(other, color, piece, n),
    decreases n,
{
    if n > 0 {
        lemma_kind_hash(board, other, color, piece, (n - 1) as nat);
    }
}

} // verus!
