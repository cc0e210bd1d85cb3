//! Moves with what the search wants to know of them.

use crate::chess::{file, file_of, Move, Piece, Position};
use crate::evaluate::{value, value_of};
use vstd::prelude::*;

verus! {

#[derive(Clone, Copy, Debug, PartialEq, Eq, Structural)]
pub struct EngineMove {
    pub mv: Move,
    pub material_value: i32,
    pub see_score: i16,
    pub is_capture: bool,
    pub is_ep: bool,
    pub is_tt: bool,
    pub promotion: bool,
    pub piece_type: Piece,
    pub target_type: Option<Piece>,
    pub is_castle: bool,
    pub history: i32,
}

/// Whether a move of this piece captures in passing.
pub open spec fn takes_in_passing(board: Position, mv: Move, piece: Piece) -> bool {
    &&& board.en_passant is Some
    &&& piece == Piece::Pawn
    &&& file_of(mv.from as int) != file_of(mv.to as int)
    &&& board.piece_at(mv.to as int) is None
}

/// The piece that a move captures.
pub open spec fn victim_of(board: Position, mv: Move, piece: Piece) -> Option<Piece> {
    if takes_in_passing(board, mv, piece) {
        Some(Piece::Pawn)
    } else if board.color_at(mv.to as int) != board.color_at(mv.from as int) {
        board.piece_at(mv.to as int)
    } else {
        None
    }
}

/// The material that a move wins by itself: what it captures, and what the
/// pawn becomes more than a pawn.
pub open spec fn material_gain(board: Position, mv: Move, piece: Piece) -> int {
    (match mv.promotion {
        Some(promotion) => value_of(promotion) - value_of(piece),
        None => 0,
    }) + (match victim_of(board, mv, piece) {
        Some(victim) => value_of(victim),
        None => 0,
    })
}

/// The facts of a move of a piece, before it has been scored.
pub open spec fn move_facts(board: Position, mv: Move, piece: Piece, is_tt: bool) -> EngineMove {
    EngineMove {
        mv,
        material_value: material_gain(board, mv, piece) as i32,
        see_score: 0,
        is_capture: victim_of(board, mv, piece) is Some,
        is_ep: takes_in_passing(board, mv, piece),
        is_tt,
        promotion: mv.promotion is Some,
        piece_type: piece,
        target_type: victim_of(board, mv, piece),
        is_castle: piece == Piece::King && board.color_at(mv.to as int) == Some(board.side_to_move),
        history: 0,
    }
}

impl EngineMove {
    pub fn new(board: &Position, mv: Move, piece: Piece, is_tt: bool) -> (r: EngineMove)
        requires
            mv.from < 64,
            mv.to < 64,
        ensures
            r == move_facts(*board, mv, piece, is_tt),
            r.material_value == material_gain(*board, mv, piece),
    {
        let mut material_value: i32 = 0;
        let mut target_type: Option<Piece> = None;
        let is_castle = piece == Piece::King && board.color_on(mv.to) == Some(board.side_to_move);
        if let Some(promotion) = mv.promotion {
            material_value = value(promotion) - value(piece);
        }
        let is_ep = board.en_passant.is_some() && piece == Piece::Pawn && file(mv.from) != file(
            mv.to,
        ) && board.piece_on(mv.to).is_none();
        if is_ep {
            target_type = Some(Piece::Pawn);
        } else if board.color_on(mv.to) != board.color_on(mv.from) {
            target_type = board.piece_on(mv.to);
        }
        if let Some(target) = target_type {
            material_value = material_value + value(target);
        }
        EngineMove {
            mv,
            material_value,
            see_score: 0,
            is_capture: target_type.is_some(),
            is_ep,
            is_tt,
            promotion: mv.promotion.is_some(),
            piece_type: piece,
            target_type,
            is_castle,
            history: 0,
        }
    }
}

} // verus!
