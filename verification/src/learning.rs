//! What the search learns at a node: which moves did well, and by how much
//! the evaluation was wrong.

use crate::chess::{Color, Position};
use crate::engine::{ready, Engine};
use crate::history::history_bonus;
use crate::model::{
    answer_place, bonus_at, capture_place, corrected, pawn_place, quiet_place, rewarded,
    rewarded_table, with_bonuses, Memory, StackMove,
};
use crate::moves::EngineMove;
use crate::picker::MovePicker;
use crate::search::picker_ready;
use vstd::prelude::*;

verus! {

impl Engine {
    /// The engine is well-formed, and is another engine but for its tables.
    pub open spec fn kept_line(self, other: Engine) -> bool {
        &&& self.wf()
        &&& self.same_parts(other)
        &&& self.nnue == other.nnue
        &&& self.move_stack@ == other.move_stack@
    }

    /// Rewards a quiet move and punishes others.
    fn reward_quiets(&mut self, stm: usize, mv: &EngineMove, others: &Vec<EngineMove>, bonus: i32)
        requires
            old(self).wf(),
            stm < 2,
            bonus >= 0,
            mv.mv.from < 64,
            mv.mv.to < 64,
            forall|i: int|
                0 <= i < others@.len() ==> (#[trigger] others@[i]).mv.from < 64 && others@[i].mv.to
                    < 64,
        ensures
            final(self).kept_line(*old(self)),
            final(self)@ == (Memory {
                quiet: rewarded_table(
                    old(self)@.quiet,
                    quiet_place(stm as int),
                    *mv,
                    others@,
                    bonus as int,
                    -(bonus as int),
                ),
                ..old(self)@
            }),
    {
        let ghost place = quiet_place(stm as int);
        let punishment: i32 = -bonus;
        let ghost start = bonus_at(self@.quiet, place(*mv), bonus as int);
        self.quiet_history.update(stm, mv.mv.from, mv.mv.to, bonus);
        let mut i: usize = 0;
        while i < others.len()
            invariant
                i <= others@.len(),
                stm < 2,
                place == quiet_place(stm as int),
                punishment == -(bonus as int),
                forall|k: int|
                    0 <= k < others@.len() ==> (#[trigger] others@[k]).mv.from < 64
                        && others@[k].mv.to < 64,
                self.kept_line(*old(self)),
                self@ == (Memory {
                    quiet: with_bonuses(
                        start,
                        place,
                        others@,
                        mv.mv,
                        punishment as int,
                        i as nat,
                    ),
                    ..old(self)@
                }),
            decreases others@.len() - i,
        {
            let other: EngineMove = others[i];
            if other.mv != mv.mv {
                self.quiet_history.update(stm, other.mv.from, other.mv.to, punishment);
            }
            i = i + 1;
        }
    }

    /// Rewards a quiet move with the pawns as they stand and punishes others.
    fn reward_pawn_moves(
        &mut self,
        stm: usize,
        pawn_hash: u64,
        mv: &EngineMove,
        others: &Vec<EngineMove>,
        bonus: i32,
    )
        requires
            old(self).wf(),
            stm < 2,
            bonus >= 0,
            mv.mv.from < 64,
            mv.mv.to < 64,
            forall|i: int|
                0 <= i < others@.len() ==> (#[trigger] others@[i]).mv.from < 64 && others@[i].mv.to
                    < 64,
        ensures
            final(self).kept_line(*old(self)),
            final(self)@ == (Memory {
                pawn: rewarded_table(
                    old(self)@.pawn,
                    pawn_place(stm as int, pawn_hash),
                    *mv,
                    others@,
                    bonus as int,
                    -(bonus as int),
                ),
                ..old(self)@
            }),
    {
        let ghost place = pawn_place(stm as int, pawn_hash);
        let punishment: i32 = -bonus;
        let ghost start = bonus_at(self@.pawn, place(*mv), bonus as int);
        self.pawn_history.update(stm, pawn_hash, mv.mv.to, mv.piece_type, bonus);
        let mut i: usize = 0;
        while i < others.len()
            invariant
                i <= others@.len(),
                stm < 2,
                place == pawn_place(stm as int, pawn_hash),
                punishment == -(bonus as int),
                forall|k: int|
                    0 <= k < others@.len() ==> (#[trigger] others@[k]).mv.from < 64
                        && others@[k].mv.to < 64,
                self.kept_line(*old(self)),
                self@ == (Memory {
                    pawn: with_bonuses(
                        start,
                        place,
                        others@,
                        mv.mv,
                        punishment as int,
                        i as nat,
                    ),
                    ..old(self)@
                }),
            decreases others@.len() - i,
        {
            let other: EngineMove = others[i];
            if other.mv != mv.mv {
                self.pawn_history.update(stm, pawn_hash, other.mv.to, other.piece_type, punishment);
            }
            i = i + 1;
        }
    }

    /// Rewards a quiet answer to a move and punishes others.
    fn reward_answers(
        &mut self,
        stm: usize,
        previous: StackMove,
        mv: &EngineMove,
        others: &Vec<EngineMove>,
        bonus: i32,
    )
        requires
            old(self).wf(),
            stm < 2,
            bonus >= 0,
            mv.mv.from < 64,
            mv.mv.to < 64,
            forall|i: int|
                0 <= i < others@.len() ==> (#[trigger] others@[i]).mv.from < 64 && others@[i].mv.to
                    < 64,
            previous.mv.to < 64,
        ensures
            final(self).kept_line(*old(self)),
            final(self)@ == (Memory {
                continuation: rewarded_table(
                    old(self)@.continuation,
                    answer_place(stm as int, previous),
                    *mv,
                    others@,
                    bonus as int,
                    -(bonus as int),
                ),
                ..old(self)@
            }),
    {
        let ghost place = answer_place(stm as int, previous);
        let punishment: i32 = -bonus;
        let ghost start = bonus_at(self@.continuation, place(*mv), bonus as int);
        self.continuation_history.update(
            0,
            stm,
            previous.mv.to,
            previous.piece,
            mv.mv.to,
            mv.piece_type,
            bonus,
        );
        let mut i: usize = 0;
        while i < others.len()
            invariant
                i <= others@.len(),
                stm < 2,
                previous.mv.to < 64,
                place == answer_place(stm as int, previous),
                punishment == -(bonus as int),
                forall|k: int|
                    0 <= k < others@.len() ==> (#[trigger] others@[k]).mv.from < 64
                        && others@[k].mv.to < 64,
                self.kept_line(*old(self)),
                self@ == (Memory {
                    continuation: with_bonuses(
                        start,
                        place,
                        others@,
                        mv.mv,
                        punishment as int,
                        i as nat,
                    ),
                    ..old(self)@
                }),
            decreases others@.len() - i,
        {
            let other: EngineMove = others[i];
            if other.mv != mv.mv {
                self.continuation_history.update(
                    0,
                    stm,
                    previous.mv.to,
                    previous.piece,
                    other.mv.to,
                    other.piece_type,
                    punishment,
                );
            }
            i = i + 1;
        }
    }

    /// Rewards a capture and punishes others.
    fn reward_captures(&mut self, stm: usize, mv: &EngineMove, others: &Vec<EngineMove>, bonus: i32)
        requires
            old(self).wf(),
            stm < 2,
            bonus >= 0,
            mv.mv.from < 64,
            mv.mv.to < 64,
            forall|i: int|
                0 <= i < others@.len() ==> (#[trigger] others@[i]).mv.from < 64 && others@[i].mv.to
                    < 64,
        ensures
            final(self).kept_line(*old(self)),
            final(self)@ == (Memory {
                capture: rewarded_table(
                    old(self)@.capture,
                    capture_place(stm as int),
                    *mv,
                    others@,
                    bonus as int,
                    -(bonus as int / 4),
                ),
                ..old(self)@
            }),
    {
        let ghost place = capture_place(stm as int);
        let punishment: i32 = -(bonus / 4);
        let ghost start = bonus_at(self@.capture, place(*mv), bonus as int);
        if let Some(victim) = mv.target_type {
            self.capture_history.update(stm, mv.mv.to, mv.piece_type, victim, bonus);
        }
        let mut i: usize = 0;
        while i < others.len()
            invariant
                i <= others@.len(),
                stm < 2,
                place == capture_place(stm as int),
                punishment == -(bonus as int / 4),
                forall|k: int|
                    0 <= k < others@.len() ==> (#[trigger] others@[k]).mv.from < 64
                        && others@[k].mv.to < 64,
                self.kept_line(*old(self)),
                self@ == (Memory {
                    capture: with_bonuses(
                        start,
                        place,
                        others@,
                        mv.mv,
                        punishment as int,
                        i as nat,
                    ),
                    ..old(self)@
                }),
            decreases others@.len() - i,
        {
            let other: EngineMove = others[i];
            if other.mv != mv.mv {
                if let Some(victim) = other.target_type {
                    self.capture_history.update(
                        stm,
                        other.mv.to,
                        other.piece_type,
                        victim,
                        punishment,
                    );
                }
            }
            i = i + 1;
        }
    }

    /// Rewards the move that cut the search off, and punishes those that were
    /// tried before it.
    pub fn reward(&mut self, board: &Position, mv: &EngineMove, depth: i32, picker: &MovePicker)
        requires
            old(self).wf(),
            ready(*board, *mv),
            picker@.wf(),
            picker_ready(*board, picker@),
        ensures
            final(self).kept_line(*old(self)),
            final(self)@ == rewarded(
                old(self)@,
                *board,
                *mv,
                depth as int,
                picker@,
                old(self).move_stack@,
            ),
    {
        let stm: usize = board.side_to_move.index();
        let bonus: i32 = history_bonus(depth);
        if !mv.is_capture && !mv.promotion {
            let others: Vec<EngineMove> = picker.tried_quiets();
            proof {
                assert forall|i: int| 0 <= i < others@.len() implies (
                #[trigger] others@[i]).mv.from < 64 && others@[i].mv.to < 64 by {
                    assert(ready(*board, picker@.quiets[picker@.remaining + i]));
                }
            }
            let pawn_hash: u64 = self.piece_keys.pawns(board);
            self.reward_quiets(stm, mv, &others, bonus);
            self.reward_pawn_moves(stm, pawn_hash, mv, &others, bonus);
            let len: usize = self.move_stack.len();
            if len > 0 {
                let previous: StackMove = self.move_stack[len - 1];
                if !previous.is_null {
                    self.reward_answers(stm, previous, mv, &others, bonus);
                }
            }
        } else if mv.is_capture {
            proof {
                assert forall|i: int| 0 <= i < picker@.tried.len() implies (
                #[trigger] picker@.tried[i]).mv.from < 64 && picker@.tried[i].mv.to < 64 by {
                    assert(ready(*board, picker@.tried[i]));
                }
            }
            self.reward_captures(stm, mv, &picker.tried_captures, bonus);
        }
        assert(self@ =~= rewarded(
            old(self)@,
            *board,
            *mv,
            depth as int,
            picker@,
            old(self).move_stack@,
        ));
    }

    /// Notes by how much the evaluation of a position was wrong.
    pub fn correct(&mut self, board: &Position, bonus: i32)
        requires
            old(self).wf(),
        ensures
            final(self).kept_line(*old(self)),
            final(self)@ == corrected(old(self)@, *board, bonus as int),
    {
        let stm: usize = board.side_to_move.index();
        let side: Color = board.side_to_move;
        let pawns: u64 = self.piece_keys.pawns(board);
        let minors: u64 = self.piece_keys.minors(board);
        let majors: u64 = self.piece_keys.majors(board);
        let stm_non_pawn: u64 = self.piece_keys.non_pawn_hash(board, side);
        let nstm_non_pawn: u64 = self.piece_keys.non_pawn_hash(board, side.opposite());
        self.pawn_correction_history.update(stm, pawns, bonus);
        self.minor_correction_history.update(stm, minors, bonus);
        self.major_correction_history.update(stm, majors, bonus);
        self.stm_non_pawn_correction_history.update(stm, stm_non_pawn, bonus);
        self.nstm_non_pawn_correction_history.update(stm, nstm_non_pawn, bonus);
        assert(self@ =~= corrected(old(self)@, *board, bonus as int));
    }
}

} // verus!
