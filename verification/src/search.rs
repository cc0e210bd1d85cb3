//! The search of the tree of moves.

use crate::chess::Position;
use crate::engine::{all_ready, ready, Engine};
use crate::limits::{out_of_nodes, reaches, SearchContext, MAX_PLY};
use crate::model::{
    from_tt, limited, quiesced, quiesced_moves, repeated, terminal, to_tt, StackMove,
    MATE_SCORE, MATE_THRESHOLD, MAX_SCORE,
};
use crate::moves::EngineMove;
use crate::nnue::{
    incremental_state_matches_recomputation, represented_position_is_evaluated, NnueState,
};
use crate::picker::{
    lemma_first_best_exists, lemma_picked, lemma_tt_place, pick, picker_of, MoveList, MovePicker,
    Moves, Order, Picker,
};
use crate::progress::{lines_are_bounded, moves_are_used_up, moves_left};
use crate::rules::{has_moves, man_after, play, played};
use vstd::prelude::*;

verus! {

/// A score as the table keeps it.
pub fn score_to_tt(score: i32, ply: i32) -> (r: i32)
    requires
        i32::MIN <= to_tt(score as int, ply as int) <= i32::MAX,
    ensures
        r == to_tt(score as int, ply as int),
{
    if score >= MATE_THRESHOLD {
        score + ply
    } else if score <= -MATE_THRESHOLD {
        score - ply
    } else {
        score
    }
}

/// A score of the table, counted from the root again.
pub fn score_from_tt(score: i32, ply: i32) -> (r: i32)
    requires
        i32::MIN <= from_tt(score as int, ply as int) <= i32::MAX,
    ensures
        r == from_tt(score as int, ply as int),
{
    if score >= MATE_THRESHOLD {
        score - ply
    } else if score <= -MATE_THRESHOLD {
        score + ply
    } else {
        score
    }
}

proof fn lemma_filter_grows(keys: Seq<u64>, key: u64)
    requires
        keys.len() > 0,
    ensures
        keys.filter(|k: u64| k == key).len() == keys.drop_first().filter(|k: u64| k == key).len()
            + if keys[0] == key {
            1int
        } else {
            0int
        },
{
    let f = |k: u64| k == key;
    let head = seq![keys[0]];
    assert(keys =~= head + keys.drop_first());
    Seq::filter_distributes_over_add(head, keys.drop_first(), f);
    reveal_with_fuel(Seq::filter, 2);
    assert(head.drop_last() =~= Seq::<u64>::empty());
}

/// Whether the position has stood there three times.
pub fn is_repetition(board: &Position, history: &[u64]) -> (r: bool)
    ensures
        r == repeated(*board, history@),
{
    let key: u64 = board.hash;
    let reach: usize = board.halfmove_clock as usize + 1;
    let len: usize = history.len();
    let since: usize = if len > reach {
        len - reach
    } else {
        0
    };
    let mut seen: usize = 0;
    let mut i: usize = len;
    let ghost f = |k: u64| k == key;
    proof {
        reveal(Seq::filter);
        assert(history@.subrange(len as int, len as int) =~= Seq::<u64>::empty());
    }
    while i > since
        invariant
            since <= i <= len,
            len == history@.len(),
            f == (|k: u64| k == key),
            seen == history@.subrange(i as int, len as int).filter(f).len(),
            seen <= len - i,
        decreases i,
    {
        i = i - 1;
        proof {
            let rest = history@.subrange(i as int, len as int);
            assert(rest.drop_first() =~= history@.subrange(i + 1, len as int));
            lemma_filter_grows(rest, key);
        }
        if history[i] == key {
            seen = seen + 1;
        }
    }
    seen >= 3
}

/// The score of a position without legal moves.
pub fn terminal_score(board: &Position, ply: i32) -> (r: i32)
    requires
        0 <= ply,
    ensures
        r == terminal(*board, ply as int),
{
    if board.checkers == 0 {
        0
    } else {
        -MATE_SCORE + ply
    }
}

/// The scores between which a search matters.
#[derive(Clone, Copy, Debug, PartialEq, Eq, Structural)]
pub struct SearchBounds {
    pub alpha: i32,
    pub beta: i32,
}

/// Bounds may be this far from zero at the root; what is further leaves no room
/// for what is added to them on the way.
pub const WIDEST_BOUND: i32 = 2_050_000_000;

impl SearchBounds {
    /// Bounds that stay numbers however often they are narrowed on the way.
    pub open spec fn wf(self, ply: int) -> bool {
        &&& -WIDEST_BOUND - ply <= self.alpha <= WIDEST_BOUND + ply
        &&& -WIDEST_BOUND - ply <= self.beta <= WIDEST_BOUND + ply
    }

    /// The bounds as the other side sees them.
    pub fn negated(self) -> (r: SearchBounds)
        requires
            self.alpha > i32::MIN,
            self.beta > i32::MIN,
        ensures
            r.alpha == -self.beta,
            r.beta == -self.alpha,
    {
        SearchBounds { alpha: -self.beta, beta: -self.alpha }
    }
}

/// Whether a score, as the table keeps it, is one that a search can find.
pub open spec fn score_ok(score: int, ply: int) -> bool {
    -MAX_SCORE <= to_tt(score, ply) <= MAX_SCORE
}

/// Whether a result is a score of the model.
pub open spec fn agrees(result: Option<i32>, score: Option<int>) -> bool {
    match (result, score) {
        (Some(a), Some(b)) => a == b,
        (None, None) => true,
        _ => false,
    }
}

/// Whether every move that a picker has or had is a legal one, with its facts.
pub open spec fn picker_ready(board: Position, p: Picker) -> bool {
    &&& p.tt_move matches Some(mv) ==> ready(board, mv)
    &&& forall|i: int| 0 <= i < p.good.len() ==> ready(board, #[trigger] p.good[i])
    &&& forall|i: int| 0 <= i < p.quiets.len() ==> ready(board, #[trigger] p.quiets[i])
    &&& forall|i: int| 0 <= i < p.bad.len() ==> ready(board, #[trigger] p.bad[i])
    &&& forall|i: int| 0 <= i < p.tried.len() ==> ready(board, #[trigger] p.tried[i])
}

pub proof fn lemma_picker_ready(board: Position, moves: Moves)
    requires
        all_ready(board, moves),
    ensures
        picker_ready(board, picker_of(moves)),
        picker_of(moves).wf(),
        picker_of(moves).left() == moves.all().len(),
{
    lemma_tt_place(moves.good, 0);
}

pub proof fn lemma_pick_ready(board: Position, p: Picker)
    requires
        p.wf(),
        picker_ready(board, p),
    ensures
        pick(p).0.wf(),
        picker_ready(board, pick(p).0),
        pick(p).1 matches Some(mv) ==> ready(board, mv),
        pick(p).1 is None <==> p.left() == 0,
        pick(p).1 is Some ==> pick(p).0.left() < p.left(),
{
    lemma_picked(p);
    if p.bad.len() > 0 {
        lemma_first_best_exists(p.bad, Order::BadCaptures, p.bad.len() as int);
    }
    if p.good.len() > 0 {
        lemma_first_best_exists(p.good, Order::Captures, p.good.len() as int);
    }
    if p.remaining > 0 {
        lemma_first_best_exists(p.quiets, Order::Quiets, p.remaining);
    }
}

impl Engine {
    /// Plays a move on the network's state.
    pub fn follow(&mut self, board: &Position, next: &Position, mv: &EngineMove)
        requires
            old(self).wf(),
            old(self).nnue.represents(old(self).net(), *board),
            board.valid(),
            ready(*board, *mv),
            *next == played(*board, mv.mv),
            next.valid(),
            forall|s: int|
                0 <= s < 64 ==> #[trigger] next.man_at(s) == man_after(
                    *board,
                    mv.mv,
                    s,
                ),
        ensures
            final(self).wf(),
            final(self)@ == old(self)@,
            final(self).same_parts(*old(self)),
            final(self).move_stack@ == old(self).move_stack@,
            final(self).nnue.represents(final(self).net(), *next),
    {
        let ghost before = self.nnue;
        self.nnue.play_move(&self.network, next, board.side_to_move, mv);
        proof {
            incremental_state_matches_recomputation(
                self.net(),
                *board,
                *next,
                before,
                self.nnue,
                *mv,
            );
        }
    }

    /// Searches captures and promotions, and every move while in check, until
    /// the position is quiet.
    pub fn quiesce(
        &mut self,
        board: &Position,
        ply: i32,
        bounds: SearchBounds,
        context: &mut SearchContext,
    ) -> (r: Option<i32>)
        requires
            old(self).wf(),
            board.valid(),
            old(self).nnue.represents(old(self).net(), *board),
            0 <= ply,
            ply + moves_left(*board) <= MAX_PLY,
            bounds.wf(ply as int),
            old(context).nodes < u64::MAX,
        ensures
            final(self).wf(),
            final(self)@ == old(self)@,
            final(self).same_parts(*old(self)),
            final(self).nnue == old(self).nnue,
            old(context).same_search(*final(context)),
            final(context).history@ == old(context).history@,
            final(self).move_stack@ == old(self).move_stack@,
            r is Some ==> final(context).interrupted == old(context).interrupted
                && final(context).nodes < u64::MAX,
            r matches Some(score) ==> score_ok(score as int, ply as int),
            r is None ==> final(context).nodes > old(context).nodes,
            r is Some || !final(context).interrupted || out_of_nodes(
                old(context).node_limit,
                final(context).nodes as int,
            ) ==> reaches(
                old(context).node_limit,
                old(context).nodes as int,
                final(context).nodes as int,
                r is None,
            ),
            forall|limit: Option<u64>|
                #![trigger limited(old(self).base(), limit)]
                reaches(
                    limit,
                    old(context).nodes as int,
                    final(context).nodes as int,
                    r is None,
                ) ==> {
                    let (nodes, score) = quiesced(
                        limited(old(self).base(), limit),
                        old(self)@,
                        old(context).nodes as int,
                        *board,
                        ply as int,
                        bounds.alpha as int,
                        bounds.beta as int,
                        old(context).history@,
                    );
                    agrees(r, score) && final(context).nodes == nodes
                },
        decreases u64::MAX - old(context).nodes, 1nat,
    {
        proof {
            reveal(quiesced);
            reveal(quiesced_moves);
            lines_are_bounded(*board);
        }
        let ghost st = self.base();
        let ghost m = self@;
        let ghost keys = context.history@;
        if context.should_stop() {
            return None;
        }
        if is_repetition(board, &context.history) {
            return Some(0);
        }
        if board.halfmove_clock >= 100 {
            if has_moves(board) {
                return Some(0);
            } else {
                return Some(terminal_score(board, ply));
            }
        }
        let in_check: bool = board.checkers != 0;
        let correction: i32 = self.get_correction_value(board);
        let static_eval: i32 = self.nnue.evaluate(&self.network, board.side_to_move) + correction;
        proof {
            represented_position_is_evaluated(self.net(), *board, self.nnue);
        }
        let mut alpha: i32 = bounds.alpha;
        let beta: i32 = bounds.beta;
        if !in_check {
            if static_eval >= beta {
                if has_moves(board) {
                    return Some(static_eval);
                }
                return Some(terminal_score(board, ply));
            }
            if static_eval > alpha {
                alpha = static_eval;
            }
        }
        let mut empty_flag: bool = true;
        let moves: MoveList;
        if in_check {
            moves = self.generate_moves(board, None);
            empty_flag = moves.is_empty();
        } else {
            moves = self.generate_qsearch_moves(board, &mut empty_flag);
        }
        if empty_flag {
            return Some(terminal_score(board, ply));
        }
        let mut result: i32 = if in_check {
            -MATE_SCORE
        } else {
            static_eval
        };
        proof {
            lemma_picker_ready(*board, moves@);
        }
        let mut picker: MovePicker = MovePicker::new(moves);
        loop
            invariant_except_break
                forall|limit: Option<u64>|
                    #![trigger limited(st, limit)]
                    !out_of_nodes(limit, context.nodes as int) ==> quiesced(
                        limited(st, limit),
                        m,
                        old(context).nodes as int,
                        *board,
                        ply as int,
                        bounds.alpha as int,
                        bounds.beta as int,
                        keys,
                    ) == quiesced_moves(
                        limited(st, limit),
                        m,
                        context.nodes as int,
                        *board,
                        ply as int,
                        picker@,
                        alpha as int,
                        beta as int,
                        result as int,
                        keys,
                    ),
            invariant
                m == old(self)@,
                st == old(self).base(),
                self.wf(),
                self@ == m,
                self.same_parts(*old(self)),
                self.nnue == old(self).nnue,
                self.move_stack@ == old(self).move_stack@,
                st == self.base(),
                self.nnue.represents(self.net(), *board),
                board.valid(),
                in_check == (board.checkers != 0),
                0 <= ply,
                ply <= MAX_PLY,
                ply + moves_left(*board) <= MAX_PLY,
                board.halfmove_clock < 100,
                (SearchBounds { alpha, beta }).wf(ply as int),
                old(context).same_search(*context),
                context.history@ == keys,
                keys == old(context).history@,
                context.interrupted == old(context).interrupted,
                old(context).nodes < context.nodes < u64::MAX,
                !out_of_nodes(context.node_limit, context.nodes as int),
                picker@.wf(),
                picker_ready(*board, picker@),
                score_ok(result as int, ply as int),
            ensures
                forall|limit: Option<u64>|
                    #![trigger limited(st, limit)]
                    !out_of_nodes(limit, context.nodes as int) ==> quiesced(
                        limited(st, limit),
                        m,
                        old(context).nodes as int,
                        *board,
                        ply as int,
                        bounds.alpha as int,
                        bounds.beta as int,
                        keys,
                    ) == (context.nodes as int, Some(result as int)),
            decreases picker@.left(),
        {
            proof {
                reveal(quiesced);
                reveal(quiesced_moves);
                lemma_pick_ready(*board, picker@);
            }
            let mv: EngineMove = match picker.next() {
                Some(mv) => mv,
                None => {
                    break;
                },
            };
            if !in_check && mv.see_score < -100 {
                continue;
            }
            let next: Position = play(board, mv.mv);
            proof {
                moves_are_used_up(*board, mv.mv, next);
                lines_are_bounded(next);
            }
            let previous_nnue: NnueState = self.nnue;
            self.follow(board, &next, &mv);
            context.history.push(next.hash);
            self.move_stack.push(
                StackMove { mv: mv.mv, piece: mv.piece_type, is_null: false },
            );
            let child: Option<i32> = self.quiesce(
                &next,
                ply + 1,
                SearchBounds { alpha, beta }.negated(),
                context,
            );
            context.history.pop();
            self.move_stack.pop();
            self.nnue = previous_nnue;
            assert(context.history@ =~= keys);
            assert(self.move_stack@ =~= old(self).move_stack@);
            let x: i32 = match child {
                Some(score) => -score,
                None => {
                    return None;
                },
            };
            if x > result {
                result = x;
                if x > alpha {
                    alpha = x;
                }
            }
            if x >= beta {
                break;
            }
        }
        Some(result)
    }
}

} // verus!
