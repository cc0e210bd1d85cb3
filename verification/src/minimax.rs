//! The search of a node to a depth.

use crate::chess::{Color, Move, Piece, Position};
use crate::engine::{lemma_found_score, lemma_stored_score, ready, Engine};
use crate::history::toward_zero;
use crate::limits::{out_of_nodes, reaches, SearchContext, MAX_PLY};
use crate::model::{
    advanced, concluded, corrected, fresh_run, front, high_bound, limited, low_bound, moves_unfold,
    next_place, node_unfolds, null_stack_move, one_move_unfolds, passed_place, passed_task,
    quiet_node_unfolds, recorded, searched, searched_move, searched_moves, table_move, tried_moves,
    trying_unfolds, unfold_quiet_search, unfold_searched, unfold_searched_move,
    unfold_searched_moves, unfold_tried_moves, Front, NodeType, Outcome, Place, Run, StackMove,
    State, Task, Tried, INFINITE,
};
use crate::moves::EngineMove;
use crate::nnue::{
    divide, evaluation, represented_position_is_evaluated, state_ignores_the_side_to_move,
    NnueState, MAX_EVAL,
};
use crate::picker::{MoveList, MovePicker};
use crate::progress::{
    lines_are_bounded, moves_are_used_up, moves_left, passing_uses_nothing_up,
};
use crate::rules::{can_move, has_moves, is_legal, play, MAX_MOVES};
use crate::search::{
    agrees, is_repetition, lemma_pick_ready, lemma_picker_ready, picker_ready, score_from_tt,
    score_ok, score_to_tt, terminal_score, SearchBounds,
};
use crate::transposition::{TTNodeType, TableEntry};
use vstd::prelude::*;

verus! {

/// Whether a line can go on from a ply as long as it may: every other move of it
/// may be that the other side moves instead, which uses nothing up.
pub open spec fn room_for_a_line(board: Position, ply: int, null_position: bool) -> bool {
    ply + 2 * moves_left(board) + (if null_position {
        0int
    } else {
        1int
    }) <= MAX_PLY
}

/// Whether a line can go on from a ply as long as it may, with a move.
pub open spec fn room_for_a_move(board: Position, ply: int) -> bool {
    ply + 2 * moves_left(board) + (if board.halfmove_clock < 100 {
        0int
    } else {
        2int
    }) <= MAX_PLY
}

/// What stands for a null move of a side.
fn null_entry(color: Color) -> (r: StackMove)
    ensures
        r == null_stack_move(color),
{
    StackMove {
        mv: match color {
            Color::White => Move { from: 8, to: 0, promotion: None },
            Color::Black => Move { from: 48, to: 56, promotion: None },
        },
        piece: Piece::Pawn,
        is_null: true,
    }
}

/// Where a search stands.
pub open spec fn place_of(
    engine: Engine,
    context: SearchContext,
    board: Position,
    ply: int,
) -> Place {
    Place { board, ply, keys: context.history@, stack: engine.move_stack@ }
}

/// What a search has changed so far.
pub open spec fn state_of(engine: Engine, context: SearchContext) -> State {
    State { memory: engine@, nodes: context.nodes as int }
}

/// What a search of a node is asked.
pub open spec fn task_of(
    depth: int,
    expected: NodeType,
    null_position: bool,
    bounds: SearchBounds,
) -> Task {
    Task {
        depth,
        expected,
        null_position,
        alpha: bounds.alpha as int,
        beta: bounds.beta as int,
    }
}

/// Whether a search came to an outcome.
pub open spec fn came_to(
    engine: Engine,
    context: SearchContext,
    r: Option<i32>,
    o: Outcome,
) -> bool {
    agrees(r, o.score) && state_of(engine, context) == o.state
}

impl Engine {
    /// Searches one move: the first as the node is searched, another first
    /// with bounds that only ask whether it is better.
    #[verifier::rlimit(40)]
    pub fn search_move(
        &mut self,
        board: &Position,
        mv: EngineMove,
        depth: i32,
        ply: i32,
        expected: NodeType,
        bounds: SearchBounds,
        allow_research: bool,
        first_move: bool,
        context: &mut SearchContext,
    ) -> (r: Option<i32>)
        requires
            old(self).wf(),
            board.valid(),
            old(self).nnue.represents(old(self).net(), *board),
            ready(*board, mv),
            1 <= ply,
            room_for_a_move(*board, ply - 1),
            bounds.wf(ply - 1),
            old(context).nodes < u64::MAX,
        ensures
            final(self).wf(),
            final(self).same_parts(*old(self)),
            final(self).nnue == old(self).nnue,
            old(context).same_search(*final(context)),
            final(context).history@ == old(context).history@,
            final(self).move_stack@ == old(self).move_stack@,
            r is Some ==> final(context).interrupted == old(context).interrupted
                && final(context).nodes < u64::MAX,
            r matches Some(score) ==> score_ok(score as int, ply - 1),
            r is None ==> final(context).nodes > old(context).nodes,
            r is Some || !final(context).interrupted || out_of_nodes(
                old(context).node_limit,
                final(context).nodes as int,
            ) ==> reaches(
                old(context).node_limit,
                old(context).nodes as int,
                final(context).nodes as int,
                r is None,
            ),
            forall|limit: Option<u64>|
                #![trigger limited(old(self).base(), limit)]
                reaches(
                    limit,
                    old(context).nodes as int,
                    final(context).nodes as int,
                    r is None,
                ) ==> came_to(
                    *final(self),
                    *final(context),
                    r,
                    searched_move(
                        limited(old(self).base(), limit),
                        state_of(*old(self), *old(context)),
                        place_of(*old(self), *old(context), *board, ply - 1),
                        task_of(depth as int, expected, false, bounds),
                        mv,
                        allow_research,
                        first_move,
                    ),
                ),
        decreases u64::MAX - old(context).nodes, 3nat,
    {
        let ghost st = self.base();
        let ghost s = state_of(*self, *context);
        let ghost at = place_of(*self, *context, *board, ply - 1);
        let ghost t = task_of(depth as int, expected, false, bounds);
        proof {
            assert forall|limit: Option<u64>| #![trigger limited(st, limit)]
                one_move_unfolds(limited(st, limit), s, at, t, mv, allow_research, first_move) by {
                unfold_searched_move(limited(st, limit), s, at, t, mv, allow_research, first_move);
            }
        }
        let next: Position = play(board, mv.mv);
        proof {
            moves_are_used_up(*board, mv.mv, next);
            lines_are_bounded(next);
        }
        let previous_nnue: NnueState = self.nnue;
        self.follow(board, &next, &mv);
        context.history.push(next.hash);
        self.move_stack.push(StackMove { mv: mv.mv, piece: mv.piece_type, is_null: false });
        assert(place_of(*self, *context, next, ply as int) == next_place(at, mv));
        let child: Option<i32> = if first_move {
            self.minimax(
                &next,
                depth,
                ply,
                expected.first_child(),
                false,
                bounds.negated(),
                context,
            )
        } else {
            let null_bounds = SearchBounds { alpha: bounds.alpha, beta: bounds.alpha + 1 };
            let probe: Option<i32> = self.minimax(
                &next,
                depth,
                ply,
                NodeType::CUT,
                false,
                null_bounds.negated(),
                context,
            );
            match probe {
                Some(score) => if -score > bounds.alpha && -score < bounds.beta && allow_research {
                    assert(state_of(*self, *context) == advanced(s, state_of(*self, *context)));
                    self.minimax(
                        &next,
                        depth,
                        ply,
                        expected.first_child(),
                        false,
                        bounds.negated(),
                        context,
                    )
                } else {
                    probe
                },
                None => None,
            }
        };
        self.move_stack.pop();
        context.history.pop();
        self.nnue = previous_nnue;
        assert(context.history@ =~= at.keys);
        assert(self.move_stack@ =~= at.stack);
        match child {
            Some(score) => Some(-score),
            None => None,
        }
    }

    /// Searches a position to a depth between two bounds.
    #[verifier::rlimit(60)]
    pub fn minimax(
        &mut self,
        board: &Position,
        depth: i32,
        ply: i32,
        expected: NodeType,
        null_position: bool,
        bounds: SearchBounds,
        context: &mut SearchContext,
    ) -> (r: Option<i32>)
        requires
            old(self).wf(),
            board.valid(),
            old(self).nnue.represents(old(self).net(), *board),
            0 <= ply,
            room_for_a_line(*board, ply as int, null_position),
            bounds.wf(ply as int),
            old(context).nodes < u64::MAX,
        ensures
            final(self).wf(),
            final(self).same_parts(*old(self)),
            final(self).nnue == old(self).nnue,
            old(context).same_search(*final(context)),
            final(context).history@ == old(context).history@,
            final(self).move_stack@ == old(self).move_stack@,
            r is Some ==> final(context).interrupted == old(context).interrupted
                && final(context).nodes < u64::MAX,
            r matches Some(score) ==> score_ok(score as int, ply as int),
            r is None ==> final(context).nodes > old(context).nodes,
            r is Some || !final(context).interrupted || out_of_nodes(
                old(context).node_limit,
                final(context).nodes as int,
            ) ==> reaches(
                old(context).node_limit,
                old(context).nodes as int,
                final(context).nodes as int,
                r is None,
            ),
            forall|limit: Option<u64>|
                #![trigger limited(old(self).base(), limit)]
                reaches(
                    limit,
                    old(context).nodes as int,
                    final(context).nodes as int,
                    r is None,
                ) ==> came_to(
                    *final(self),
                    *final(context),
                    r,
                    searched(
                        limited(old(self).base(), limit),
                        state_of(*old(self), *old(context)),
                        place_of(*old(self), *old(context), *board, ply as int),
                        task_of(depth as int, expected, null_position, bounds),
                    ),
                ),
        decreases u64::MAX - old(context).nodes, 2nat,
    {
        let ghost st = self.base();
        let ghost s = state_of(*self, *context);
        let ghost at = place_of(*self, *context, *board, ply as int);
        let ghost t = task_of(depth as int, expected, null_position, bounds);
        let ghost here = State { nodes: s.nodes + 1, ..s };
        let pv: bool = expected.is_pv();
        proof {
            lines_are_bounded(*board);
        }
        if depth <= 0 {
            proof {
                assert forall|limit: Option<u64>| #![trigger limited(st, limit)]
                    quiet_node_unfolds(limited(st, limit), s, at, t) by {
                    unfold_quiet_search(limited(st, limit), s, at, t);
                }
            }
            return self.quiesce(board, ply, bounds, context);
        }
        proof {
            assert forall|limit: Option<u64>| #![trigger limited(st, limit)]
                node_unfolds(limited(st, limit), s, at, t) by {
                unfold_searched(limited(st, limit), s, at, t);
            }
        }
        if context.should_stop() {
            return None;
        }
        if is_repetition(board, &context.history) {
            return Some(0);
        }
        if board.halfmove_clock >= 100 {
            if has_moves(board) {
                return Some(0);
            } else {
                return Some(terminal_score(board, ply));
            }
        }
        if !has_moves(board) {
            return Some(terminal_score(board, ply));
        }
        let mut alpha: i32 = bounds.alpha;
        let mut beta: i32 = bounds.beta;
        let mut tt_move: Option<Move> = None;
        proof {
            lemma_found_score(self.tt@, board.hash);
        }
        if let Some(entry) = self.tt.get(board.hash) {
            let entry_score: i32 = score_from_tt(entry.score, ply);
            if let Some(mv) = entry.best_move {
                if is_legal(board, mv) {
                    tt_move = Some(mv);
                }
            }
            if entry.depth >= depth {
                match entry.node_type {
                    TTNodeType::EXACT => {
                        return Some(entry_score);
                    },
                    TTNodeType::UPPER => {
                        if entry_score < beta {
                            beta = entry_score;
                        }
                    },
                    TTNodeType::LOWER => {
                        if entry_score > alpha {
                            alpha = entry_score;
                        }
                    },
                }
                if alpha >= beta {
                    return Some(entry_score);
                }
            }
        }
        assert(tt_move == table_move(self@, *board));
        assert(alpha == low_bound(self@, at, t));
        assert(beta == high_bound(self@, at, t));
        let in_check: bool = board.checkers != 0;
        let correction: i32 = self.get_correction_value(board);
        let static_eval: i32 = self.nnue.evaluate(&self.network, board.side_to_move) + correction;
        proof {
            represented_position_is_evaluated(self.net(), *board, self.nnue);
        }
        if !in_check && !pv && depth <= 5 && static_eval - 123 * depth >= beta {
            return Some(static_eval);
        }
        let others: u64 = board.colors[board.side_to_move.index()] & !(board.pieces[0]
            | board.pieces[5]);
        let narrowed = SearchBounds { alpha, beta };
        if !in_check && !pv && !null_position && static_eval >= beta && depth >= 3
            && board.halfmove_clock <= 95 && others != 0 {
            assert(forall|limit: Option<u64>|
                #![trigger limited(st, limit)]
                !out_of_nodes(limit, here.nodes) ==> front(limited(st, limit), here, at, t)
                    == Front::Passes);
            let margin: i32 = (static_eval - beta) / 200;
            let r: i32 = 3 + depth / 4 + if margin < 3 {
                margin
            } else {
                3
            };
            if let Some(next) = board.pass() {
                proof {
                    state_ignores_the_side_to_move(self.net(), *board, next, self.nnue);
                    passing_uses_nothing_up(*board, next);
                }
                self.move_stack.push(null_entry(board.side_to_move));
                let null_bounds = SearchBounds { alpha: -beta, beta: -beta + 1 };
                assert(place_of(*self, *context, next, ply + 1) == passed_place(at));
                assert(task_of(depth - r, NodeType::ALL, true, null_bounds) == passed_task(
                    st,
                    at,
                    t,
                    beta as int,
                ));
                let child: Option<i32> = self.minimax(
                    &next,
                    depth - r,
                    ply + 1,
                    NodeType::ALL,
                    true,
                    null_bounds,
                    context,
                );
                assert(state_of(*self, *context) == advanced(here, state_of(*self, *context)));
                self.move_stack.pop();
                assert(self.move_stack@ =~= at.stack);
                let score: i32 = match child {
                    Some(score) => -score,
                    None => {
                        return None;
                    },
                };
                if score >= beta {
                    return Some(score);
                }
            }
        } else {
            assert(forall|limit: Option<u64>|
                #![trigger limited(st, limit)]
                !out_of_nodes(limit, here.nodes) ==> front(limited(st, limit), here, at, t)
                    == Front::Tries);
        }
        assert(place_of(*self, *context, *board, ply as int) == at);
        self.minimax_moves(
            board,
            depth,
            ply,
            expected,
            null_position,
            bounds,
            narrowed,
            tt_move,
            static_eval,
            context,
        )
    }

    /// Searches the moves of a position, once nothing spares it. The narrowed
    /// bounds are what the table has left of the given ones.
    #[verifier::rlimit(60)]
    fn minimax_moves(
        &mut self,
        board: &Position,
        depth: i32,
        ply: i32,
        expected: NodeType,
        null_position: bool,
        given: SearchBounds,
        narrowed: SearchBounds,
        tt_move: Option<Move>,
        static_eval: i32,
        context: &mut SearchContext,
    ) -> (r: Option<i32>)
        requires
            old(self).wf(),
            board.valid(),
            can_move(*board),
            old(self).nnue.represents(old(self).net(), *board),
            depth >= 1,
            0 <= ply,
            room_for_a_move(*board, ply as int),
            narrowed.wf(ply as int),
            static_eval == evaluation(old(self).net(), *board),
            -MAX_EVAL <= static_eval <= MAX_EVAL,
            old(context).nodes < u64::MAX,
        ensures
            final(self).wf(),
            final(self).same_parts(*old(self)),
            final(self).nnue == old(self).nnue,
            old(context).same_search(*final(context)),
            final(context).history@ == old(context).history@,
            final(self).move_stack@ == old(self).move_stack@,
            r is Some ==> final(context).interrupted == old(context).interrupted
                && final(context).nodes < u64::MAX,
            r matches Some(score) ==> score_ok(score as int, ply as int),
            r is None ==> final(context).nodes > old(context).nodes,
            r is Some || !final(context).interrupted || out_of_nodes(
                old(context).node_limit,
                final(context).nodes as int,
            ) ==> reaches(
                old(context).node_limit,
                old(context).nodes as int,
                final(context).nodes as int,
                r is None,
            ),
            forall|limit: Option<u64>|
                #![trigger limited(old(self).base(), limit)]
                reaches(
                    limit,
                    old(context).nodes as int,
                    final(context).nodes as int,
                    r is None,
                ) ==> came_to(
                    *final(self),
                    *final(context),
                    r,
                    searched_moves(
                        limited(old(self).base(), limit),
                        state_of(*old(self), *old(context)),
                        place_of(*old(self), *old(context), *board, ply as int),
                        task_of(depth as int, expected, null_position, given),
                        narrowed.alpha as int,
                        narrowed.beta as int,
                        tt_move,
                    ),
                ),
        decreases u64::MAX - old(context).nodes, 4nat,
    {
        let ghost st = self.base();
        let ghost s = state_of(*self, *context);
        let ghost at = place_of(*self, *context, *board, ply as int);
        let ghost t = task_of(depth as int, expected, null_position, given);
        let ghost t_high = Task { beta: narrowed.beta as int, ..t };
        proof {
            lines_are_bounded(*board);
        }
        let pv: bool = expected.is_pv();
        let in_check: bool = board.checkers != 0;
        let moves: MoveList = self.generate_moves(board, tt_move);
        let ghost run_start = fresh_run(moves@, narrowed.alpha as int);
        proof {
            lemma_picker_ready(*board, moves@);
            assert forall|limit: Option<u64>| #![trigger limited(st, limit)]
                moves_unfold(
                limited(st, limit),
                s,
                at,
                t,
                narrowed.alpha as int,
                narrowed.beta as int,
                tt_move,
            ) by {
                unfold_searched_moves(
                    limited(st, limit),
                    s,
                    at,
                    t,
                    narrowed.alpha as int,
                    narrowed.beta as int,
                    tt_move,
                );
            }
        }
        let mut picker: MovePicker = MovePicker::new(moves);
        let mut alpha: i32 = narrowed.alpha;
        let beta: i32 = narrowed.beta;
        let mut result: i32 = -INFINITE;
        let mut best_move: Option<EngineMove> = None;
        let mut first_move: bool = true;
        let mut moves_played: i32 = 0;
        loop
            invariant_except_break
                forall|limit: Option<u64>|
                    #![trigger limited(st, limit)]
                    reaches(limit, s.nodes, context.nodes as int, false) ==> tried_moves(
                        limited(st, limit),
                        s,
                        at,
                        t_high,
                        run_start,
                    ) == tried_moves(
                        limited(st, limit),
                        state_of(*self, *context),
                        at,
                        t_high,
                        (Run {
                            picker: picker@,
                            count: moves_played as int,
                            first: first_move,
                            alpha: alpha as int,
                            result: result as int,
                            best: best_move,
                        }),
                    ),
                moves_played + picker@.left() <= MAX_MOVES,
                moves_played == 0 ==> picker@.left() > 0,
                moves_played > 0 ==> best_move is Some && score_ok(result as int, ply as int),
                moves_played == 0 ==> result == -INFINITE,
            invariant
                t_high == (Task { beta: narrowed.beta as int, ..t }),
                t == task_of(depth as int, expected, null_position, given),
                st == old(self).base(),
                s == state_of(*old(self), *old(context)),
                at == place_of(*old(self), *old(context), *board, ply as int),
                at == place_of(*self, *context, *board, ply as int),
                forall|limit: Option<u64>|
                    #![trigger limited(st, limit)]
                    searched_moves(
                        limited(st, limit),
                        s,
                        at,
                        t,
                        narrowed.alpha as int,
                        narrowed.beta as int,
                        tt_move,
                    ) == concluded(
                        limited(st, limit),
                        at,
                        t,
                        tried_moves(limited(st, limit), s, at, t_high, run_start),
                    ),
                self.wf(),
                self.same_parts(*old(self)),
                self.nnue == old(self).nnue,
                st == self.base(),
                self.nnue.represents(self.net(), *board),
                board.valid(),
                pv == (expected == NodeType::PV),
                in_check == (board.checkers != 0),
                depth >= 1,
                0 <= ply,
                room_for_a_move(*board, ply as int),
                ply < MAX_PLY,
                0 <= moves_played,
                beta == narrowed.beta,
                (SearchBounds { alpha, beta }).wf(ply as int),
                old(context).same_search(*context),
                context.history@ == old(context).history@,
                context.interrupted == old(context).interrupted,
                old(context).nodes <= context.nodes < u64::MAX,
                reaches(
                    context.node_limit,
                    old(context).nodes as int,
                    context.nodes as int,
                    false,
                ),
                picker@.wf(),
                picker_ready(*board, picker@),
            ensures
                score_ok(result as int, ply as int),
                forall|limit: Option<u64>|
                    #![trigger limited(st, limit)]
                    reaches(limit, s.nodes, context.nodes as int, false) ==> tried_moves(
                        limited(st, limit),
                        s,
                        at,
                        t_high,
                        run_start,
                    ) == (Tried {
                        state: state_of(*self, *context),
                        best: Some((result as int, best_move)),
                    }),
            decreases picker@.left(),
        {
            let ghost before = state_of(*self, *context);
            let ghost run = Run {
                picker: picker@,
                count: moves_played as int,
                first: first_move,
                alpha: alpha as int,
                result: result as int,
                best: best_move,
            };
            proof {
                assert forall|limit: Option<u64>| #![trigger limited(st, limit)]
                    trying_unfolds(limited(st, limit), before, at, t_high, run) by {
                    unfold_tried_moves(limited(st, limit), before, at, t_high, run);
                }
                lemma_pick_ready(*board, picker@);
                assert(depth >= 40 ==> 3 * depth * depth >= 4800) by (nonlinear_arith);
                assert(1 <= depth < 40 ==> 3 <= 3 * depth * depth <= 4800) by (nonlinear_arith);
            }
            let mv: EngineMove = match picker.next() {
                Some(mv) => mv,
                None => {
                    break;
                },
            };
            moves_played = moves_played + 1;
            let quiet: bool = !mv.is_capture && !mv.promotion && !in_check;
            if !pv && quiet && depth < 40 && moves_played >= 5 + 3 * depth * depth {
                picker.skip_to_bad_captures();
                continue;
            }
            let lmr_depth: i32 = if depth >= 2 && moves_played >= 2 && quiet {
                self.reductions.reduction(depth, moves_played)
            } else {
                0
            };
            let bounds = SearchBounds { alpha, beta };
            let probe: Option<i32> = self.search_move(
                board,
                mv,
                depth - 1 - lmr_depth,
                ply + 1,
                expected,
                bounds,
                lmr_depth == 0,
                first_move,
                context,
            );
            let ghost after = state_of(*self, *context);
            assert(advanced(before, after) == after && advanced(after, after) == after);
            let mut x: i32 = match probe {
                Some(x) => x,
                None => {
                    return None;
                },
            };
            if lmr_depth > 0 && x > alpha {
                let again: Option<i32> = self.search_move(
                    board,
                    mv,
                    depth - 1,
                    ply + 1,
                    expected,
                    bounds,
                    true,
                    first_move,
                    context,
                );
                assert(advanced(after, state_of(*self, *context)) == state_of(*self, *context));
                x = match again {
                    Some(x) => x,
                    None => {
                        return None;
                    },
                };
            }
            if x > result {
                result = x;
                best_move = Some(mv);
                if x > alpha {
                    alpha = x;
                }
            }
            if x >= beta {
                self.reward(board, &mv, depth, &picker);
                break;
            }
            first_move = false;
        }
        self.record(board, depth, ply, given, static_eval, result, best_move);
        Some(result)
    }

    /// Notes what the search of a position came to.
    fn record(
        &mut self,
        board: &Position,
        depth: i32,
        ply: i32,
        given: SearchBounds,
        static_eval: i32,
        result: i32,
        best_move: Option<EngineMove>,
    )
        requires
            old(self).wf(),
            depth >= 1,
            0 <= ply <= MAX_PLY,
            score_ok(result as int, ply as int),
            -MAX_EVAL <= static_eval <= MAX_EVAL,
        ensures
            final(self).kept_line(*old(self)),
            final(self)@ == recorded(
                old(self)@,
                *board,
                depth as int,
                ply as int,
                given.alpha as int,
                given.beta as int,
                static_eval as int,
                result as int,
                best_move,
            ),
    {
        let ghost tried = self@;
        let node_type: TTNodeType = if result >= given.beta {
            TTNodeType::LOWER
        } else if result <= given.alpha {
            TTNodeType::UPPER
        } else {
            TTNodeType::EXACT
        };
        let quiet_best: bool = match best_move {
            Some(mv) => !mv.is_capture && !mv.promotion,
            None => true,
        };
        let in_check: bool = board.checkers != 0;
        if !in_check && quiet_best && !(node_type == TTNodeType::LOWER && result <= static_eval)
            && !(node_type == TTNodeType::UPPER && result >= static_eval) && -95_000 <= result
            && result <= 95_000 {
            let off: i64 = result as i64 - static_eval as i64;
            proof {
                assert(-400_000 * 0x8000_0000 <= off * depth <= 400_000 * 0x8000_0000)
                    by (nonlinear_arith)
                    requires
                        -400_000 <= off <= 400_000,
                        0 <= depth <= 0x8000_0000,
                ;
            }
            let share: i64 = divide(off * depth as i64, 4);
            let bonus: i32 = if share < -2048 {
                -2048
            } else if share > 2048 {
                2048
            } else {
                share as i32
            };
            self.correct(board, bonus);
            proof {
                assert(self@ =~= corrected(
                    tried,
                    *board,
                    toward_zero((result - static_eval) * depth, 4),
                ));
            }
        }
        let entry = TableEntry {
            key: board.hash,
            score: score_to_tt(result, ply),
            depth,
            node_type,
            best_move: match best_move {
                Some(mv) => Some(mv.mv),
                None => None,
            },
        };
        proof {
            lemma_stored_score(self.tt@, board.hash, entry);
        }
        self.tt.insert(board.hash, entry);
        assert(self@ =~= recorded(
            tried,
            *board,
            depth as int,
            ply as int,
            given.alpha as int,
            given.beta as int,
            static_eval as int,
            result as int,
            best_move,
        ));
    }
}

} // verus!
