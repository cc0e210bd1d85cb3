//! What a search leaves out, and what it never does.

use crate::bits::{holds, lemma_lowest, lemma_operators, lowest_of};
use crate::chess::{Color, Move, Piece, Position};
use crate::laws::search::{is_rare, lemma_rare_is_not_repeated, may_go_on};
use crate::limits::larger;
use crate::model::{
    advanced, continued, flipped, fresh_run, generated, generated_moves_are_the_legal_moves,
    has_pieces, is_pruned, late_reduction, lemma_filtered, move_task, needs_full_depth, next_place,
    null_reduction, passed_place, passed_task, quiesced, quiesced_moves, reached, recorded,
    reduction_of, rewarded, scored, searched, searched_move, searched_moves, skipped, table_move,
    tried_moves, unfold_quiet_search, unfold_searched, unfold_searched_move, unfold_searched_moves,
    unfold_tried_moves, Memory, NodeType, Place, Run, Setting, State, StackMove, Task,
};
use crate::moves::EngineMove;
use crate::nnue::evaluation;
use crate::picker::{
    available, lemma_picked, lemma_tt_place, new_picker_has_every_move, pick,
    picked_move_was_available, picker_of, tt_place, Picker,
};
use crate::rules::{legal_moves_of, null_moved, played};
use crate::transposition::lookup;
use vstd::prelude::*;

verus! {

/// Whether a position is to be searched on: it is not drawn, has a legal move, and
/// the table knows nothing of it.
pub open spec fn is_open(st: Setting, s: State, at: Place) -> bool {
    &&& may_go_on(st, s.nodes)
    &&& at.board.halfmove_clock < 100
    &&& legal_moves_of(at.board).len() > 0
    &&& is_rare(at.keys, at.board)
    &&& lookup(s.memory.tt, at.board.hash) is None
}

/// A position that is too good by enough for each ply that is left, at most five,
/// is not searched outside check and off the main line: it is worth its
/// evaluation.
pub proof fn a_far_better_position_is_not_searched(st: Setting, s: State, at: Place, t: Task)
    requires
        is_open(st, s, at),
        0 < t.depth <= 5,
        t.expected != NodeType::PV,
        at.board.checkers == 0,
        evaluation(st.network, at.board) >= t.beta + 123 * t.depth,
    ensures
        searched(st, s, at, t).score == Some(evaluation(st.network, at.board)),
        searched(st, s, at, t).state == (State { nodes: s.nodes + 1, ..s }),
{
    lemma_rare_is_not_repeated(at.board, at.keys);
    unfold_searched(st, s, at, t);
}

/// Whether a side has a man besides its king and pawns.
pub open spec fn has_officer(board: Position, side: Color) -> bool {
    exists|s: int|
        0 <= s < 64 && board.color_at(s) == Some(side) && #[trigger] board.piece_at(s) != Some(
            Piece::Pawn,
        ) && board.piece_at(s) != Some(Piece::King)
}

/// A side may pass only with a man besides its king and pawns.
pub proof fn lemma_officers(board: Position)
    requires
        board.wf(),
    ensures
        has_pieces(board) <==> has_officer(board, board.side_to_move),
{
    let own = board.colors[board.side_to_move.number()];
    let few = board.pieces[0] | board.pieces[5];
    let rest = own & !few;
    lemma_lowest(rest);
    if rest != 0 {
        let s = lowest_of(rest);
        lemma_operators(own, !few, s);
        lemma_operators(few, few, s);
        lemma_operators(board.pieces[0], board.pieces[5], s);
        assert(holds(board.pieces[0], s) == (board.piece_at(s) == Some(Piece::numbered(0))));
        assert(holds(board.pieces[5], s) == (board.piece_at(s) == Some(Piece::numbered(5))));
        assert(board.piece_at(s) is Some <==> board.color_at(s) is Some);
        assert(board.color_at(s) == Some(board.side_to_move));
    } else {
        assert forall|s: int| 0 <= s < 64 && board.color_at(s) == Some(board.side_to_move) implies
            #[trigger] board.piece_at(s) == Some(Piece::Pawn) || board.piece_at(s) == Some(
            Piece::King,
        ) by {
            lemma_operators(own, !few, s);
            lemma_operators(few, few, s);
            lemma_operators(board.pieces[0], board.pieces[5], s);
            lemma_operators(0, 0, s);
            assert(holds(board.pieces[0], s) == (board.piece_at(s) == Some(Piece::numbered(0))));
            assert(holds(board.pieces[5], s) == (board.piece_at(s) == Some(Piece::numbered(5))));
        }
    }
}

/// Whether a side may try to pass: off the main line, not in check, not right
/// after the other side passed, where it already stands well enough, with three
/// plies to go, not near the end of the fifty moves, and with a man besides its
/// king and pawns.
pub open spec fn may_pass(st: Setting, at: Place, t: Task) -> bool {
    &&& t.expected != NodeType::PV
    &&& at.board.checkers == 0
    &&& !t.null_position
    &&& evaluation(st.network, at.board) >= t.beta
    &&& t.depth >= 3
    &&& at.board.halfmove_clock <= 95
    &&& has_officer(at.board, at.board.side_to_move)
}

proof fn lemma_moves_ignore_passing(
    st: Setting,
    s: State,
    at: Place,
    t: Task,
    other: Task,
    run: Run,
)
    requires
        run.picker.wf(),
        other == (Task { null_position: other.null_position, ..t }),
    ensures
        tried_moves(st, s, at, t, run) == tried_moves(st, s, at, other, run),
    decreases run.picker.left(),
{
    let (q, picked) = pick(run.picker);
    unfold_tried_moves(st, s, at, t, run);
    unfold_tried_moves(st, s, at, other, run);
    lemma_picked(run.picker);
    picked_move_was_available(run.picker);
    if let Some(mv) = picked {
        if is_pruned(at.board, t, mv, run.count + 1) {
            let next = skipped(run, q);
            assert(next.picker.wf());
            assert(next.picker.left() < run.picker.left());
            lemma_moves_ignore_passing(st, s, at, t, other, next);
        } else {
            let r = late_reduction(st, at.board, t, mv, run.count + 1);
            assert(move_task(t, run, r) == move_task(other, run, r));
            assert(move_task(t, run, 0) == move_task(other, run, 0));
            let probe = searched_move(st, s, at, move_task(t, run, r), mv, r == 0, run.first);
            let after = advanced(s, probe.state);
            let o = if needs_full_depth(run, r, probe.score) {
                searched_move(st, after, at, move_task(t, run, 0), mv, true, run.first)
            } else {
                probe
            };
            let now = advanced(after, o.state);
            if let Some(x) = o.score {
                lemma_moves_ignore_passing(st, now, at, t, other, continued(run, q, mv, x));
            }
        }
    }
}

/// A side that may not pass is searched by its moves alone: whether the other
/// side has just passed then makes no difference.
pub proof fn passing_is_tried_only_when_safe(st: Setting, s: State, at: Place, t: Task)
    requires
        at.board.wf(),
        lookup(s.memory.tt, at.board.hash) is None,
        !may_pass(st, at, Task { null_position: false, ..t }),
    ensures
        searched(st, s, at, Task { null_position: false, ..t }) == searched(
            st,
            s,
            at,
            Task { null_position: true, ..t },
        ),
{
    let a = Task { null_position: false, ..t };
    let b = Task { null_position: true, ..t };
    if t.depth <= 0 {
        unfold_quiet_search(st, s, at, a);
        unfold_quiet_search(st, s, at, b);
    } else {
        lemma_officers(at.board);
        unfold_searched(st, s, at, a);
        unfold_searched(st, s, at, b);
        let here = State { nodes: s.nodes + 1, ..s };
        unfold_searched_moves(st, here, at, a, t.alpha, t.beta, None);
        unfold_searched_moves(st, here, at, b, t.alpha, t.beta, None);
        let run = fresh_run(generated(s.memory, at.board, None), t.alpha);
        new_picker_has_every_move(generated(s.memory, at.board, None));
        lemma_moves_ignore_passing(st, here, at, a, b, run);
    }
}

/// A side that may pass does so first, and where the other side then does not get
/// below the bound, in a search that is shallower by the depth and by how good the
/// position is, that is the result. The clock of the fifty moves stands still.
pub proof fn a_pass_that_holds_is_enough(st: Setting, s: State, at: Place, t: Task)
    requires
        at.board.wf(),
        is_open(st, s, at),
        may_pass(st, at, t),
        t.depth > 5 || evaluation(st.network, at.board) < t.beta + 123 * t.depth,
    ensures
        ({
            let eval = evaluation(st.network, at.board);
            let next = null_moved(at.board);
            let extra = (eval - t.beta) / 200;
            let o = searched(
                st,
                State { nodes: s.nodes + 1, ..s },
                Place {
                    board: Position { halfmove_clock: at.board.halfmove_clock, ..next },
                    ply: at.ply + 1,
                    keys: at.keys,
                    stack: at.stack.push(crate::model::null_stack_move(at.board.side_to_move)),
                },
                Task {
                    depth: t.depth - 3 - t.depth / 4 - if extra > 3 {
                        3
                    } else {
                        extra
                    },
                    expected: NodeType::ALL,
                    null_position: true,
                    alpha: -t.beta,
                    beta: -t.beta + 1,
                },
            );
            &&& crate::model::null_stack_move(at.board.side_to_move).is_null
            &&& o.score is None ==> searched(st, s, at, t).score is None
            &&& o.score is Some && -(o.score->0) >= t.beta ==> searched(st, s, at, t).score == Some(
                -(o.score->0),
            )
        }),
{
    lemma_rare_is_not_repeated(at.board, at.keys);
    lemma_officers(at.board);
    unfold_searched(st, s, at, t);
}

/// A search that follows a pass is shallower by three plies at least, by one more
/// for each four that are left, and by one more for each two hundred points by
/// which the position is too good, up to three.
pub proof fn good_positions_pass_with_less_depth(depth: int, eval: int, beta: int)
    requires
        depth >= 0,
        eval >= beta,
    ensures
        null_reduction(depth + 4, eval, beta) == null_reduction(depth, eval, beta) + 1,
        eval - beta < 600 ==> null_reduction(depth, eval + 200, beta) == null_reduction(
            depth,
            eval,
            beta,
        ) + 1,
        eval - beta >= 600 ==> null_reduction(depth, eval, beta) == null_reduction(depth, beta, beta)
            + 3,
        depth < 4 && eval - beta < 200 ==> null_reduction(depth, eval, beta) == 3,
{
}

/// Moves are left out only late, and only quiet ones outside check and off the
/// main line: the more are tried the deeper the search is.
pub proof fn only_late_quiet_moves_are_left_out(
    board: Position,
    t: Task,
    mv: EngineMove,
    number: int,
)
    requires
        t.depth >= 1,
    ensures
        mv.is_capture || mv.promotion ==> !is_pruned(board, t, mv, number),
        t.expected == NodeType::PV || board.checkers != 0 ==> !is_pruned(board, t, mv, number),
        number < 8 ==> !is_pruned(board, t, mv, number),
        is_pruned(board, t, mv, number) ==> is_pruned(board, t, mv, number + 1),
        is_pruned(board, t, mv, number) ==> !is_pruned(
            board,
            Task { depth: number, ..t },
            mv,
            number,
        ),
        !mv.is_capture && !mv.promotion && t.expected != NodeType::PV && board.checkers == 0 ==> (
        is_pruned(board, t, mv, number) <==> (number - 5) / 3 >= t.depth * t.depth),
{
    let d = t.depth;
    assert(3 * d * d == 3 * (d * d)) by (nonlinear_arith);
    assert(d * d >= 1) by (nonlinear_arith)
        requires
            d >= 1,
    ;
    assert(3 * number * number == 3 * (number * number)) by (nonlinear_arith);
    assert(number * number >= number) by (nonlinear_arith)
        requires
            number >= 1 || number <= 0,
    ;
}

/// Only quiet moves after the first are searched less deep, outside check and
/// with two plies to go.
pub proof fn only_later_quiet_moves_are_reduced(
    st: Setting,
    board: Position,
    t: Task,
    mv: EngineMove,
    number: int,
)
    ensures
        late_reduction(st, board, t, mv, number) >= 0,
        mv.is_capture || mv.promotion || board.checkers != 0 || number <= 1 || t.depth <= 1
            ==> late_reduction(st, board, t, mv, number) == 0,
        !mv.is_capture && !mv.promotion && board.checkers == 0 && number >= 2 && t.depth >= 2
            ==> late_reduction(st, board, t, mv, number) == reduction_of(
            st.reductions,
            t.depth,
            number,
        ),
{
}

/// The row of the reductions of a move by its number: the last for all beyond it.
pub open spec fn row_for(rows: Seq<Seq<i32>>, number: int) -> Seq<i32> {
    if number < rows.len() {
        rows[number]
    } else {
        rows.last()
    }
}

/// Whether each depth of a row is at least the one before.
pub open spec fn rises(row: Seq<i32>) -> bool {
    forall|i: int, j: int| 0 <= i <= j < row.len() ==> row[i] <= row[j]
}

proof fn lemma_reached(row: Seq<i32>, depth: int, k: nat, n: nat)
    requires
        n <= row.len(),
        rises(row),
    ensures
        reached(row, depth, n) <= n,
        k < n ==> (reached(row, depth, n) > k <==> row[k as int] <= depth),
    decreases n,
{
    if n > 0 {
        lemma_reached(row, depth, k, (n - 1) as nat);
        lemma_all_reached(row, depth, (n - 1) as nat);
    }
}

proof fn lemma_all_reached(row: Seq<i32>, depth: int, n: nat)
    requires
        n < row.len(),
        rises(row),
    ensures
        reached(row, depth, n) <= n,
        row[n as int] <= depth ==> reached(row, depth, n) == n,
    decreases n,
{
    if n > 0 {
        assert(row[n - 1] <= row[n as int]);
        lemma_all_reached(row, depth, (n - 1) as nat);
    }
}

/// A move is reduced by one ply more from each depth on that its row gives.
pub proof fn reductions_start_at_their_depths(
    rows: Seq<Seq<i32>>,
    depth: int,
    number: int,
    plies: int,
)
    requires
        rows.len() > 0,
        0 <= number,
        0 <= plies < row_for(rows, number).len(),
        rises(row_for(rows, number)),
    ensures
        reduction_of(rows, depth, number) > plies <==> row_for(rows, number)[plies] <= depth,
        reduction_of(rows, depth, number) <= row_for(rows, number).len(),
{
    let row = row_for(rows, number);
    lemma_reached(row, depth, plies as nat, row.len());
}

proof fn lemma_quiet_nodes_grow(
    st: Setting,
    m: Memory,
    nodes: int,
    board: Position,
    ply: int,
    p: Picker,
    alpha: int,
    beta: int,
    result: int,
    keys: Seq<u64>,
)
    requires
        p.wf(),
    ensures
        quiesced_moves(st, m, nodes, board, ply, p, alpha, beta, result, keys).0 >= nodes,
    decreases p.left(),
{
    reveal(quiesced_moves);
    reveal(quiesced);
    lemma_picked(p);
    let (q, picked) = pick(p);
    if let Some(mv) = picked {
        if board.checkers == 0 && mv.see_score < -100 {
            lemma_quiet_nodes_grow(st, m, nodes, board, ply, q, alpha, beta, result, keys);
        } else {
            let next = played(board, mv.mv);
            let (after, child) = quiesced(
                st,
                m,
                nodes,
                next,
                ply + 1,
                -beta,
                -alpha,
                keys.push(next.hash),
            );
            if let Some(score) = child {
                let x = -score;
                if x < beta {
                    lemma_quiet_nodes_grow(
                        st,
                        m,
                        larger(nodes, after),
                        board,
                        ply,
                        q,
                        if x > result {
                            larger(alpha, x)
                        } else {
                            alpha
                        },
                        beta,
                        larger(result, x),
                        keys,
                    );
                }
            }
        }
    }
}

proof fn lemma_tried_nodes_grow(st: Setting, s: State, at: Place, t: Task, run: Run)
    requires
        run.picker.wf(),
    ensures
        tried_moves(st, s, at, t, run).state.nodes >= s.nodes,
    decreases run.picker.left(),
{
    let (q, picked) = pick(run.picker);
    unfold_tried_moves(st, s, at, t, run);
    lemma_picked(run.picker);
    picked_move_was_available(run.picker);
    if let Some(mv) = picked {
        if is_pruned(at.board, t, mv, run.count + 1) {
            lemma_tried_nodes_grow(st, s, at, t, skipped(run, q));
        } else {
            let r = late_reduction(st, at.board, t, mv, run.count + 1);
            let probe = searched_move(st, s, at, move_task(t, run, r), mv, r == 0, run.first);
            let after = advanced(s, probe.state);
            let o = if needs_full_depth(run, r, probe.score) {
                searched_move(st, after, at, move_task(t, run, 0), mv, true, run.first)
            } else {
                probe
            };
            let now = advanced(after, o.state);
            if let Some(x) = o.score {
                lemma_tried_nodes_grow(st, now, at, t, continued(run, q, mv, x));
            }
        }
    }
}

/// Every search visits a node at least, and none is taken back.
pub proof fn every_search_counts_its_node(st: Setting, s: State, at: Place, t: Task)
    ensures
        searched(st, s, at, t).state.nodes >= s.nodes + 1,
{
    let here = State { nodes: s.nodes + 1, ..s };
    if t.depth <= 0 {
        unfold_quiet_search(st, s, at, t);
        reveal(quiesced);
        reveal(quiesced_moves);
        let eval = evaluation(st.network, at.board);
        let all = generated(s.memory, at.board, None);
        let some = crate::model::generated_for_quiescence(s.memory, at.board);
        new_picker_has_every_move(all);
        new_picker_has_every_move(some);
        lemma_quiet_nodes_grow(
            st,
            s.memory,
            s.nodes + 1,
            at.board,
            at.ply,
            picker_of(all),
            t.alpha,
            t.beta,
            -crate::model::MATE_SCORE as int,
            at.keys,
        );
        lemma_quiet_nodes_grow(
            st,
            s.memory,
            s.nodes + 1,
            at.board,
            at.ply,
            picker_of(some),
            larger(t.alpha, eval),
            t.beta,
            eval,
            at.keys,
        );
    } else {
        let low = crate::model::low_bound(s.memory, at, t);
        let high = crate::model::high_bound(s.memory, at, t);
        let tt_move = crate::model::table_move(s.memory, at.board);
        unfold_searched(st, s, at, t);
        let o = searched(st, here, passed_place(at), passed_task(st, at, t, high));
        lemma_moves_nodes_grow(st, here, at, t, low, high, tt_move);
        lemma_moves_nodes_grow(st, advanced(here, o.state), at, t, low, high, tt_move);
    }
}

proof fn lemma_moves_nodes_grow(
    st: Setting,
    s: State,
    at: Place,
    t: Task,
    low: int,
    high: int,
    tt_move: Option<Move>,
)
    ensures
        searched_moves(st, s, at, t, low, high, tt_move).state.nodes >= s.nodes,
{
    let moves = generated(s.memory, at.board, tt_move);
    unfold_searched_moves(st, s, at, t, low, high, tt_move);
    new_picker_has_every_move(moves);
    lemma_tried_nodes_grow(st, s, at, Task { beta: high, ..t }, fresh_run(moves, low));
}

/// Whether a position is to be searched on by a task: it is not drawn, has a legal
/// move, and the table knows nothing of it that is deep enough.
pub open spec fn is_to_be_searched(st: Setting, s: State, at: Place, t: Task) -> bool {
    &&& may_go_on(st, s.nodes)
    &&& t.depth > 0
    &&& at.board.halfmove_clock < 100
    &&& legal_moves_of(at.board).len() > 0
    &&& is_rare(at.keys, at.board)
    &&& lookup(s.memory.tt, at.board.hash) matches Some(entry) ==> entry.depth < t.depth
}

/// Whether the moves of a node are searched at once: nothing is cut off by its
/// evaluation, and its side may not try to pass.
pub open spec fn goes_by_its_moves(st: Setting, at: Place, t: Task) -> bool {
    &&& at.board.wf()
    &&& !may_pass(st, at, t)
    &&& t.expected == NodeType::PV || at.board.checkers != 0 || t.depth > 5 || evaluation(
        st.network,
        at.board,
    ) < t.beta + 123 * t.depth
}

/// What a search makes of a node's first move: it is searched at full depth, one
/// ply less, between all the bounds, and counts with the other sign. The node is
/// worth that at least. Where that is too much already, no other move is tried, and
/// what was learned of it is remembered.
pub proof fn a_node_is_worth_its_first_move(
    st: Setting,
    s: State,
    at: Place,
    t: Task,
    mv: EngineMove,
)
    requires
        is_to_be_searched(st, s, at, t),
        goes_by_its_moves(st, at, t),
        pick(picker_of(generated(s.memory, at.board, table_move(s.memory, at.board)))).1 == Some(
            mv,
        ),
    ensures
        ({
            let next = played(at.board, mv.mv);
            let q = pick(
                picker_of(generated(s.memory, at.board, table_move(s.memory, at.board))),
            ).0;
            let o = searched(
                st,
                State { nodes: s.nodes + 1, ..s },
                Place {
                    board: next,
                    ply: at.ply + 1,
                    keys: at.keys.push(next.hash),
                    stack: at.stack.push(
                        StackMove { mv: mv.mv, piece: mv.piece_type, is_null: false },
                    ),
                },
                Task {
                    depth: t.depth - 1,
                    expected: match t.expected {
                        NodeType::PV => NodeType::PV,
                        NodeType::CUT => NodeType::ALL,
                        NodeType::ALL => NodeType::CUT,
                    },
                    null_position: false,
                    alpha: -t.beta,
                    beta: -t.alpha,
                },
            );
            let r = searched(st, s, at, t);
            &&& o.score is None ==> r.score is None
            &&& o.score is Some && r.score is Some ==> r.score->0 >= -(o.score->0) || r.score->0
                <= -1_000_000_000
            &&& o.score is Some && -(o.score->0) >= t.beta && o.score->0 < 1_000_000_000
                ==> r.score == Some(-(o.score->0)) && r.state.memory == recorded(
                rewarded(o.state.memory, at.board, mv, t.depth, q, at.stack),
                at.board,
                t.depth,
                at.ply,
                t.alpha,
                t.beta,
                evaluation(st.network, at.board),
                -(o.score->0),
                Some(mv),
            )
            &&& r.state.nodes >= s.nodes + 2
        }),
{
    lemma_rare_is_not_repeated(at.board, at.keys);
    lemma_officers(at.board);
    unfold_searched(st, s, at, t);
    let here = State { nodes: s.nodes + 1, ..s };
    let tt_move = table_move(s.memory, at.board);
    let moves = generated(s.memory, at.board, tt_move);
    let run = fresh_run(moves, t.alpha);
    let d = t.depth;
    assert(3 * d * d >= 0) by (nonlinear_arith)
        requires
            d >= 0,
    ;
    unfold_searched_moves(st, here, at, t, t.alpha, t.beta, tt_move);
    new_picker_has_every_move(moves);
    picked_move_was_available(run.picker);
    lemma_picked(run.picker);
    unfold_tried_moves(st, here, at, t, run);
    unfold_searched_move(st, here, at, move_task(t, run, 0), mv, true, true);
    every_search_counts_its_node(
        st,
        here,
        next_place(at, mv),
        crate::model::full_task(move_task(t, run, 0)),
    );
    let q = pick(run.picker).0;
    let o = searched_move(st, here, at, move_task(t, run, 0), mv, true, true);
    let now = advanced(here, o.state);
    assert(advanced(now, o.state) == now);
    if let Some(x) = o.score {
        lemma_tried_nodes_grow(st, now, at, t, continued(run, q, mv, x));
        lemma_result_grows(st, now, at, t, continued(run, q, mv, x));
    }
}

/// The move that the table has for a position is the first that is tried, if it is
/// legal there.
pub proof fn the_move_of_the_table_is_tried_first(m: Memory, board: Position, mv: Move)
    requires
        table_move(m, board) == Some(mv),
    ensures
        pick(picker_of(generated(m, board, table_move(m, board)))).1 matches Some(e) && e.mv == mv,
{
    let moves = generated(m, board, Some(mv));
    let e = scored(m, board, Some(mv), mv);
    generated_moves_are_the_legal_moves(m, board, Some(mv), e);
    crate::model::lemma_in_moves(moves, e);
    let all = crate::model::scored_moves(m, board, Some(mv));
    lemma_filtered(all, |x: EngineMove| crate::model::is_bad(x), e);
    lemma_filtered(all, |x: EngineMove| crate::model::is_rest(x), e);
    assert(moves.good.contains(e));
    let k = moves.good.index_of(e);
    assert(moves.good[k] == e);
    lemma_tt_place(moves.good, 0);
    if let Some(i) = tt_place(moves.good, 0) {
        let first = moves.good[i];
        assert(moves.good.contains(first));
        crate::model::lemma_in_moves(moves, first);
        generated_moves_are_the_legal_moves(m, board, Some(mv), first);
    }
}

/// A node that was searched is remembered by its result, with its depth and as a
/// result between the bounds that it was given. A search that was cut short in it
/// leaves no result.
pub proof fn a_searched_node_is_remembered(st: Setting, s: State, at: Place, t: Task)
    requires
        is_to_be_searched(st, s, at, t),
        goes_by_its_moves(st, at, t),
    ensures
        ({
            let moves = generated(s.memory, at.board, table_move(s.memory, at.board));
            let here = State { nodes: s.nodes + 1, ..s };
            let tried = tried_moves(st, here, at, t, fresh_run(moves, t.alpha));
            let r = searched(st, s, at, t);
            match tried.best {
                None => r.score is None && r.state == tried.state,
                Some((x, best)) => r.score == Some(x) && r.state.nodes == tried.state.nodes
                    && r.state.memory == recorded(
                    tried.state.memory,
                    at.board,
                    t.depth,
                    at.ply,
                    t.alpha,
                    t.beta,
                    evaluation(st.network, at.board),
                    x,
                    best,
                ),
            }
        }),
{
    lemma_rare_is_not_repeated(at.board, at.keys);
    lemma_officers(at.board);
    unfold_searched(st, s, at, t);
    let here = State { nodes: s.nodes + 1, ..s };
    let tt_move = table_move(s.memory, at.board);
    unfold_searched_moves(st, here, at, t, t.alpha, t.beta, tt_move);
    assert(crate::model::deep_entry(s.memory, at.board, t.depth) is None);
}

/// What is made of the next move of a node by its number, the first being one: a
/// quiet one that comes too late is left out, and one that comes later than the first
/// is searched less deep, and at full depth only where it then was better than the
/// best so far.
pub proof fn moves_are_searched_by_their_number(
    st: Setting,
    s: State,
    at: Place,
    t: Task,
    run: Run,
    mv: EngineMove,
)
    requires
        run.picker.wf(),
        pick(run.picker).1 == Some(mv),
        t.depth >= 1,
    ensures
        ({
            let q = pick(run.picker).0;
            let number = run.count + 1;
            let quiet = !mv.is_capture && !mv.promotion && at.board.checkers == 0;
            let late = quiet && t.expected != NodeType::PV && number >= 5 + 3 * (t.depth * t.depth);
            let less = if quiet && number > 1 && t.depth > 1 {
                reduction_of(st.reductions, t.depth, number)
            } else {
                0
            };
            let full = Task {
                depth: t.depth - 1,
                null_position: false,
                alpha: run.alpha,
                beta: t.beta,
                expected: t.expected,
            };
            let probe = searched_move(
                st,
                s,
                at,
                Task { depth: t.depth - 1 - less, ..full },
                mv,
                less == 0,
                run.first,
            );
            let after = State {
                memory: probe.state.memory,
                nodes: larger(s.nodes, probe.state.nodes),
            };
            let again = searched_move(st, after, at, full, mv, true, run.first);
            let all = tried_moves(st, s, at, t, run);
            &&& late ==> all == tried_moves(st, s, at, t, skipped(run, q))
            &&& !late && probe.score is None ==> all.best is None
            &&& !late && probe.score is Some && (less == 0 || probe.score->0 <= run.alpha) ==> (
            all.best matches Some((x, _)) ==> x >= probe.score->0)
            &&& !late && probe.score is Some && less > 0 && probe.score->0 > run.alpha ==> (
            all.best matches Some((x, _)) ==> again.score is Some && x >= again.score->0)
            &&& !late ==> all.state.nodes >= probe.state.nodes
        }),
{
    let q = pick(run.picker).0;
    let d = t.depth;
    assert(3 * d * d == 3 * (d * d)) by (nonlinear_arith);
    unfold_tried_moves(st, s, at, t, run);
    lemma_picked(run.picker);
    picked_move_was_available(run.picker);
    let r = late_reduction(st, at.board, t, mv, run.count + 1);
    let probe = searched_move(st, s, at, move_task(t, run, r), mv, r == 0, run.first);
    let after = advanced(s, probe.state);
    let o = if needs_full_depth(run, r, probe.score) {
        searched_move(st, after, at, move_task(t, run, 0), mv, true, run.first)
    } else {
        probe
    };
    let now = advanced(after, o.state);
    if let Some(x) = o.score {
        lemma_tried_nodes_grow(st, now, at, t, continued(run, q, mv, x));
        lemma_result_grows(st, now, at, t, continued(run, q, mv, x));
    }
}

proof fn lemma_result_grows(st: Setting, s: State, at: Place, t: Task, run: Run)
    requires
        run.picker.wf(),
    ensures
        tried_moves(st, s, at, t, run).best matches Some((x, _)) ==> x >= run.result,
    decreases run.picker.left(),
{
    let (q, picked) = pick(run.picker);
    unfold_tried_moves(st, s, at, t, run);
    lemma_picked(run.picker);
    picked_move_was_available(run.picker);
    if let Some(mv) = picked {
        if is_pruned(at.board, t, mv, run.count + 1) {
            lemma_result_grows(st, s, at, t, skipped(run, q));
        } else {
            let r = late_reduction(st, at.board, t, mv, run.count + 1);
            let probe = searched_move(st, s, at, move_task(t, run, r), mv, r == 0, run.first);
            let after = advanced(s, probe.state);
            let o = if needs_full_depth(run, r, probe.score) {
                searched_move(st, after, at, move_task(t, run, 0), mv, true, run.first)
            } else {
                probe
            };
            let now = advanced(after, o.state);
            if let Some(x) = o.score {
                lemma_result_grows(st, now, at, t, continued(run, q, mv, x));
            }
        }
    }
}

/// A move after the first is asked first only whether it is better than the best so
/// far. Where it is, and is not too good, it is searched again between all the
/// bounds, if that is allowed.
pub proof fn later_moves_are_asked_to_be_better(
    st: Setting,
    s: State,
    at: Place,
    t: Task,
    mv: EngineMove,
    again: bool,
)
    ensures
        ({
            let next = next_place(at, mv);
            let probe = searched(
                st,
                s,
                next,
                Task {
                    depth: t.depth,
                    expected: NodeType::CUT,
                    null_position: false,
                    alpha: -t.alpha - 1,
                    beta: -t.alpha,
                },
            );
            let r = searched_move(st, s, at, t, mv, again, false);
            &&& probe.score is None ==> r.score is None
            &&& probe.score is Some && (-(probe.score->0) <= t.alpha || -(probe.score->0) >= t.beta
                || !again) ==> r.score == Some(-(probe.score->0)) && r.state == probe.state
            &&& probe.score is Some && t.alpha < -(probe.score->0) < t.beta && again
                ==> r == flipped(
                searched(
                    st,
                    State {
                        memory: probe.state.memory,
                        nodes: larger(s.nodes, probe.state.nodes),
                    },
                    next,
                    Task {
                        depth: t.depth,
                        expected: match t.expected {
                            NodeType::PV => NodeType::PV,
                            NodeType::CUT => NodeType::ALL,
                            NodeType::ALL => NodeType::CUT,
                        },
                        null_position: false,
                        alpha: -t.beta,
                        beta: -t.alpha,
                    },
                ),
            )
        }),
{
    unfold_searched_move(st, s, at, t, mv, again, false);
}

/// A move that is better than the best so far becomes the best, and raises what the
/// moves after it are asked to beat; any other changes nothing but the count.
pub proof fn a_better_move_raises_the_bar(run: Run, q: Picker, mv: EngineMove, x: int)
    ensures
        ({
            let after = continued(run, q, mv, x);
            &&& x > run.result ==> after.result == x && after.best == Some(mv)
            &&& x > run.result && x > run.alpha ==> after.alpha == x
            &&& x <= run.alpha || x <= run.result ==> after.alpha == run.alpha
            &&& x <= run.result ==> after.result == run.result && after.best == run.best
            &&& after.count == run.count + 1 && !after.first && after.picker == q
        }),
{
}

/// A move that was searched less deep is searched again at full depth where it then
/// was better than the best so far, and only there.
pub proof fn a_reduced_move_that_is_better_is_searched_again(run: Run, reduction: int, x: int)
    ensures
        needs_full_depth(run, reduction, Some(x)) <==> reduction > 0 && x > run.alpha,
        !needs_full_depth(run, reduction, None),
{
}

/// After a quiet move is left out, only the captures that lose something are tried.
pub proof fn no_quiet_move_comes_after_one_left_out(run: Run, q: Picker)
    ensures
        available(skipped(run, q).picker) == q.bad.to_multiset(),
        skipped(run, q).result == run.result,
        skipped(run, q).alpha == run.alpha,
        skipped(run, q).best == run.best,
        skipped(run, q).count == run.count + 1,
{
}

/// What a search makes of a late move: it is searched less deep by its reduction,
/// and between the bounds as they are by then.
pub proof fn late_moves_are_searched_by_their_reduction(
    t: Task,
    run: Run,
    reduction: int,
)
    ensures
        move_task(t, run, reduction).depth == t.depth - 1 - reduction,
        move_task(t, run, reduction).alpha == run.alpha,
        move_task(t, run, reduction).beta == t.beta,
        move_task(t, run, reduction).expected == t.expected,
        !move_task(t, run, reduction).null_position,
{
}

} // verus!
