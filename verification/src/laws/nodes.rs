//! How many nodes a search visits.

use crate::chess::{Move, Position};
use crate::deepening::{
    aspirated, completed_depths, deepened, permitted, root_searched, root_task, root_tried, window,
    Completed, WIDEST,
};
use crate::limits::{larger, out_of_nodes, poll_of, Poll};
use crate::model::{
    advanced, continued, fresh_run, full_task, generated, generated_for_quiescence, is_pruned,
    late_reduction, move_task, needs_full_depth, next_place, nodes_to_go, passed_place, passed_task,
    probe_task, quiesced, quiesced_moves, searched, searched_move, searched_moves, skipped,
    tried_moves, unfold_quiet_search, unfold_searched, unfold_searched_move, unfold_searched_moves,
    unfold_tried_moves, Memory, Place, Run, Setting, State, Task,
};
use crate::nnue::evaluation;
use crate::picker::{
    lemma_picked, new_picker_has_every_move, pick, picked_move_was_available, picker_of, Moves,
    Picker,
};
use crate::rules::played;
use vstd::prelude::*;

verus! {

/// Whether a search goes from one count of nodes to another without a node after
/// the one at which it has to stop, and has a result only if it has not to.
pub open spec fn keeps_within(st: Setting, from: int, to: int, found: bool) -> bool {
    &&& to >= from
    &&& to > from ==> !out_of_nodes(st.node_limit, to - 1)
    &&& found ==> !out_of_nodes(st.node_limit, to)
}

proof fn lemma_quiesced_within(
    st: Setting,
    m: Memory,
    nodes: int,
    board: Position,
    ply: int,
    alpha: int,
    beta: int,
    keys: Seq<u64>,
)
    requires
        !out_of_nodes(st.node_limit, nodes),
    ensures
        ({
            let (to, score) = quiesced(st, m, nodes, board, ply, alpha, beta, keys);
            to > nodes && keeps_within(st, nodes, to, score is Some)
        }),
    decreases nodes_to_go(nodes), 1nat,
{
    reveal(quiesced);
    reveal(quiesced_moves);
    let here = nodes + 1;
    let all = generated(m, board, None);
    let some = generated_for_quiescence(m, board);
    new_picker_has_every_move(all);
    new_picker_has_every_move(some);
    if !out_of_nodes(st.node_limit, here) {
        let eval = evaluation(st.network, board);
        lemma_quiesced_moves_within(
            st,
            m,
            here,
            board,
            ply,
            picker_of(all),
            alpha,
            beta,
            -crate::model::MATE_SCORE as int,
            keys,
        );
        lemma_quiesced_moves_within(
            st,
            m,
            here,
            board,
            ply,
            picker_of(some),
            larger(alpha, eval),
            beta,
            eval,
            keys,
        );
    }
}

proof fn lemma_quiesced_moves_within(
    st: Setting,
    m: Memory,
    nodes: int,
    board: Position,
    ply: int,
    p: Picker,
    alpha: int,
    beta: int,
    result: int,
    keys: Seq<u64>,
)
    requires
        p.wf(),
        !out_of_nodes(st.node_limit, nodes),
    ensures
        ({
            let (to, score) = quiesced_moves(
                st,
                m,
                nodes,
                board,
                ply,
                p,
                alpha,
                beta,
                result,
                keys,
            );
            keeps_within(st, nodes, to, score is Some)
        }),
    decreases nodes_to_go(nodes), 4 + p.left(),
{
    reveal(quiesced);
    reveal(quiesced_moves);
    lemma_picked(p);
    let (q, picked) = pick(p);
    if let Some(mv) = picked {
        if board.checkers == 0 && mv.see_score < -100 {
            lemma_quiesced_moves_within(
                st,
                m,
                nodes,
                board,
                ply,
                q,
                alpha,
                beta,
                result,
                keys,
            );
        } else {
            let next = played(board, mv.mv);
            lemma_quiesced_within(
                st,
                m,
                nodes,
                next,
                ply + 1,
                -beta,
                -alpha,
                keys.push(next.hash),
            );
            let (after, child) = quiesced(
                st,
                m,
                nodes,
                next,
                ply + 1,
                -beta,
                -alpha,
                keys.push(next.hash),
            );
            if let Some(score) = child {
                let x = -score;
                if x < beta {
                    lemma_quiesced_moves_within(
                        st,
                        m,
                        larger(nodes, after),
                        board,
                        ply,
                        q,
                        if x > result {
                            larger(alpha, x)
                        } else {
                            alpha
                        },
                        beta,
                        larger(result, x),
                        keys,
                    );
                }
            }
        }
    }
}

/// A search that may go on visits no node after the one at which its limit is
/// reached, and has a result only if it was not.
pub proof fn a_search_keeps_within_its_nodes(st: Setting, s: State, at: Place, t: Task)
    requires
        !out_of_nodes(st.node_limit, s.nodes),
    ensures
        ({
            let o = searched(st, s, at, t);
            o.state.nodes > s.nodes && keeps_within(st, s.nodes, o.state.nodes, o.score is Some)
        }),
    decreases nodes_to_go(s.nodes), 2nat,
{
    let here = State { nodes: s.nodes + 1, ..s };
    if t.depth <= 0 {
        unfold_quiet_search(st, s, at, t);
        lemma_quiesced_within(
            st,
            s.memory,
            s.nodes,
            at.board,
            at.ply,
            t.alpha,
            t.beta,
            at.keys,
        );
    } else {
        unfold_searched(st, s, at, t);
        if !out_of_nodes(st.node_limit, here.nodes) {
            let low = crate::model::low_bound(s.memory, at, t);
            let high = crate::model::high_bound(s.memory, at, t);
            let tt_move = crate::model::table_move(s.memory, at.board);
            lemma_moves_within(st, here, at, t, low, high, tt_move);
            let pass = passed_task(st, at, t, high);
            a_search_keeps_within_its_nodes(st, here, passed_place(at), pass);
            let o = searched(st, here, passed_place(at), pass);
            if o.score is Some {
                lemma_moves_within(st, advanced(here, o.state), at, t, low, high, tt_move);
            }
        }
    }
}

proof fn lemma_moves_within(
    st: Setting,
    s: State,
    at: Place,
    t: Task,
    low: int,
    high: int,
    tt_move: Option<Move>,
)
    requires
        !out_of_nodes(st.node_limit, s.nodes),
    ensures
        ({
            let o = searched_moves(st, s, at, t, low, high, tt_move);
            keeps_within(st, s.nodes, o.state.nodes, o.score is Some)
        }),
    decreases nodes_to_go(s.nodes), 5 + picker_of(generated(s.memory, at.board, tt_move)).left(),
{
    let moves = generated(s.memory, at.board, tt_move);
    unfold_searched_moves(st, s, at, t, low, high, tt_move);
    new_picker_has_every_move(moves);
    lemma_tried_within(st, s, at, Task { beta: high, ..t }, fresh_run(moves, low));
}

proof fn lemma_tried_within(st: Setting, s: State, at: Place, t: Task, run: Run)
    requires
        run.picker.wf(),
        !out_of_nodes(st.node_limit, s.nodes),
    ensures
        ({
            let tried = tried_moves(st, s, at, t, run);
            keeps_within(st, s.nodes, tried.state.nodes, tried.best is Some)
        }),
    decreases nodes_to_go(s.nodes), 4 + run.picker.left(),
{
    let (q, picked) = pick(run.picker);
    unfold_tried_moves(st, s, at, t, run);
    lemma_picked(run.picker);
    picked_move_was_available(run.picker);
    if let Some(mv) = picked {
        if is_pruned(at.board, t, mv, run.count + 1) {
            lemma_tried_within(st, s, at, t, skipped(run, q));
        } else {
            let r = late_reduction(st, at.board, t, mv, run.count + 1);
            lemma_move_within(st, s, at, move_task(t, run, r), mv, r == 0, run.first);
            let probe = searched_move(st, s, at, move_task(t, run, r), mv, r == 0, run.first);
            let after = advanced(s, probe.state);
            if needs_full_depth(run, r, probe.score) {
                lemma_move_within(st, after, at, move_task(t, run, 0), mv, true, run.first);
            }
            let o = if needs_full_depth(run, r, probe.score) {
                searched_move(st, after, at, move_task(t, run, 0), mv, true, run.first)
            } else {
                probe
            };
            let now = advanced(after, o.state);
            if let Some(x) = o.score {
                lemma_tried_within(st, now, at, t, continued(run, q, mv, x));
            }
        }
    }
}

proof fn lemma_move_within(
    st: Setting,
    s: State,
    at: Place,
    t: Task,
    mv: crate::moves::EngineMove,
    again: bool,
    first: bool,
)
    requires
        !out_of_nodes(st.node_limit, s.nodes),
    ensures
        ({
            let o = searched_move(st, s, at, t, mv, again, first);
            o.state.nodes > s.nodes && keeps_within(st, s.nodes, o.state.nodes, o.score is Some)
        }),
    decreases nodes_to_go(s.nodes), 3nat,
{
    let next = next_place(at, mv);
    unfold_searched_move(st, s, at, t, mv, again, first);
    if first {
        a_search_keeps_within_its_nodes(st, s, next, full_task(t));
    } else {
        a_search_keeps_within_its_nodes(st, s, next, probe_task(t));
        let probe = searched(st, s, next, probe_task(t));
        if probe.score is Some {
            a_search_keeps_within_its_nodes(st, advanced(s, probe.state), next, full_task(t));
        }
    }
}

proof fn lemma_root_within(st: Setting, s: State, at: Place, depth: int, beta: int, run: Run)
    requires
        run.picker.wf(),
        !out_of_nodes(st.node_limit, s.nodes),
    ensures
        ({
            let tried = root_tried(st, s, at, depth, beta, run);
            keeps_within(st, s.nodes, tried.state.nodes, tried.best is Some)
        }),
    decreases run.picker.left(),
{
    let (q, picked) = pick(run.picker);
    lemma_picked(run.picker);
    if let Some(mv) = picked {
        let t = root_task(depth, run, beta);
        lemma_move_within(st, s, at, t, mv, true, run.first);
        let o = searched_move(st, s, at, t, mv, true, run.first);
        if let Some(x) = o.score {
            if x < beta {
                lemma_root_within(
                    st,
                    advanced(s, o.state),
                    at,
                    depth,
                    beta,
                    continued(run, q, mv, x),
                );
            }
        }
    }
}

proof fn lemma_aspirated_within(
    st: Setting,
    s: State,
    at: Place,
    depth: int,
    moves: Moves,
    previous: int,
    below: int,
    above: int,
)
    requires
        below > 0,
        above > 0,
        !out_of_nodes(st.node_limit, s.nodes),
    ensures
        ({
            let o = aspirated(st, s, at, depth, moves, previous, below, above);
            keeps_within(st, s.nodes, o.state.nodes, o.found is Some)
        }),
    decreases larger(0, 4 * WIDEST - below) + larger(0, 4 * WIDEST - above),
{
    let (alpha, beta) = window(depth, previous, below, above);
    let o = root_searched(st, s, at, depth, moves, alpha, beta);
    new_picker_has_every_move(moves);
    lemma_root_within(st, s, at, depth, beta, fresh_run(moves, alpha));
    if let Some((mv, score)) = o.found {
        if score <= alpha && below <= WIDEST {
            lemma_aspirated_within(
                st,
                o.state,
                at,
                depth,
                moves,
                previous,
                below * 2,
                above,
            );
        } else if score > alpha && score >= beta && above <= WIDEST {
            lemma_aspirated_within(
                st,
                o.state,
                at,
                depth,
                moves,
                previous,
                below,
                above * 2,
            );
        }
    }
}

/// A search with a limit of nodes reports no depth that it had not completed below
/// it, and ends when it is reached: the node at which it is reached is the last but
/// the one that asks for a further depth.
pub proof fn a_limit_of_nodes_is_kept(
    st: Setting,
    s: State,
    at: Place,
    depth: int,
    max_depth: int,
    searchmoves: Seq<Move>,
    completed: Option<Move>,
    previous: int,
    limit: u64,
)
    requires
        st.node_limit == Some(limit),
        s.nodes <= limit,
        s.nodes < u64::MAX,
    ensures
        ({
            let (end, depths) = completed_depths(
                st,
                s,
                at,
                depth,
                max_depth,
                searchmoves,
                completed,
                previous,
            );
            &&& forall|i: int| 0 <= i < depths.len() ==> (#[trigger] depths[i]).nodes < limit
            &&& end.nodes <= limit + 1
        }),
    decreases max_depth + 1 - depth,
{
    let here = State { nodes: s.nodes + 1, ..s };
    if depth <= max_depth && !out_of_nodes(st.node_limit, here.nodes) {
        let moves = permitted(generated(here.memory, at.board, completed), searchmoves);
        lemma_aspirated_within(st, here, at, depth, moves, previous, 20, 20);
        let o = deepened(st, here, at, depth, searchmoves, completed, previous);
        assert(o.state.nodes <= limit);
        match o.found {
            None => {
                if o.state.nodes < u64::MAX {
                    a_limit_of_nodes_is_kept(
                        st,
                        o.state,
                        at,
                        depth + 1,
                        max_depth,
                        searchmoves,
                        completed,
                        previous,
                        limit,
                    );
                }
            },
            Some((mv, score)) => {
                a_limit_of_nodes_is_kept(
                    st,
                    o.state,
                    at,
                    depth + 1,
                    max_depth,
                    searchmoves,
                    Some(mv),
                    score,
                    limit,
                );
                let (end, rest) = completed_depths(
                    st,
                    o.state,
                    at,
                    depth + 1,
                    max_depth,
                    searchmoves,
                    Some(mv),
                    score,
                );
                let first = Completed { depth, mv, score, nodes: o.state.nodes };
                let all = seq![first] + rest;
                assert forall|i: int| 0 <= i < all.len() implies (#[trigger] all[i]).nodes < limit by {
                    if i > 0 {
                        assert(all[i] == rest[i - 1]);
                    }
                }
            },
        }
    }
}

/// The flag stops a search at every node, and so does the limit of nodes. A search with a
/// deadline asks the clock at its first node and then once in every 1024; one without
/// never does.
pub proof fn the_clock_is_asked_often_enough(limit: Option<u64>, nodes: int)
    requires
        nodes >= 0,
    ensures
        forall|deadline: bool| #[trigger]
            poll_of(true, limit, nodes, deadline) == Poll::Stop,
        forall|deadline: bool|
            (limit matches Some(most) && nodes >= most) ==> #[trigger] poll_of(
                false,
                limit,
                nodes,
                deadline,
            ) == Poll::Stop,
        poll_of(false, limit, nodes, false) != Poll::AskClock,
        poll_of(false, None, 1, true) == Poll::AskClock,
        nodes + 1024 < u64::MAX ==> exists|n: int|
            nodes < n <= nodes + 1024 && #[trigger] poll_of(false, None, n, true)
                == Poll::AskClock,
        forall|n: int|
            1 < nodes && nodes < n < nodes + 1024 && poll_of(false, None, nodes, true)
                == Poll::AskClock && n < u64::MAX ==> #[trigger] poll_of(false, None, n, true)
                == Poll::GoOn,
{
    let n = (nodes / 1024 + 1) * 1024;
    assert(nodes < n <= nodes + 1024);
    assert(n % 1024 == 0);
    if nodes + 1024 < u64::MAX {
        assert(poll_of(false, None, n, true) == Poll::AskClock);
    }
}

} // verus!
