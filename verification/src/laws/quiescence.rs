//! The end of each line of a search, where captures are played out.

use crate::chess::{Move, Position};
use crate::laws::search::{
    is_rare, lemma_quiet_result_grows, lemma_rare_is_not_repeated, mates, may_go_on,
};
use crate::limits::larger;
use crate::model::{
    generated, generated_for_quiescence, generated_moves_are_the_legal_moves, quiesced,
    quiesced_moves, quiescence_gets_captures_and_promotions, scored, scored_for_quiescence,
    searched, unfold_quiet_search, Memory, Place, Setting, State, Task,
};
use crate::moves::EngineMove;
use crate::nnue::evaluation;
use crate::picker::{
    available, lemma_picked, new_picker_has_every_move, pick, picked_move_was_available, picker_of,
    Picker,
};
use crate::rules::{legal_moves_of, played};
use vstd::prelude::*;
use vstd::seq_lib::to_multiset_contains;

verus! {

proof fn lemma_mate_in_quiescence(
    st: Setting,
    m: Memory,
    nodes: int,
    at: Place,
    p: Picker,
    alpha: int,
    beta: int,
    result: int,
    e: EngineMove,
)
    requires
        p.wf(),
        mates(at, e.mv),
        at.board.checkers != 0 || e.see_score >= -100,
        available(p).count(e) > 0 || result >= 99_999 - at.ply,
    ensures
        quiesced_moves(st, m, nodes, at.board, at.ply, p, alpha, beta, result, at.keys).1
            matches Some(x) ==> x >= 99_999 - at.ply || x >= beta,
    decreases p.left(),
{
    broadcast use vstd::multiset::group_multiset_axioms;

    reveal(quiesced_moves);
    reveal(quiesced);
    lemma_picked(p);
    picked_move_was_available(p);
    let (q, picked) = pick(p);
    let board = at.board;
    if let Some(mv) = picked {
        if board.checkers == 0 && mv.see_score < -100 {
            lemma_mate_in_quiescence(st, m, nodes, at, q, alpha, beta, result, e);
        } else {
            let next = played(board, mv.mv);
            let (after, child) = quiesced(
                st,
                m,
                nodes,
                next,
                at.ply + 1,
                -beta,
                -alpha,
                at.keys.push(next.hash),
            );
            if mv == e {
                lemma_rare_is_not_repeated(next, at.keys.push(next.hash));
            }
            if let Some(score) = child {
                let x = -score;
                if x < beta {
                    lemma_mate_in_quiescence(
                        st,
                        m,
                        larger(nodes, after),
                        at,
                        q,
                        if x > result {
                            larger(alpha, x)
                        } else {
                            alpha
                        },
                        beta,
                        larger(result, x),
                        e,
                    );
                }
            }
        }
    }
}

/// A mate in one is seen even at the end of a line: in check whatever move it is,
/// and else if it is a capture or a promotion that gives away a pawn at most.
pub proof fn a_mate_is_seen_at_the_end(st: Setting, s: State, at: Place, t: Task, mv: Move)
    requires
        t.depth <= 0,
        mates(at, mv),
        at.board.halfmove_clock < 100,
        is_rare(at.keys, at.board),
        at.board.checkers != 0 || ({
            let e = scored_for_quiescence(s.memory, at.board, mv);
            (e.is_capture || e.promotion) && e.see_score >= -100
        }),
    ensures
        searched(st, s, at, t).score matches Some(x) ==> x >= 99_999 - at.ply || x >= t.beta,
{
    lemma_rare_is_not_repeated(at.board, at.keys);
    unfold_quiet_search(st, s, at, t);
    reveal(quiesced);
    reveal(quiesced_moves);
    let board = at.board;
    let eval = evaluation(st.network, board);
    if board.checkers != 0 {
        let moves = generated(s.memory, board, None);
        let e = scored(s.memory, board, None, mv);
        generated_moves_are_the_legal_moves(s.memory, board, None, e);
        new_picker_has_every_move(moves);
        to_multiset_contains(moves.all(), e);
        lemma_mate_in_quiescence(
            st,
            s.memory,
            s.nodes + 1,
            at,
            picker_of(moves),
            t.alpha,
            t.beta,
            -100_000,
            e,
        );
    } else {
        let moves = generated_for_quiescence(s.memory, board);
        let e = scored_for_quiescence(s.memory, board, mv);
        quiescence_gets_captures_and_promotions(s.memory, board, e);
        new_picker_has_every_move(moves);
        to_multiset_contains(moves.all(), e);
        lemma_mate_in_quiescence(
            st,
            s.memory,
            s.nodes + 1,
            at,
            picker_of(moves),
            larger(t.alpha, eval),
            t.beta,
            eval,
            e,
        );
    }
}

proof fn lemma_nothing_worth_trying(
    st: Setting,
    m: Memory,
    nodes: int,
    board: Position,
    ply: int,
    p: Picker,
    alpha: int,
    beta: int,
    result: int,
    keys: Seq<u64>,
)
    requires
        p.wf(),
        board.checkers == 0,
        forall|e: EngineMove| #[trigger] available(p).count(e) > 0 ==> e.see_score < -100,
    ensures
        quiesced_moves(st, m, nodes, board, ply, p, alpha, beta, result, keys) == (
            nodes,
            Some(result),
        ),
    decreases p.left(),
{
    broadcast use vstd::multiset::group_multiset_axioms;

    reveal(quiesced_moves);
    reveal(quiesced);
    lemma_picked(p);
    picked_move_was_available(p);
    let (q, picked) = pick(p);
    if let Some(mv) = picked {
        assert(available(p).count(mv) > 0);
        assert forall|e: EngineMove| #[trigger] available(q).count(e) > 0 implies e.see_score
            < -100 by {
            assert(available(p).count(e) > 0);
        }
        lemma_nothing_worth_trying(st, m, nodes, board, ply, q, alpha, beta, result, keys);
    }
}

/// A quiet position is worth its evaluation: one outside check where every capture
/// and promotion gives away more than a pawn, or where there is none.
pub proof fn a_quiet_position_is_worth_its_evaluation(st: Setting, s: State, at: Place, t: Task)
    requires
        t.depth <= 0,
        may_go_on(st, s.nodes),
        at.board.checkers == 0,
        at.board.halfmove_clock < 100,
        legal_moves_of(at.board).len() > 0,
        is_rare(at.keys, at.board),
        forall|mv: Move| #[trigger]
            legal_moves_of(at.board).contains(mv) ==> {
                let e = scored_for_quiescence(s.memory, at.board, mv);
                (e.is_capture || e.promotion) ==> e.see_score < -100
            },
    ensures
        searched(st, s, at, t).score == Some(evaluation(st.network, at.board)),
        searched(st, s, at, t).state == (State { nodes: s.nodes + 1, ..s }),
{
    lemma_rare_is_not_repeated(at.board, at.keys);
    unfold_quiet_search(st, s, at, t);
    reveal(quiesced);
    reveal(quiesced_moves);
    let board = at.board;
    let eval = evaluation(st.network, board);
    let moves = generated_for_quiescence(s.memory, board);
    new_picker_has_every_move(moves);
    assert forall|e: EngineMove| #[trigger] available(picker_of(moves)).count(e) > 0 implies e.see_score
        < -100 by {
        to_multiset_contains(moves.all(), e);
        quiescence_gets_captures_and_promotions(s.memory, board, e);
        assert(legal_moves_of(board).contains(e.mv));
    }
    lemma_nothing_worth_trying(
        st,
        s.memory,
        s.nodes + 1,
        board,
        at.ply,
        picker_of(moves),
        larger(t.alpha, eval),
        t.beta,
        eval,
        at.keys,
    );
}

/// The first capture at the end of a line is asked to be better than standing still,
/// and counts with the other sign; the position is worth that at least.
pub proof fn captures_are_asked_to_be_better_than_standing_still(
    st: Setting,
    s: State,
    at: Place,
    t: Task,
    mv: EngineMove,
)
    requires
        t.depth <= 0,
        may_go_on(st, s.nodes),
        at.board.checkers == 0,
        at.board.halfmove_clock < 100,
        legal_moves_of(at.board).len() > 0,
        is_rare(at.keys, at.board),
        evaluation(st.network, at.board) < t.beta,
        pick(picker_of(generated_for_quiescence(s.memory, at.board))).1 == Some(mv),
        mv.see_score >= -100,
    ensures
        ({
            let next = played(at.board, mv.mv);
            let eval = evaluation(st.network, at.board);
            let child = searched(
                st,
                State { nodes: s.nodes + 1, ..s },
                Place {
                    board: next,
                    ply: at.ply + 1,
                    keys: at.keys.push(next.hash),
                    stack: at.stack,
                },
                Task {
                    depth: 0,
                    alpha: -t.beta,
                    beta: if eval > t.alpha {
                        -eval
                    } else {
                        -t.alpha
                    },
                    ..t
                },
            );
            let r = searched(st, s, at, t);
            &&& child.score is None ==> r.score is None
            &&& child.score is Some && r.score is Some ==> r.score->0 >= -(child.score->0)
            &&& child.score is Some && -(child.score->0) >= t.beta ==> r.score == Some(
                -(child.score->0),
            )
        }),
{
    lemma_rare_is_not_repeated(at.board, at.keys);
    unfold_quiet_search(st, s, at, t);
    reveal(quiesced);
    reveal(quiesced_moves);
    let board = at.board;
    let next = played(board, mv.mv);
    let eval = evaluation(st.network, board);
    let alpha = larger(t.alpha, eval);
    let moves = generated_for_quiescence(s.memory, board);
    let p = picker_of(moves);
    new_picker_has_every_move(moves);
    lemma_picked(p);
    picked_move_was_available(p);
    let here = s.nodes + 1;
    let place = Place {
        board: next,
        ply: at.ply + 1,
        keys: at.keys.push(next.hash),
        stack: at.stack,
    };
    let task = Task { depth: 0, alpha: -t.beta, beta: -alpha, ..t };
    unfold_quiet_search(st, State { nodes: here, ..s }, place, task);
    let (after, child) = quiesced(
        st,
        s.memory,
        here,
        next,
        at.ply + 1,
        -t.beta,
        -alpha,
        at.keys.push(next.hash),
    );
    assert(searched(st, State { nodes: here, ..s }, place, task).score == child);
    if let Some(score) = child {
        let x = -score;
        if x < t.beta {
            lemma_quiet_result_grows(
                st,
                s.memory,
                larger(here, after),
                board,
                at.ply,
                pick(p).0,
                if x > eval {
                    larger(alpha, x)
                } else {
                    alpha
                },
                t.beta,
                larger(eval, x),
                at.keys,
            );
        }
    }
}

} // verus!
