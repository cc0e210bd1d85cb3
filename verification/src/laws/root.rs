//! The search of a position depth by depth.

use crate::chess::{Move, Position};
use crate::deepening::{
    aspirated, completed_depths, deepened, deepest, permitted, root_searched, root_task, root_tried,
    window, Completed, RootOutcome, WIDEST,
};
use crate::engine::Engine;
use crate::limits::{larger, out_of_nodes};
use crate::model::{
    advanced, continued, fresh_run, generated, generated_moves_are_the_legal_moves, lemma_filtered,
    lemma_in_moves, scored, searched_move, Memory, NodeType, Place, Run, Setting, State, Task,
};
use crate::moves::EngineMove;
use crate::picker::{
    available, lemma_picked, new_picker_has_every_move, pick, picked_move_was_available, picker_of,
    Moves,
};
use crate::probe::{full_search, probed, root};
use crate::rules::legal_moves_of;
use crate::transposition::{lookup, stored_entry_is_found, TTNodeType, TableEntry};
use vstd::prelude::*;
use vstd::seq_lib::to_multiset_contains;

verus! {

/// Whether a score is the outcome of a search of the root between two bounds.
pub open spec fn comes_from(
    st: Setting,
    at: Place,
    depth: int,
    moves: Moves,
    before: State,
    alpha: int,
    beta: int,
    o: RootOutcome,
) -> bool {
    root_searched(st, before, at, depth, moves, alpha, beta) == o
}

/// From the fifth depth on, a score is looked for near that of the depth before:
/// one outside the bounds is not believed but searched for again between wider
/// ones, as long as they can be widened. The first four depths have no bounds.
pub proof fn scores_outside_the_bounds_are_searched_again(
    st: Setting,
    s: State,
    at: Place,
    depth: int,
    moves: Moves,
    previous: int,
    below: int,
    above: int,
)
    requires
        below > 0,
        above > 0,
    ensures
        ({
            let o = aspirated(st, s, at, depth, moves, previous, below, above);
            &&& depth > 4 ==> exists|before: State, low: int, high: int|
                {
                    &&& #[trigger] comes_from(st, at, depth, moves, before, low, high, o)
                    &&& low <= previous - below
                    &&& high >= previous + above
                    &&& o.found matches Some((_, score)) ==> (score > low || previous - low
                        > 250_000_000)
                    &&& o.found matches Some((_, score)) ==> (score < high || score <= low || high
                        - previous > 250_000_000)
                }
            &&& depth <= 4 ==> exists|before: State| #[trigger]
                comes_from(st, at, depth, moves, before, -1_000_000_000, 1_000_000_000, o)
        }),
    decreases larger(0, 4 * WIDEST - below) + larger(0, 4 * WIDEST - above),
{
    let (alpha, beta) = window(depth, previous, below, above);
    let o = root_searched(st, s, at, depth, moves, alpha, beta);
    assert(comes_from(st, at, depth, moves, s, alpha, beta, o));
    if let Some((mv, score)) = o.found {
        if score <= alpha && below <= WIDEST {
            scores_outside_the_bounds_are_searched_again(
                st,
                o.state,
                at,
                depth,
                moves,
                previous,
                below * 2,
                above,
            );
        } else if score > alpha && score >= beta && above <= WIDEST {
            scores_outside_the_bounds_are_searched_again(
                st,
                o.state,
                at,
                depth,
                moves,
                previous,
                below,
                above * 2,
            );
        }
    }
}

/// Whether a move may be the answer: it is legal and one of those asked for, if
/// any are.
pub open spec fn is_asked_for(board: Position, searchmoves: Seq<Move>, mv: Move) -> bool {
    legal_moves_of(board).contains(mv) && (searchmoves.len() == 0 || searchmoves.contains(mv))
}

proof fn lemma_root_best(
    st: Setting,
    s: State,
    at: Place,
    depth: int,
    beta: int,
    run: Run,
    searchmoves: Seq<Move>,
)
    requires
        run.picker.wf(),
        forall|e: EngineMove| #[trigger]
            available(run.picker).count(e) > 0 ==> is_asked_for(at.board, searchmoves, e.mv),
        run.best matches Some(e) ==> is_asked_for(at.board, searchmoves, e.mv),
    ensures
        root_tried(st, s, at, depth, beta, run).best matches Some((_, Some(e))) ==> is_asked_for(
            at.board,
            searchmoves,
            e.mv,
        ),
        root_tried(st, s, at, depth, beta, run).state.nodes >= s.nodes,
    decreases run.picker.left(),
{
    broadcast use vstd::multiset::group_multiset_axioms;

    let (q, picked) = pick(run.picker);
    lemma_picked(run.picker);
    picked_move_was_available(run.picker);
    if let Some(mv) = picked {
        assert(available(run.picker).count(mv) > 0);
        let o = searched_move(st, s, at, root_task(depth, run, beta), mv, true, run.first);
        let now = advanced(s, o.state);
        if let Some(x) = o.score {
            if x < beta {
                assert forall|e: EngineMove| #[trigger] available(q).count(e) > 0 implies is_asked_for(
                    at.board,
                    searchmoves,
                    e.mv,
                ) by {
                    assert(available(run.picker).count(e) > 0);
                }
                lemma_root_best(
                    st,
                    now,
                    at,
                    depth,
                    beta,
                    continued(run, q, mv, x),
                    searchmoves,
                );
            }
        }
    }
}

proof fn lemma_aspirated_best(
    st: Setting,
    s: State,
    at: Place,
    depth: int,
    moves: Moves,
    previous: int,
    below: int,
    above: int,
    searchmoves: Seq<Move>,
)
    requires
        below > 0,
        above > 0,
        forall|e: EngineMove| #[trigger]
            moves.all().contains(e) ==> is_asked_for(at.board, searchmoves, e.mv),
    ensures
        aspirated(st, s, at, depth, moves, previous, below, above).found matches Some((mv, _))
            ==> is_asked_for(at.board, searchmoves, mv),
        aspirated(st, s, at, depth, moves, previous, below, above).state.nodes >= s.nodes,
    decreases larger(0, 4 * WIDEST - below) + larger(0, 4 * WIDEST - above),
{
    let (alpha, beta) = window(depth, previous, below, above);
    let o = root_searched(st, s, at, depth, moves, alpha, beta);
    new_picker_has_every_move(moves);
    let p = picker_of(moves);
    assert forall|e: EngineMove| #[trigger] available(p).count(e) > 0 implies is_asked_for(
        at.board,
        searchmoves,
        e.mv,
    ) by {
        to_multiset_contains(moves.all(), e);
    }
    lemma_root_best(st, s, at, depth, beta, fresh_run(moves, alpha), searchmoves);
    if let Some((mv, score)) = o.found {
        if score <= alpha && below <= WIDEST {
            lemma_aspirated_best(
                st,
                o.state,
                at,
                depth,
                moves,
                previous,
                below * 2,
                above,
                searchmoves,
            );
        } else if score > alpha && score >= beta && above <= WIDEST {
            lemma_aspirated_best(
                st,
                o.state,
                at,
                depth,
                moves,
                previous,
                below,
                above * 2,
                searchmoves,
            );
        }
    }
}

/// The moves that are searched at the root are the legal ones that were asked for,
/// all of them and no others, with the scores that they have in any node.
pub proof fn every_move_asked_for_is_searched(
    m: Memory,
    board: Position,
    completed: Option<Move>,
    searchmoves: Seq<Move>,
    e: EngineMove,
)
    ensures
        permitted(generated(m, board, completed), searchmoves).all().contains(e) <==> is_asked_for(
            board,
            searchmoves,
            e.mv,
        ) && e == scored(m, board, completed, e.mv),
{
    let moves = generated(m, board, completed);
    let few = permitted(moves, searchmoves);
    generated_moves_are_the_legal_moves(m, board, completed, e);
    lemma_in_moves(moves, e);
    lemma_in_moves(few, e);
    if searchmoves.len() > 0 {
        let f = |x: EngineMove| searchmoves.contains(x.mv);
        lemma_filtered(moves.good, f, e);
        lemma_filtered(moves.quiets, f, e);
        lemma_filtered(moves.bad, f, e);
    }
}

/// The depths that a search completes rise from the first one to the last that is
/// allowed, with the nodes that it took, and each has for its best move a legal one
/// that was asked for.
pub proof fn depths_are_completed_in_order(
    st: Setting,
    s: State,
    at: Place,
    depth: int,
    max_depth: int,
    searchmoves: Seq<Move>,
    completed: Option<Move>,
    previous: int,
)
    ensures
        ({
            let (end, depths) = completed_depths(
                st,
                s,
                at,
                depth,
                max_depth,
                searchmoves,
                completed,
                previous,
            );
            &&& forall|i: int|
                0 <= i < depths.len() ==> {
                    &&& depth <= (#[trigger] depths[i]).depth <= max_depth
                    &&& is_asked_for(at.board, searchmoves, depths[i].mv)
                    &&& s.nodes < depths[i].nodes <= end.nodes
                }
            &&& forall|i: int, j: int|
                0 <= i < j < depths.len() ==> depths[i].depth < depths[j].depth && depths[i].nodes
                    < depths[j].nodes
            &&& end.nodes >= s.nodes
        }),
    decreases max_depth + 1 - depth,
{
    let here = State { nodes: s.nodes + 1, ..s };
    if depth <= max_depth && !out_of_nodes(st.node_limit, here.nodes) {
        let moves = permitted(generated(here.memory, at.board, completed), searchmoves);
        assert forall|e: EngineMove| #[trigger] moves.all().contains(e) implies is_asked_for(
            at.board,
            searchmoves,
            e.mv,
        ) by {
            every_move_asked_for_is_searched(here.memory, at.board, completed, searchmoves, e);
        }
        lemma_aspirated_best(st, here, at, depth, moves, previous, 20, 20, searchmoves);
        let o = deepened(st, here, at, depth, searchmoves, completed, previous);
        match o.found {
            None => {
                depths_are_completed_in_order(
                    st,
                    o.state,
                    at,
                    depth + 1,
                    max_depth,
                    searchmoves,
                    completed,
                    previous,
                );
            },
            Some((mv, score)) => {
                depths_are_completed_in_order(
                    st,
                    o.state,
                    at,
                    depth + 1,
                    max_depth,
                    searchmoves,
                    Some(mv),
                    score,
                );
                let (end, rest) = completed_depths(
                    st,
                    o.state,
                    at,
                    depth + 1,
                    max_depth,
                    searchmoves,
                    Some(mv),
                    score,
                );
                let first = Completed { depth, mv, score, nodes: o.state.nodes };
                let all = seq![first] + rest;
                assert forall|i: int| 0 <= i < all.len() implies {
                    &&& depth <= (#[trigger] all[i]).depth <= max_depth
                    &&& is_asked_for(at.board, searchmoves, all[i].mv)
                    &&& s.nodes < all[i].nodes <= end.nodes
                } by {
                    if i > 0 {
                        assert(all[i] == rest[i - 1]);
                    }
                }
                assert forall|i: int, j: int| 0 <= i < j < all.len() implies all[i].depth
                    < all[j].depth && all[i].nodes < all[j].nodes by {
                    assert(all[j] == rest[j - 1]);
                    if i > 0 {
                        assert(all[i] == rest[i - 1]);
                    }
                }
            },
        }
    }
}

/// A search goes to the depth that is asked for, to one at least, and without end
/// where none is.
pub proof fn a_depth_is_searched_at_least(limit: Option<i32>, depth: i32)
    ensures
        depth >= 1 ==> deepest(Some(depth)) == depth,
        depth <= 0 ==> deepest(Some(depth)) == 1,
        deepest(None) == 2_147_483_647,
{
}

/// A depth that is completed among all moves is told to the table as exact, with
/// its move, for the next search to begin with; one among some moves only is not.
pub proof fn completed_depths_are_remembered(
    st: Setting,
    s: State,
    at: Place,
    depth: int,
    searchmoves: Seq<Move>,
    completed: Option<Move>,
    previous: int,
)
    requires
        0 < depth <= i32::MAX,
    ensures
        ({
            let moves = permitted(generated(s.memory, at.board, completed), searchmoves);
            let plain = aspirated(st, s, at, depth, moves, previous, 20, 20);
            let o = deepened(st, s, at, depth, searchmoves, completed, previous);
            let table = plain.state.memory.tt;
            &&& o.found == plain.found
            &&& o.state.nodes == plain.state.nodes
            &&& searchmoves.len() > 0 || plain.found is None ==> o.state == plain.state
            &&& match plain.found {
                Some((mv, score)) => searchmoves.len() == 0 && table.len() > 0 && (forall|i: int|
                    0 <= i < table.len() ==> (#[trigger] table[i]).len() <= 2) && i32::MIN <= score
                    <= i32::MAX ==> match lookup(o.state.memory.tt, at.board.hash) {
                    Some(entry) => match lookup(table, at.board.hash) {
                        Some(held) if held.depth > depth + 2 && held.node_type
                            == TTNodeType::EXACT => entry == held,
                        _ => entry.depth == depth && entry.score == score && entry.best_move
                            == Some(mv) && entry.node_type == TTNodeType::EXACT && entry.key
                            == at.board.hash,
                    },
                    None => false,
                },
                None => true,
            }
        }),
{
    let moves = permitted(generated(s.memory, at.board, completed), searchmoves);
    let plain = aspirated(st, s, at, depth, moves, previous, 20, 20);
    let table = plain.state.memory.tt;
    if let Some((mv, score)) = plain.found {
        if searchmoves.len() == 0 && table.len() > 0 && (forall|i: int|
            0 <= i < table.len() ==> (#[trigger] table[i]).len() <= 2) {
            stored_entry_is_found(
                table,
                at.board.hash,
                TableEntry {
                    key: at.board.hash,
                    score: score as i32,
                    depth: depth as i32,
                    node_type: TTNodeType::EXACT,
                    best_move: Some(mv),
                },
            );
        }
    }
}

/// A position is scored within a limit of nodes and, where that is not enough for
/// one depth, by one depth without a limit. One without a legal move is not
/// searched.
pub proof fn a_small_limit_is_lifted_for_one_depth(
    engine: Engine,
    m: Memory,
    board: Position,
    keys: Seq<u64>,
    nodes: u64,
)
    ensures
        ({
            let at = root(board, keys);
            let p = probed(engine, m, at, nodes);
            let first = full_search(engine, m, at, Some(nodes), i32::MAX as int);
            let second = full_search(engine, first.0.memory, at, None, 1);
            &&& at.board == board && at.ply == 0 && at.keys == keys && at.stack.len() == 0
            &&& legal_moves_of(board).len() == 0 ==> p.found is None && p.memory == m
            &&& p.found matches Some((mv, _)) ==> legal_moves_of(board).contains(mv)
            &&& legal_moves_of(board).len() > 0 && first.1.len() > 0 ==> p.found == Some(
                (first.1.last().mv, first.1.last().score),
            ) && p.memory == first.0.memory
            &&& legal_moves_of(board).len() > 0 && first.1.len() == 0 ==> p.memory
                == second.0.memory && (p.found is Some <==> second.1.len() > 0) && (p.found matches
                Some(found) ==> second.1.last().depth == 1 && found == (
                second.1.last().mv,
                second.1.last().score,
            ))
        }),
{
    let at = root(board, keys);
    let none = Seq::<Move>::empty();
    let first = full_search(engine, m, at, Some(nodes), i32::MAX as int);
    depths_are_completed_in_order(
        engine.setting(Some(nodes)),
        State { memory: crate::deepening::refreshed(m), nodes: 0 },
        at,
        1,
        i32::MAX as int,
        none,
        crate::model::table_move(m, board),
        0,
    );
    depths_are_completed_in_order(
        engine.setting(None),
        State { memory: crate::deepening::refreshed(first.0.memory), nodes: 0 },
        at,
        1,
        1,
        none,
        crate::model::table_move(first.0.memory, board),
        0,
    );
}

/// Whether a search of a move has come to a score.
pub open spec fn scored_with(
    st: Setting,
    s: State,
    at: Place,
    t: Task,
    e: EngineMove,
    first: bool,
    score: int,
) -> bool {
    searched_move(st, s, at, t, e, true, first).score == Some(score)
}

/// Whether a move was searched at a depth of the root and came to a score.
pub open spec fn came_out(st: Setting, at: Place, depth: int, mv: Move, score: int) -> bool {
    exists|s: State, t: Task, e: EngineMove, first: bool| #[trigger]
        scored_with(st, s, at, t, e, first, score) && e.mv == mv && t.depth == depth - 1
            && t.expected == NodeType::PV && !t.null_position
}

proof fn lemma_best_has_its_score(
    st: Setting,
    s: State,
    at: Place,
    depth: int,
    beta: int,
    run: Run,
)
    requires
        run.picker.wf(),
        run.best matches Some(e) ==> came_out(st, at, depth, e.mv, run.result),
    ensures
        root_tried(st, s, at, depth, beta, run).best matches Some((x, Some(e))) ==> came_out(
            st,
            at,
            depth,
            e.mv,
            x,
        ),
        root_tried(st, s, at, depth, beta, run).best matches Some((x, _)) ==> x >= run.result,
    decreases run.picker.left(),
{
    let (q, picked) = pick(run.picker);
    lemma_picked(run.picker);
    if let Some(mv) = picked {
        let t = root_task(depth, run, beta);
        let o = searched_move(st, s, at, t, mv, true, run.first);
        let now = advanced(s, o.state);
        if let Some(x) = o.score {
            assert(scored_with(st, s, at, t, mv, run.first, x));
            assert(came_out(st, at, depth, mv.mv, x));
            if x < beta {
                lemma_best_has_its_score(st, now, at, depth, beta, continued(run, q, mv, x));
            }
        }
    }
}

/// The move that is found at the root is one whose own search came to the score that
/// is given, one ply less deep and on the main line; and the score is at least that
/// of the first move.
pub proof fn the_best_move_has_the_best_score(
    st: Setting,
    s: State,
    at: Place,
    depth: int,
    moves: Moves,
    alpha: int,
    beta: int,
)
    ensures
        ({
            let o = root_searched(st, s, at, depth, moves, alpha, beta);
            let p = picker_of(moves);
            &&& o.found matches Some((mv, score)) ==> came_out(st, at, depth, mv, score)
            &&& match pick(p).1 {
                Some(e) => {
                    let first = searched_move(
                        st,
                        s,
                        at,
                        Task {
                            depth: depth - 1,
                            expected: NodeType::PV,
                            null_position: false,
                            alpha,
                            beta,
                        },
                        e,
                        true,
                        true,
                    );
                    &&& first.score is None ==> o.found is None
                    &&& first.score is Some && o.found is Some ==> (o.found->0).1 >= first.score->0
                    &&& first.score is Some && first.score->0 > -1_000_000_000 && first.score->0
                        >= beta ==> o.found == Some((e.mv, first.score->0))
                },
                None => o.found is None,
            }
        }),
{
    let run = fresh_run(moves, alpha);
    new_picker_has_every_move(moves);
    lemma_picked(run.picker);
    lemma_best_has_its_score(st, s, at, depth, beta, run);
    if let Some(e) = pick(run.picker).1 {
        let q = pick(run.picker).0;
        let t = root_task(depth, run, beta);
        let o = searched_move(st, s, at, t, e, true, true);
        if let Some(x) = o.score {
            assert(scored_with(st, s, at, t, e, true, x));
            assert(came_out(st, at, depth, e.mv, x));
            if x < beta {
                lemma_best_has_its_score(
                    st,
                    advanced(s, o.state),
                    at,
                    depth,
                    beta,
                    continued(run, q, e, x),
                );
            }
        }
    }
}

} // verus!
