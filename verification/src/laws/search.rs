//! What a search finds.

use crate::chess::{Move, Position};
use crate::deepening::{
    aspirated, completed_depths, deepened, permitted, root_searched, root_task, root_tried, window,
    WIDEST,
};
use crate::limits::{larger, out_of_nodes};
use crate::model::{
    advanced, continued, fresh_run, from_tt, full_task, generated,
    generated_moves_are_the_legal_moves, late_reduction, move_task, needs_full_depth, next_place,
    probe_task, quiesced, quiesced_moves, recorded, repeated, scored, searched, searched_move,
    to_tt, tried_moves, unfold_quiet_search, unfold_searched, unfold_searched_move,
    unfold_searched_moves, unfold_tried_moves, Memory, NodeType, Place, Run, Setting, State, Task,
    INFINITE,
};
use crate::moves::EngineMove;
use crate::nnue::evaluation;
use crate::picker::{
    available, lemma_picked, new_picker_has_every_move, pick, picked_move_was_available, picker_of,
    Moves, Picker,
};
use crate::rules::{legal_moves_of, played};
use crate::transposition::{lookup, stored_entry_is_found, TTNodeType, TableEntry};
use vstd::prelude::*;
use vstd::seq_lib::to_multiset_contains;

verus! {

/// Whether a search that has visited so many nodes may visit one more: the limit
/// is the count at which it stops.
pub open spec fn may_go_on(st: Setting, nodes: int) -> bool {
    nodes + 1 < u64::MAX && (st.node_limit matches Some(limit) ==> nodes + 1 < limit)
}

/// How often a key occurs.
pub open spec fn times(keys: Seq<u64>, key: u64) -> nat
    decreases keys.len(),
{
    if keys.len() == 0 {
        0
    } else {
        times(keys.drop_last(), key) + if keys.last() == key {
            1nat
        } else {
            0nat
        }
    }
}

/// Whether a position has stood there fewer than three times since the last
/// capture or pawn move.
pub open spec fn is_rare(keys: Seq<u64>, board: Position) -> bool {
    let since = larger(0, keys.len() - (board.halfmove_clock + 1));
    times(keys.subrange(since, keys.len() as int), board.hash) < 3
}

proof fn lemma_times(keys: Seq<u64>, key: u64, f: spec_fn(u64) -> bool)
    requires
        forall|k: u64| #[trigger] f(k) <==> k == key,
    ensures
        keys.filter(f).len() == times(keys, key),
    decreases keys.len(),
{
    reveal(Seq::filter);
    if keys.len() > 0 {
        lemma_times(keys.drop_last(), key, f);
    }
}

proof fn lemma_times_joined(a: Seq<u64>, b: Seq<u64>, key: u64)
    ensures
        times(a + b, key) == times(a, key) + times(b, key),
    decreases b.len(),
{
    if b.len() == 0 {
        assert(a + b =~= a);
    } else {
        lemma_times_joined(a, b.drop_last(), key);
        assert((a + b).drop_last() =~= a + b.drop_last());
    }
}

/// A position is repeated where its key occurs three times since the last
/// capture or pawn move.
proof fn lemma_repeated(board: Position, keys: Seq<u64>)
    ensures
        repeated(board, keys) <==> times(
            keys.subrange(
                larger(0, keys.len() - (board.halfmove_clock + 1)),
                keys.len() as int,
            ),
            board.hash,
        ) >= 3,
{
    let key = board.hash;
    let f = |k: u64| k == key;
    let since = larger(0, keys.len() - (board.halfmove_clock + 1));
    lemma_times(keys.subrange(since, keys.len() as int), key, f);
}

/// A position that has not stood there often is not taken for a repeated one.
pub proof fn lemma_rare_is_not_repeated(board: Position, keys: Seq<u64>)
    ensures
        is_rare(keys, board) <==> !repeated(board, keys),
{
    lemma_repeated(board, keys);
}

/// A position without a legal move is worth nothing where the side to move is
/// not in check, and is lost where it is: the more so the nearer it is to the
/// root. That is so however deep and with whatever bounds it is searched.
pub proof fn dead_ends_have_their_score(st: Setting, s: State, at: Place, t: Task)
    requires
        may_go_on(st, s.nodes),
        legal_moves_of(at.board).len() == 0,
    ensures
        at.board.checkers == 0 ==> searched(st, s, at, t).score == Some(0int),
        at.board.checkers != 0 && is_rare(at.keys, at.board) ==> searched(st, s, at, t).score
            == Some(-100_000 + at.ply),
        searched(st, s, at, t).state == (State { nodes: s.nodes + 1, ..s }),
{
    lemma_rare_is_not_repeated(at.board, at.keys);
    if t.depth <= 0 {
        unfold_quiet_search(st, s, at, t);
        reveal(quiesced);
    } else {
        unfold_searched(st, s, at, t);
    }
}

proof fn lemma_occurs(keys: Seq<u64>, key: u64, i: int)
    requires
        0 <= i < keys.len(),
        keys[i] == key,
    ensures
        times(keys, key) >= 1,
{
    let head = keys.take(i + 1);
    assert(keys =~= head + keys.skip(i + 1));
    lemma_times_joined(head, keys.skip(i + 1), key);
    assert(head.last() == key);
}

/// A position that has stood there three times, since the last capture or pawn
/// move, is worth nothing, and so is one that can go on after a hundred plies
/// without either.
pub proof fn draws_are_worth_nothing(
    st: Setting,
    s: State,
    at: Place,
    t: Task,
    a: int,
    b: int,
    c: int,
)
    requires
        may_go_on(st, s.nodes),
        (0 <= a < b < c < at.keys.len() && at.keys.len() - a <= at.board.halfmove_clock + 1
            && at.keys[a] == at.board.hash && at.keys[b] == at.board.hash && at.keys[c]
            == at.board.hash) || (at.board.halfmove_clock >= 100 && legal_moves_of(at.board).len()
            > 0),
    ensures
        searched(st, s, at, t).score == Some(0int),
        searched(st, s, at, t).state == (State { nodes: s.nodes + 1, ..s }),
{
    let keys = at.keys;
    let key = at.board.hash;
    if 0 <= a < b < c < keys.len() && keys.len() - a <= at.board.halfmove_clock + 1 && keys[a]
        == key && keys[b] == key && keys[c] == key {
        let since = larger(0, keys.len() - (at.board.halfmove_clock + 1));
        let n = keys.len() as int;
        let all = keys.subrange(since, n);
        let x = keys.subrange(since, a + 1);
        let y = keys.subrange(a + 1, b + 1);
        let z = keys.subrange(b + 1, n);
        assert(all =~= x + (y + z));
        lemma_times_joined(x, y + z, key);
        lemma_times_joined(y, z, key);
        lemma_occurs(x, key, a - since);
        lemma_occurs(y, key, b - a - 1);
        lemma_occurs(z, key, c - b - 1);
        lemma_repeated(at.board, keys);
    }
    if t.depth <= 0 {
        unfold_quiet_search(st, s, at, t);
        reveal(quiesced);
    } else {
        unfold_searched(st, s, at, t);
    }
}

/// A search that has reached its limit of nodes finds nothing and changes
/// nothing.
pub proof fn a_limit_of_nodes_stops_the_search(st: Setting, s: State, at: Place, t: Task)
    requires
        !may_go_on(st, s.nodes),
    ensures
        searched(st, s, at, t).score is None,
        searched(st, s, at, t).state == (State { nodes: s.nodes + 1, ..s }),
{
    if t.depth <= 0 {
        unfold_quiet_search(st, s, at, t);
        reveal(quiesced);
    } else {
        unfold_searched(st, s, at, t);
    }
}

/// Whether a move mates: the other side is in check and has no legal move, in a
/// position that has not stood there often.
pub open spec fn mates(at: Place, mv: Move) -> bool {
    let next = played(at.board, mv);
    &&& legal_moves_of(at.board).contains(mv)
    &&& legal_moves_of(next).len() == 0
    &&& next.checkers != 0
    &&& is_rare(at.keys.push(next.hash), next)
}

/// Whether a move ends the game without a winner.
pub open spec fn stalemates(at: Place, mv: Move) -> bool {
    let next = played(at.board, mv);
    legal_moves_of(next).len() == 0 && next.checkers == 0
}

proof fn lemma_mating_move(
    st: Setting,
    s: State,
    at: Place,
    t: Task,
    mv: EngineMove,
    again: bool,
    first: bool,
)
    requires
        mates(at, mv.mv),
    ensures
        searched_move(st, s, at, t, mv, again, first).score matches Some(x) ==> x == 99_999
            - at.ply,
{
    let next = next_place(at, mv);
    unfold_searched_move(st, s, at, t, mv, again, first);
    let probe = searched(st, s, next, probe_task(t));
    lemma_mated(st, s, next, full_task(t));
    lemma_mated(st, s, next, probe_task(t));
    lemma_mated(st, advanced(s, probe.state), next, full_task(t));
}

proof fn lemma_mated(st: Setting, s: State, at: Place, t: Task)
    requires
        legal_moves_of(at.board).len() == 0,
        at.board.checkers != 0,
        is_rare(at.keys, at.board),
    ensures
        searched(st, s, at, t).score matches Some(x) ==> x == -100_000 + at.ply,
{
    if may_go_on(st, s.nodes) {
        dead_ends_have_their_score(st, s, at, t);
    } else {
        a_limit_of_nodes_stops_the_search(st, s, at, t);
    }
}

proof fn lemma_stalemating_move(
    st: Setting,
    s: State,
    at: Place,
    t: Task,
    mv: EngineMove,
    again: bool,
    first: bool,
)
    requires
        stalemates(at, mv.mv),
    ensures
        searched_move(st, s, at, t, mv, again, first).score matches Some(x) ==> x == 0,
{
    let next = next_place(at, mv);
    unfold_searched_move(st, s, at, t, mv, again, first);
    let probe = searched(st, s, next, probe_task(t));
    lemma_stalemated(st, s, next, full_task(t));
    lemma_stalemated(st, s, next, probe_task(t));
    lemma_stalemated(st, advanced(s, probe.state), next, full_task(t));
}

proof fn lemma_stalemated(st: Setting, s: State, at: Place, t: Task)
    requires
        legal_moves_of(at.board).len() == 0,
        at.board.checkers == 0,
    ensures
        searched(st, s, at, t).score matches Some(x) ==> x == 0,
{
    if may_go_on(st, s.nodes) {
        dead_ends_have_their_score(st, s, at, t);
    } else {
        a_limit_of_nodes_stops_the_search(st, s, at, t);
    }
}

proof fn lemma_mate_among_moves(st: Setting, s: State, at: Place, t: Task, run: Run, e: EngineMove)
    requires
        run.picker.wf(),
        t.expected == NodeType::PV,
        mates(at, e.mv),
        available(run.picker).count(e) > 0 || run.result >= 99_999 - at.ply,
    ensures
        tried_moves(st, s, at, t, run).best matches Some((x, _)) ==> x >= 99_999 - at.ply || x
            >= t.beta,
    decreases run.picker.left(),
{
    broadcast use vstd::multiset::group_multiset_axioms;

    let (q, picked) = pick(run.picker);
    unfold_tried_moves(st, s, at, t, run);
    lemma_picked(run.picker);
    picked_move_was_available(run.picker);
    if let Some(mv) = picked {
        let r = late_reduction(st, at.board, t, mv, run.count + 1);
        let probe = searched_move(st, s, at, move_task(t, run, r), mv, r == 0, run.first);
        let after = advanced(s, probe.state);
        let o = if needs_full_depth(run, r, probe.score) {
            searched_move(st, after, at, move_task(t, run, 0), mv, true, run.first)
        } else {
            probe
        };
        let now = advanced(after, o.state);
        if mv == e {
            lemma_mating_move(st, s, at, move_task(t, run, r), mv, r == 0, run.first);
            lemma_mating_move(st, after, at, move_task(t, run, 0), mv, true, run.first);
        }
        if let Some(x) = o.score {
            if x < t.beta {
                lemma_mate_among_moves(st, now, at, t, continued(run, q, mv, x), e);
            }
        }
    }
}

/// A node of the main line whose side to move can mate is found to be won, if
/// the table knows nothing of it: unless the score is beyond what was asked.
pub proof fn a_mate_in_one_is_seen(st: Setting, s: State, at: Place, t: Task, mv: Move)
    requires
        mates(at, mv),
        t.depth > 0,
        t.expected == NodeType::PV,
        lookup(s.memory.tt, at.board.hash) is None,
        at.board.halfmove_clock < 100,
        is_rare(at.keys, at.board),
    ensures
        searched(st, s, at, t).score matches Some(x) ==> x >= 99_999 - at.ply || x >= t.beta,
{
    if !may_go_on(st, s.nodes) {
        a_limit_of_nodes_stops_the_search(st, s, at, t);
    } else {
        let here = State { nodes: s.nodes + 1, ..s };
        let moves = generated(s.memory, at.board, None);
        let e = scored(s.memory, at.board, None, mv);
        lemma_rare_is_not_repeated(at.board, at.keys);
        unfold_searched(st, s, at, t);
        unfold_searched_moves(st, here, at, t, t.alpha, t.beta, None);
        generated_moves_are_the_legal_moves(s.memory, at.board, None, e);
        new_picker_has_every_move(moves);
        to_multiset_contains(moves.all(), e);
        lemma_mate_among_moves(st, here, at, t, fresh_run(moves, t.alpha), e);
    }
}

proof fn lemma_mate_at_root(
    st: Setting,
    s: State,
    at: Place,
    depth: int,
    beta: int,
    run: Run,
    e: EngineMove,
)
    requires
        run.picker.wf(),
        mates(at, e.mv),
        available(run.picker).count(e) > 0 || run.result >= 99_999 - at.ply,
    ensures
        root_tried(st, s, at, depth, beta, run).best matches Some((x, _)) ==> x >= 99_999 - at.ply
            || x >= beta,
    decreases run.picker.left(),
{
    broadcast use vstd::multiset::group_multiset_axioms;

    let (q, picked) = pick(run.picker);
    lemma_picked(run.picker);
    picked_move_was_available(run.picker);
    if let Some(mv) = picked {
        let o = searched_move(st, s, at, root_task(depth, run, beta), mv, true, run.first);
        let now = advanced(s, o.state);
        if mv == e {
            lemma_mating_move(st, s, at, root_task(depth, run, beta), mv, true, run.first);
        }
        if let Some(x) = o.score {
            if x < beta {
                lemma_mate_at_root(st, now, at, depth, beta, continued(run, q, mv, x), e);
            }
        }
    }
}

proof fn lemma_mate_in_window(
    st: Setting,
    s: State,
    at: Place,
    depth: int,
    moves: Moves,
    previous: int,
    below: int,
    above: int,
    e: EngineMove,
)
    requires
        below > 0,
        above > 0,
        at.ply >= 0,
        mates(at, e.mv),
        moves.all().contains(e),
        previous >= 0,
    ensures
        aspirated(st, s, at, depth, moves, previous, below, above).found matches Some((_, x)) ==> x
            >= 99_999 - at.ply,
    decreases larger(0, 4 * WIDEST - below) + larger(0, 4 * WIDEST - above),
{
    let (alpha, beta) = window(depth, previous, below, above);
    let o = root_searched(st, s, at, depth, moves, alpha, beta);
    new_picker_has_every_move(moves);
    to_multiset_contains(moves.all(), e);
    lemma_mate_at_root(st, s, at, depth, beta, fresh_run(moves, alpha), e);
    if let Some((mv, score)) = o.found {
        if score <= alpha && below <= WIDEST {
            lemma_mate_in_window(
                st,
                o.state,
                at,
                depth,
                moves,
                previous,
                below * 2,
                above,
                e,
            );
        } else if score > alpha && score >= beta && above <= WIDEST {
            lemma_mate_in_window(
                st,
                o.state,
                at,
                depth,
                moves,
                previous,
                below,
                above * 2,
                e,
            );
        }
    }
}

/// A mate in one is found at every depth: where the side to move can mate, each
/// depth that a search of all moves completes has at least its score.
pub proof fn a_mate_in_one_is_found_at_every_depth(
    st: Setting,
    s: State,
    at: Place,
    depth: int,
    max_depth: int,
    completed: Option<Move>,
    previous: int,
    mv: Move,
)
    requires
        at.ply == 0,
        previous >= 0,
        mates(at, mv),
    ensures
        ({
            let depths = completed_depths(
                st,
                s,
                at,
                depth,
                max_depth,
                Seq::empty(),
                completed,
                previous,
            ).1;
            forall|i: int| 0 <= i < depths.len() ==> (#[trigger] depths[i]).score >= 99_999
        }),
    decreases max_depth + 1 - depth,
{
    let here = State { nodes: s.nodes + 1, ..s };
    if depth <= max_depth && !out_of_nodes(st.node_limit, here.nodes) {
        let none = Seq::<Move>::empty();
        let moves = permitted(generated(here.memory, at.board, completed), none);
        let e = scored(here.memory, at.board, completed, mv);
        generated_moves_are_the_legal_moves(here.memory, at.board, completed, e);
        lemma_mate_in_window(st, here, at, depth, moves, previous, 20, 20, e);
        let o = deepened(st, here, at, depth, none, completed, previous);
        match o.found {
            None => {
                a_mate_in_one_is_found_at_every_depth(
                    st,
                    o.state,
                    at,
                    depth + 1,
                    max_depth,
                    completed,
                    previous,
                    mv,
                );
            },
            Some((best, score)) => {
                a_mate_in_one_is_found_at_every_depth(
                    st,
                    o.state,
                    at,
                    depth + 1,
                    max_depth,
                    Some(best),
                    score,
                    mv,
                );
            },
        }
    }
}

proof fn lemma_stalemates_at_root(
    st: Setting,
    s: State,
    at: Place,
    depth: int,
    beta: int,
    run: Run,
)
    requires
        run.picker.wf(),
        forall|e: EngineMove| #[trigger] available(run.picker).count(e) > 0 ==> stalemates(at, e.mv),
        run.best is Some ==> run.result == 0,
        run.best is None ==> run.result == -INFINITE,
    ensures
        root_tried(st, s, at, depth, beta, run).best matches Some((x, Some(_))) ==> x == 0,
    decreases run.picker.left(),
{
    broadcast use vstd::multiset::group_multiset_axioms;

    let (q, picked) = pick(run.picker);
    lemma_picked(run.picker);
    picked_move_was_available(run.picker);
    if let Some(mv) = picked {
        assert(available(run.picker).count(mv) > 0);
        let o = searched_move(st, s, at, root_task(depth, run, beta), mv, true, run.first);
        let now = advanced(s, o.state);
        lemma_stalemating_move(st, s, at, root_task(depth, run, beta), mv, true, run.first);
        if let Some(x) = o.score {
            if x < beta {
                assert forall|e: EngineMove| #[trigger] available(q).count(e) > 0 implies stalemates(
                    at,
                    e.mv,
                ) by {
                    assert(available(run.picker).count(e) > 0);
                }
                lemma_stalemates_at_root(st, now, at, depth, beta, continued(run, q, mv, x));
            }
        }
    }
}

/// Where every move that may be searched ends the game without a winner, the
/// score is nothing, whatever the bounds.
pub proof fn a_forced_stalemate_is_worth_nothing(
    st: Setting,
    s: State,
    at: Place,
    depth: int,
    moves: Moves,
    alpha: int,
    beta: int,
)
    requires
        forall|e: EngineMove| #[trigger] moves.all().contains(e) ==> stalemates(at, e.mv),
    ensures
        root_searched(st, s, at, depth, moves, alpha, beta).found matches Some((_, x)) ==> x == 0,
{
    new_picker_has_every_move(moves);
    let p = picker_of(moves);
    assert forall|e: EngineMove| #[trigger] available(p).count(e) > 0 implies stalemates(
        at,
        e.mv,
    ) by {
        to_multiset_contains(moves.all(), e);
    }
    lemma_stalemates_at_root(st, s, at, depth, beta, fresh_run(moves, alpha));
}

/// What is found at the end of a line is never given up for less.
pub proof fn lemma_quiet_result_grows(
    st: Setting,
    m: Memory,
    nodes: int,
    board: Position,
    ply: int,
    p: Picker,
    alpha: int,
    beta: int,
    result: int,
    keys: Seq<u64>,
)
    requires
        p.wf(),
    ensures
        quiesced_moves(st, m, nodes, board, ply, p, alpha, beta, result, keys).1 matches Some(x)
            ==> x >= result,
    decreases p.left(),
{
    reveal(quiesced_moves);
    reveal(quiesced);
    lemma_picked(p);
    let (q, picked) = pick(p);
    if let Some(mv) = picked {
        if board.checkers == 0 && mv.see_score < -100 {
            lemma_quiet_result_grows(st, m, nodes, board, ply, q, alpha, beta, result, keys);
        } else {
            let next = played(board, mv.mv);
            let (after, child) = quiesced(
                st,
                m,
                nodes,
                next,
                ply + 1,
                -beta,
                -alpha,
                keys.push(next.hash),
            );
            if let Some(score) = child {
                let x = -score;
                if x < beta {
                    lemma_quiet_result_grows(
                        st,
                        m,
                        larger(nodes, after),
                        board,
                        ply,
                        q,
                        if x > result {
                            larger(alpha, x)
                        } else {
                            alpha
                        },
                        beta,
                        larger(result, x),
                        keys,
                    );
                }
            }
        }
    }
}

/// Nobody has to capture: outside check, a position that goes on is worth at
/// least its evaluation at the end of the search, and exactly that where it is
/// already too good.
pub proof fn nobody_has_to_capture(st: Setting, s: State, at: Place, t: Task)
    requires
        t.depth <= 0,
        may_go_on(st, s.nodes),
        at.board.checkers == 0,
        at.board.halfmove_clock < 100,
        legal_moves_of(at.board).len() > 0,
        is_rare(at.keys, at.board),
    ensures
        searched(st, s, at, t).score matches Some(x) ==> x >= evaluation(st.network, at.board),
        evaluation(st.network, at.board) >= t.beta ==> searched(st, s, at, t).score == Some(
            evaluation(st.network, at.board),
        ),
        searched(st, s, at, t).state.memory == s.memory,
{
    lemma_rare_is_not_repeated(at.board, at.keys);
    unfold_quiet_search(st, s, at, t);
    reveal(quiesced);
    reveal(quiesced_moves);
    let eval = evaluation(st.network, at.board);
    let p = picker_of(crate::model::generated_for_quiescence(s.memory, at.board));
    let q = quiesced(st, s.memory, s.nodes, at.board, at.ply, t.alpha, t.beta, at.keys);
    assert(searched(st, s, at, t).score == q.1);
    assert(eval < t.beta ==> q == quiesced_moves(
        st,
        s.memory,
        s.nodes + 1,
        at.board,
        at.ply,
        p,
        larger(t.alpha, eval),
        t.beta,
        eval,
        at.keys,
    ));
    new_picker_has_every_move(crate::model::generated_for_quiescence(s.memory, at.board));
    lemma_quiet_result_grows(
        st,
        s.memory,
        s.nodes + 1,
        at.board,
        at.ply,
        p,
        larger(t.alpha, eval),
        t.beta,
        eval,
        at.keys,
    );
}

/// An exact entry of the table that is deep enough answers for a position, with
/// a mate counted from the root; so does one that says the position is too good
/// or not good enough.
pub proof fn a_deep_entry_answers(st: Setting, s: State, at: Place, t: Task, entry: TableEntry)
    requires
        may_go_on(st, s.nodes),
        t.depth > 0,
        at.board.halfmove_clock < 100,
        legal_moves_of(at.board).len() > 0,
        is_rare(at.keys, at.board),
        lookup(s.memory.tt, at.board.hash) == Some(entry),
        entry.depth >= t.depth,
        -99_000 < entry.score < 99_000,
        t.alpha < t.beta,
        entry.node_type == TTNodeType::EXACT || (entry.node_type == TTNodeType::LOWER
            && entry.score >= t.beta) || (entry.node_type == TTNodeType::UPPER && entry.score
            <= t.alpha),
    ensures
        searched(st, s, at, t).score == Some(entry.score as int),
        searched(st, s, at, t).state == (State { nodes: s.nodes + 1, ..s }),
{
    lemma_rare_is_not_repeated(at.board, at.keys);
    unfold_searched(st, s, at, t);
}

/// A mate that is found so many plies after a position is one that many plies
/// after it wherever the position comes up again, for the side that mates and
/// for the one that is mated; other scores are the same everywhere.
pub proof fn mates_are_counted_from_the_position(score: int, ply: int, other: int, away: int)
    requires
        0 <= ply,
        0 <= other,
        0 <= away,
        ply + away <= 1000,
        other + away <= 1000,
    ensures
        from_tt(to_tt(100_000 - (ply + away), ply), other) == 100_000 - (other + away),
        from_tt(to_tt(-100_000 + (ply + away), ply), other) == -100_000 + (other + away),
        -99_000 < score < 99_000 ==> from_tt(to_tt(score, ply), other) == score,
{
}

/// What the table keeps of a node says no more than its search has shown: the
/// score is exact between the bounds, at least so high where it is too good, and
/// at most so high where it is not good enough. It is read back at the same ply
/// as it was, with its depth and its move, or the entry that was there stays.
pub proof fn recorded_bounds_are_sound(
    m: Memory,
    board: Position,
    depth: int,
    ply: int,
    alpha: int,
    beta: int,
    eval: int,
    result: int,
    best: Option<EngineMove>,
)
    requires
        m.tt.len() > 0,
        forall|i: int| 0 <= i < m.tt.len() ==> (#[trigger] m.tt[i]).len() <= 2,
        alpha < beta,
        0 <= ply <= 50_000_000,
        -1_000_000_000 <= result <= 1_000_000_000,
        0 < depth <= i32::MAX,
    ensures
        ({
            let after = recorded(m, board, depth, ply, alpha, beta, eval, result, best);
            match lookup(after.tt, board.hash) {
                Some(entry) => lookup(m.tt, board.hash) == Some(entry) || {
                    &&& entry.key == board.hash
                    &&& entry.depth == depth
                    &&& entry.best_move == match best {
                        Some(mv) => Some(mv.mv),
                        None => None,
                    }
                    &&& from_tt(entry.score as int, ply) == result
                    &&& entry.node_type == TTNodeType::EXACT <==> alpha < result < beta
                    &&& entry.node_type == TTNodeType::LOWER <==> result >= beta
                    &&& entry.node_type == TTNodeType::UPPER <==> result <= alpha
                },
                None => false,
            }
        }),
        lookup(m.tt, board.hash) is None ==> lookup(
            recorded(m, board, depth, ply, alpha, beta, eval, result, best).tt,
            board.hash,
        ) is Some,
{
    let entry = TableEntry {
        key: board.hash,
        score: to_tt(result, ply) as i32,
        depth: depth as i32,
        node_type: crate::model::node_type_of(result, alpha, beta),
        best_move: match best {
            Some(mv) => Some(mv.mv),
            None => None,
        },
    };
    stored_entry_is_found(m.tt, board.hash, entry);
}

/// An entry of the table that is deep enough but does not answer narrows the bounds:
/// one that says at least so much raises the lower one, and one that says at most so
/// much lowers the upper one. One that is not deep enough does neither.
pub proof fn deep_entries_narrow_the_bounds(m: Memory, at: Place, t: Task, entry: TableEntry)
    requires
        lookup(m.tt, at.board.hash) == Some(entry),
        -99_000 < entry.score < 99_000,
    ensures
        ({
            let low = crate::model::low_bound(m, at, t);
            let high = crate::model::high_bound(m, at, t);
            let deep = entry.depth >= t.depth;
            &&& deep && entry.node_type == TTNodeType::LOWER ==> low >= t.alpha && low >= entry.score
                && (low == t.alpha || low == entry.score) && high == t.beta
            &&& deep && entry.node_type == TTNodeType::UPPER ==> high <= t.beta && high
                <= entry.score && (high == t.beta || high == entry.score) && low == t.alpha
            &&& !deep || entry.node_type == TTNodeType::EXACT ==> low == t.alpha && high == t.beta
        }),
{
}

/// The move of the table is tried first only if it is legal.
pub proof fn only_legal_moves_come_from_the_table(m: Memory, board: Position)
    ensures
        crate::model::table_move(m, board) matches Some(mv) ==> legal_moves_of(board).contains(mv)
            && (lookup(m.tt, board.hash) matches Some(entry) && entry.best_move == Some(mv)),
        lookup(m.tt, board.hash) matches Some(entry) ==> (entry.best_move matches Some(mv)
            ==> legal_moves_of(board).contains(mv) ==> crate::model::table_move(m, board) == Some(
            mv,
        )),
{
}

} // verus!
