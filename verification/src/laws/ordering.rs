//! The order in which moves are tried.

use crate::chess::{Move, Position};
use crate::evaluate::exchange_value;
use crate::history::{capture_cell, pawn_cell, quiet_cell};
use crate::model::{
    generated, generated_for_quiescence, is_bad, is_good, is_rest, lemma_filtered, mover, scored,
    scored_moves, Memory,
};
use crate::moves::{move_facts, EngineMove};
use crate::picker::{
    first_best, given, is_first_best, lemma_first_best_exists, moves_come_by_their_promise, pick,
    picker_of, rating, tt_place, Moves, Order, Picker, Stage,
};
use crate::zobrist::pawns_hash;
use vstd::prelude::*;
use vstd::seq_lib::to_multiset_contains;

verus! {

/// The group that a move is tried in: the one from the table, captures that lose
/// nothing, moves that do not capture, captures that lose something.
pub open spec fn group(mv: EngineMove) -> int {
    if mv.is_tt {
        0
    } else if !mv.is_capture {
        2
    } else if mv.see_score >= 0 {
        1
    } else {
        3
    }
}

/// Whether a move may be tried before another one: by its group and, in it, by what
/// a capture wins, what a promotion wins, or what was learned of a quiet move. A
/// promotion counts as much as eight times the most that can be learned.
pub open spec fn may_precede(a: EngineMove, b: EngineMove) -> bool {
    &&& group(a) <= group(b)
    &&& group(a) == group(b) && group(a) != 0 && a.is_capture ==> a.see_score >= b.see_score
    &&& group(a) == group(b) && group(a) == 2 ==> {
        &&& a.promotion && b.promotion ==> a.material_value >= b.material_value
        &&& !a.promotion && !b.promotion ==> a.history >= b.history
        &&& !a.promotion && b.promotion ==> a.history >= b.material_value + 131_072
        &&& a.promotion && !b.promotion ==> a.material_value + 131_072 >= b.history
    }
}

proof fn lemma_group_of(part: Seq<EngineMove>, whole: Seq<EngineMove>, i: int)
    requires
        part.to_multiset() == whole.to_multiset(),
        0 <= i < part.len(),
    ensures
        whole.contains(part[i]),
{
    assert(part.contains(part[i]));
    to_multiset_contains(part, part[i]);
    to_multiset_contains(whole, part[i]);
}

proof fn lemma_ordered(moves: Moves, i: int, j: int)
    requires
        forall|e: EngineMove| #[trigger] moves.good.contains(e) ==> is_good(e),
        forall|e: EngineMove| #[trigger] moves.bad.contains(e) ==> is_bad(e),
        forall|e: EngineMove| #[trigger] moves.quiets.contains(e) ==> is_rest(e),
        0 <= i < j < given(picker_of(moves)).len(),
    ensures
        may_precede(given(picker_of(moves))[i], given(picker_of(moves))[j]),
{
    moves_come_by_their_promise(moves);
    let g = given(picker_of(moves));
    let quiet = moves.good.len() as int;
    let bad = quiet + moves.quiets.len();
    let lead = if tt_place(moves.good, 0) is Some {
        1int
    } else {
        0int
    };
    let a = g[i];
    let b = g[j];
    if i < quiet {
        assert(g.take(quiet)[i] == a);
        lemma_group_of(g.take(quiet), moves.good, i);
        assert(is_good(a));
    } else if i < bad {
        assert(g.subrange(quiet, bad)[i - quiet] == a);
        lemma_group_of(g.subrange(quiet, bad), moves.quiets, i - quiet);
        assert(is_rest(a));
    } else {
        assert(g.skip(bad)[i - bad] == a);
        lemma_group_of(g.skip(bad), moves.bad, i - bad);
        assert(is_bad(a));
    }
    if j < quiet {
        assert(g.take(quiet)[j] == b);
        lemma_group_of(g.take(quiet), moves.good, j);
        assert(is_good(b));
        if i >= lead {
            let part = g.subrange(lead, quiet);
            assert(part[i - lead] == a && part[j - lead] == b);
        }
    } else if j < bad {
        assert(g.subrange(quiet, bad)[j - quiet] == b);
        lemma_group_of(g.subrange(quiet, bad), moves.quiets, j - quiet);
        assert(is_rest(b));
    } else {
        assert(g.skip(bad)[j - bad] == b);
        lemma_group_of(g.skip(bad), moves.bad, j - bad);
        assert(is_bad(b));
    }
}

/// The moves of a node are tried by their promise.
pub proof fn promising_moves_are_tried_first(
    m: Memory,
    board: Position,
    tt_move: Option<Move>,
    i: int,
    j: int,
)
    requires
        0 <= i < j < given(picker_of(generated(m, board, tt_move))).len(),
    ensures
        ({
            let g = given(picker_of(generated(m, board, tt_move)));
            may_precede(g[i], g[j])
        }),
{
    let moves = generated(m, board, tt_move);
    let all = scored_moves(m, board, tt_move);
    assert forall|e: EngineMove| #[trigger] moves.good.contains(e) implies is_good(e) by {
        lemma_filtered(all, |e: EngineMove| is_good(e), e);
    }
    assert forall|e: EngineMove| #[trigger] moves.bad.contains(e) implies is_bad(e) by {
        lemma_filtered(all, |e: EngineMove| is_bad(e), e);
    }
    assert forall|e: EngineMove| #[trigger] moves.quiets.contains(e) implies is_rest(e) by {
        lemma_filtered(all, |e: EngineMove| is_rest(e), e);
    }
    lemma_ordered(moves, i, j);
}

/// The captures and promotions at the end of a search are tried by their promise
/// too.
pub proof fn promising_captures_are_tried_first(m: Memory, board: Position, i: int, j: int)
    requires
        0 <= i < j < given(picker_of(generated_for_quiescence(m, board))).len(),
    ensures
        ({
            let g = given(picker_of(generated_for_quiescence(m, board)));
            may_precede(g[i], g[j])
        }),
{
    let moves = generated_for_quiescence(m, board);
    let all = crate::rules::legal_moves_of(board).map_values(
        |mv: Move| crate::model::scored_for_quiescence(m, board, mv),
    );
    assert forall|e: EngineMove| #[trigger] moves.good.contains(e) implies is_good(e) by {
        lemma_filtered(all, |e: EngineMove| is_good(e), e);
    }
    assert forall|e: EngineMove| #[trigger] moves.bad.contains(e) implies is_bad(e) by {
        lemma_filtered(all, |e: EngineMove| is_bad(e), e);
    }
    assert forall|e: EngineMove| #[trigger] moves.quiets.contains(e) implies is_rest(e) by {
        lemma_filtered(all, |e: EngineMove| is_rest(e) && e.promotion, e);
    }
    lemma_ordered(moves, i, j);
}

/// A move is known for the one of the table, a capture goes by its exchange and
/// what was learned of it, and any other move by what was learned of its squares
/// and of it with these pawns.
pub proof fn moves_are_scored_by_what_is_known(
    m: Memory,
    board: Position,
    tt_move: Option<Move>,
    mv: Move,
)
    ensures
        ({
            let e = scored(m, board, tt_move, mv);
            let side = board.side_to_move.number();
            let plain = move_facts(board, mv, mover(board, mv), tt_move == Some(mv));
            &&& e.mv == mv
            &&& e.is_tt <==> tt_move == Some(mv)
            &&& e.is_capture == plain.is_capture && e.promotion == plain.promotion
                && e.material_value == plain.material_value && e.target_type == plain.target_type
                && e.piece_type == plain.piece_type && e.is_ep == plain.is_ep && e.is_castle
                == plain.is_castle
            &&& !e.is_capture ==> e.history == m.quiet[quiet_cell(
                side,
                mv.from as int,
                mv.to as int,
            )] + m.pawn[pawn_cell(side, pawns_hash(board), mv.to as int, e.piece_type)]
            &&& e.is_capture ==> e.see_score == exchange_value(board, plain) as i16 && e.history
                == m.capture[capture_cell(side, mv.to as int, e.piece_type, e.target_type->0)]
        }),
{
}

/// Of moves that promise the same the first in the list is tried first: where none is
/// better than the first of its group, that one comes.
pub proof fn of_equals_the_first_is_tried(p: Picker)
    requires
        p.wf(),
    ensures
        p.stage == Stage::GoodCaptures && p.good.len() > 0 && !p.good[0].is_tt && (forall|i: int|
            0 <= i < p.good.len() ==> !(#[trigger] p.good[i]).is_tt && p.good[i].see_score
                <= p.good[0].see_score) ==> pick(p).1 == Some(p.good[0]),
        p.stage == Stage::Quiets && p.remaining > 0 && (forall|i: int|
            0 <= i < p.remaining ==> !(#[trigger] p.quiets[i]).promotion && p.quiets[i].history
                <= p.quiets[0].history) ==> pick(p).1 == Some(p.quiets[0]),
        p.stage == Stage::BadCaptures && p.bad.len() > 0 && (forall|i: int|
            0 <= i < p.bad.len() ==> (#[trigger] p.bad[i]).see_score <= p.bad[0].see_score) ==> pick(
            p,
        ).1 == Some(p.bad[0]),
{
    if p.good.len() > 0 {
        lemma_first_best_exists(p.good, Order::Captures, p.good.len() as int);
        let b = first_best(p.good, Order::Captures, p.good.len() as int);
        assert(is_first_best(p.good, Order::Captures, p.good.len() as int, b));
        if b > 0 {
            assert(rating(Order::Captures, p.good[0]) < rating(Order::Captures, p.good[b]));
        }
    }
    if p.remaining > 0 {
        lemma_first_best_exists(p.quiets, Order::Quiets, p.remaining);
        let b = first_best(p.quiets, Order::Quiets, p.remaining);
        assert(is_first_best(p.quiets, Order::Quiets, p.remaining, b));
        if b > 0 {
            assert(rating(Order::Quiets, p.quiets[0]) < rating(Order::Quiets, p.quiets[b]));
        }
    }
    if p.bad.len() > 0 {
        lemma_first_best_exists(p.bad, Order::BadCaptures, p.bad.len() as int);
        let b = first_best(p.bad, Order::BadCaptures, p.bad.len() as int);
        assert(is_first_best(p.bad, Order::BadCaptures, p.bad.len() as int, b));
        if b > 0 {
            assert(rating(Order::BadCaptures, p.bad[0]) < rating(Order::BadCaptures, p.bad[b]));
        }
    }
}

/// Each move that is given is remembered among those that were tried: the quiet ones
/// apart from the captures. The move of the table is not.
pub proof fn given_moves_are_remembered(p: Picker)
    requires
        p.wf(),
    ensures
        ({
            let (q, picked) = pick(p);
            &&& p.stage == Stage::Quiets && p.remaining > 0 ==> q.tried == p.tried && (picked matches Some(
                mv,
            ) && q.tried_quiets() == seq![mv] + p.tried_quiets())
            &&& p.stage == Stage::GoodCaptures && p.good.len() > 0 ==> q.tried_quiets()
                == p.tried_quiets() && (picked matches Some(mv) && q.tried == p.tried.push(mv))
            &&& p.stage == Stage::BadCaptures && p.bad.len() > 0 ==> q.tried_quiets()
                == p.tried_quiets() && (picked matches Some(mv) && q.tried == p.tried.push(mv))
            &&& p.stage == Stage::TtMove && p.tt_move is Some ==> q.tried == p.tried
                && q.tried_quiets() == p.tried_quiets() && picked == p.tt_move
        }),
{
    let (q, picked) = pick(p);
    if p.stage == Stage::Quiets && p.remaining > 0 {
        lemma_first_best_exists(p.quiets, Order::Quiets, p.remaining);
        let b = first_best(p.quiets, Order::Quiets, p.remaining);
        assert(is_first_best(p.quiets, Order::Quiets, p.remaining, b));
        assert(q.tried_quiets() =~= seq![p.quiets[b]] + p.tried_quiets());
    }
}

} // verus!
