//! What a search remembers for the moves and positions to come.

use crate::chess::{Move, Position};
use crate::deepening::refreshed;
use crate::engine::forgotten;
use crate::history::{
    bonus_of, clamped, continuation_cell, capture_cell, correction_cell, pawn_cell, quiet_cell,
    toward_zero, updated,
};
use crate::model::{bonus_at, recorded, rewarded, rewarded_table, with_bonuses, Memory, StackMove};
use crate::moves::EngineMove;
use crate::picker::Picker;
use crate::transposition::{
    cluster_index, clusters_for_mb, consistent, lookup, stored, TTNodeType, TableEntry,
};
use crate::zobrist::{majors_hash, minors_hash, non_pawn_hash_of, pawns_hash};
use vstd::prelude::*;

verus! {

proof fn lemma_share(v: int, m: int, limit: int)
    requires
        0 < limit,
        0 <= v <= limit,
        0 <= m <= limit,
    ensures
        0 <= (v * m) / limit <= m,
        v < limit && m > 0 ==> (v * m) / limit < m,
        v == limit ==> (v * m) / limit == m,
        m == limit ==> (v * m) / limit == v,
        v == 0 ==> (v * m) / limit == 0,
        m == 0 ==> (v * m) / limit == 0,
{
    let q = (v * m) / limit;
    assert(v * m >= 0) by (nonlinear_arith)
        requires
            v >= 0,
            m >= 0,
    ;
    assert(q * limit <= v * m < q * limit + limit) by (nonlinear_arith)
        requires
            q == (v * m) / limit,
            limit > 0,
    ;
    assert(v * m <= limit * m) by (nonlinear_arith)
        requires
            v <= limit,
            m >= 0,
    ;
    assert(0 <= q <= m) by (nonlinear_arith)
        requires
            q * limit <= v * m < q * limit + limit,
            0 <= v * m <= limit * m,
            limit > 0,
    ;
    if v < limit && m > 0 {
        assert(v * m < limit * m) by (nonlinear_arith)
            requires
                v < limit,
                m > 0,
        ;
        assert(q < m) by (nonlinear_arith)
            requires
                q * limit <= v * m,
                v * m < limit * m,
                limit > 0,
        ;
    }
    if v == limit {
        assert(q == m) by (nonlinear_arith)
            requires
                q * limit <= v * m < q * limit + limit,
                v == limit,
                limit > 0,
        ;
    }
    if m == limit {
        assert(q == v) by (nonlinear_arith)
            requires
                q * limit <= v * m < q * limit + limit,
                m == limit,
                limit > 0,
        ;
    }
    if v == 0 {
        assert(q == 0) by (nonlinear_arith)
            requires
                q * limit <= v * m < q * limit + limit,
                v == 0,
                limit > 0,
        ;
    }
    if m == 0 {
        assert(q == 0) by (nonlinear_arith)
            requires
                q * limit <= v * m < q * limit + limit,
                m == 0,
                limit > 0,
        ;
    }
}

/// A reward raises a number that is not yet at its limit, a punishment lowers
/// it in the same way, and neither changes what is at the limit already. A
/// number that has learned nothing takes the bonus whole, and a bonus as large as
/// the limit overrules all that was learned.
pub proof fn rewards_raise_and_punishments_lower(value: int, bonus: int, limit: int)
    requires
        0 < limit,
        -limit <= value <= limit,
    ensures
        bonus > 0 && value < limit ==> updated(value, bonus, limit) > value,
        bonus > 0 && value == limit ==> updated(value, bonus, limit) == value,
        bonus < 0 && value > -limit ==> updated(value, bonus, limit) < value,
        bonus < 0 && value == -limit ==> updated(value, bonus, limit) == value,
        bonus == 0 ==> updated(value, bonus, limit) == value,
        value == 0 && -limit <= bonus <= limit ==> updated(value, bonus, limit) == bonus,
        bonus >= limit ==> updated(value, bonus, limit) == limit,
        bonus <= -limit ==> updated(value, bonus, limit) == -limit,
        updated(-value, -bonus, limit) == -updated(value, bonus, limit),
{
    let b = clamped(bonus, -limit, limit);
    let m = if b < 0 {
        -b
    } else {
        b
    };
    let v = if value < 0 {
        -value
    } else {
        value
    };
    lemma_share(v, m, limit);
    assert((-v) * m == -(v * m)) by (nonlinear_arith);
    assert(v * m >= 0) by (nonlinear_arith)
        requires
            v >= 0,
            m >= 0,
    ;
    assert(toward_zero(0, limit) == 0) by (nonlinear_arith)
        requires
            limit > 0,
    ;
    assert(toward_zero(value * m, limit) == if value < 0 {
        -((v * m) / limit)
    } else {
        (v * m) / limit
    });
    assert(toward_zero((-value) * m, limit) == if value < 0 {
        (v * m) / limit
    } else {
        -((v * m) / limit)
    });
}

/// A number that is further up gains less by the same reward.
pub proof fn the_better_known_learn_less(low: int, high: int, bonus: int, limit: int)
    requires
        0 < limit,
        -limit <= low <= high <= limit,
        0 <= bonus,
    ensures
        updated(low, bonus, limit) - low >= updated(high, bonus, limit) - high,
{
    let b = clamped(bonus, -limit, limit);
    assert(low * b <= high * b) by (nonlinear_arith)
        requires
            low <= high,
            b >= 0,
    ;
    let x = low * b;
    let y = high * b;
    assert(toward_zero(x, limit) <= toward_zero(y, limit)) by {
        if x >= 0 {
            assert(x / limit <= y / limit) by (nonlinear_arith)
                requires
                    x <= y,
                    limit > 0,
            ;
        } else if y >= 0 {
            assert((-x) / limit >= 0 && y / limit >= 0) by (nonlinear_arith)
                requires
                    x < 0,
                    y >= 0,
                    limit > 0,
            ;
        } else {
            assert((-y) / limit <= (-x) / limit) by (nonlinear_arith)
                requires
                    x <= y,
                    limit > 0,
            ;
        }
    }
}

proof fn lemma_square_fits(depth: int)
    requires
        0 <= depth <= 46_340,
    ensures
        0 <= depth * depth <= 2_147_483_647,
{
    let limit = 46_340int;
    assert(0 <= depth * depth <= limit * depth) by (nonlinear_arith)
        requires
            0 <= depth <= limit,
    ;
}

/// The bonus is the square of the depth: it grows by one odd number after the
/// other, and as far as it can be written.
pub proof fn deeper_refutations_count_more(depth: int)
    ensures
        bonus_of(0) == 0,
        0 <= depth < 46_340 ==> bonus_of(depth + 1) - bonus_of(depth) == 2 * depth + 1,
        depth > 46_340 ==> bonus_of(depth) == 2_147_483_647,
{
    if 0 <= depth < 46_340 {
        let next = depth + 1;
        assert(next * next == depth * depth + 2 * depth + 1) by (nonlinear_arith)
            requires
                next == depth + 1,
        ;
        lemma_square_fits(next);
        lemma_square_fits(depth);
    }
    if depth > 46_340 {
        let limit = 46_341int;
        assert(depth * depth >= limit * depth) by (nonlinear_arith)
            requires
                depth >= limit,
                limit >= 0,
        ;
    }
}

/// Whether none of some moves but one has its number at a place.
pub open spec fn elsewhere(
    place: spec_fn(EngineMove) -> Option<int>,
    moves: Seq<EngineMove>,
    except: EngineMove,
    j: int,
) -> bool {
    forall|k: int|
        0 <= k < moves.len() ==> (#[trigger] moves[k]).mv == except.mv || place(moves[k]) != Some(j)
}

/// Whether one of some moves, and no second one, has its number at a place.
pub open spec fn once(
    place: spec_fn(EngineMove) -> Option<int>,
    moves: Seq<EngineMove>,
    except: EngineMove,
    i: int,
    j: int,
) -> bool {
    &&& 0 <= i < moves.len()
    &&& moves[i].mv != except.mv
    &&& place(moves[i]) == Some(j)
    &&& forall|k: int|
        0 <= k < moves.len() && k != i ==> (#[trigger] moves[k]).mv == except.mv || place(moves[k])
            != Some(j)
}

spec fn placed_within(
    place: spec_fn(EngineMove) -> Option<int>,
    moves: Seq<EngineMove>,
    size: nat,
) -> bool {
    forall|k: int|
        0 <= k < moves.len() ==> (place(#[trigger] moves[k]) matches Some(c) ==> 0 <= c < size)
}

proof fn lemma_untouched(
    table: Seq<i16>,
    place: spec_fn(EngineMove) -> Option<int>,
    moves: Seq<EngineMove>,
    except: EngineMove,
    bonus: int,
    j: int,
)
    requires
        0 <= j < table.len(),
        placed_within(place, moves, table.len()),
        elsewhere(place, moves, except, j),
    ensures
        with_bonuses(table, place, moves, except.mv, bonus, moves.len())[j] == table[j],
    decreases moves.len(),
{
    lemma_prefix(table, place, moves, except.mv, bonus);
    if moves.len() > 0 {
        let before = moves.drop_last();
        let last = moves[moves.len() - 1];
        assert forall|k: int| 0 <= k < before.len() implies (#[trigger] before[k]).mv == except.mv
            || place(before[k]) != Some(j) by {
            assert(before[k] == moves[k]);
        }
        lemma_untouched(table, place, before, except, bonus, j);
        lemma_prefix(table, place, before, except.mv, bonus);
        assert(last.mv == except.mv || place(last) != Some(j));
        assert(place(last) matches Some(c) ==> 0 <= c < table.len());
    }
}

proof fn lemma_prefix(
    table: Seq<i16>,
    place: spec_fn(EngineMove) -> Option<int>,
    moves: Seq<EngineMove>,
    except: Move,
    bonus: int,
)
    requires
        placed_within(place, moves, table.len()),
    ensures
        moves.len() > 0 ==> placed_within(place, moves.drop_last(), table.len()),
        with_bonuses(table, place, moves, except, bonus, moves.len()).len() == table.len(),
        moves.len() > 0 ==> with_bonuses(table, place, moves, except, bonus, moves.len()) == {
            let before = with_bonuses(
                table,
                place,
                moves.drop_last(),
                except,
                bonus,
                (moves.len() - 1) as nat,
            );
            if moves.last().mv == except {
                before
            } else {
                bonus_at(before, place(moves.last()), bonus)
            }
        },
    decreases moves.len(),
{
    if moves.len() > 0 {
        let before = moves.drop_last();
        assert forall|k: int| 0 <= k < before.len() implies (place(#[trigger] before[k]) matches Some(
            c,
        ) ==> 0 <= c < table.len()) by {
            assert(before[k] == moves[k]);
        }
        assert(place(moves[moves.len() - 1]) matches Some(c) ==> 0 <= c < table.len());
        lemma_prefix(table, place, before, except, bonus);
        lemma_same_prefix(
            table,
            place,
            moves,
            moves.drop_last(),
            except,
            bonus,
            (moves.len() - 1) as nat,
        );
    }
}

proof fn lemma_same_prefix(
    table: Seq<i16>,
    place: spec_fn(EngineMove) -> Option<int>,
    moves: Seq<EngineMove>,
    others: Seq<EngineMove>,
    except: Move,
    bonus: int,
    n: nat,
)
    requires
        n <= moves.len(),
        n <= others.len(),
        forall|k: int| 0 <= k < n ==> #[trigger] moves[k] == others[k],
    ensures
        with_bonuses(table, place, moves, except, bonus, n) == with_bonuses(
            table,
            place,
            others,
            except,
            bonus,
            n,
        ),
    decreases n,
{
    if n > 0 {
        lemma_same_prefix(table, place, moves, others, except, bonus, (n - 1) as nat);
        assert(moves[n - 1] == others[n - 1]);
    }
}

proof fn lemma_touched(
    table: Seq<i16>,
    place: spec_fn(EngineMove) -> Option<int>,
    moves: Seq<EngineMove>,
    except: EngineMove,
    bonus: int,
    i: int,
    j: int,
)
    requires
        0 <= j < table.len(),
        placed_within(place, moves, table.len()),
        once(place, moves, except, i, j),
    ensures
        with_bonuses(table, place, moves, except.mv, bonus, moves.len())[j] == updated(
            table[j] as int,
            bonus,
            16_384,
        ) as i16,
    decreases moves.len(),
{
    lemma_prefix(table, place, moves, except.mv, bonus);
    let before = moves.drop_last();
    let last = moves[moves.len() - 1];
    lemma_prefix(table, place, before, except.mv, bonus);
    if i == moves.len() - 1 {
        assert forall|k: int| 0 <= k < before.len() implies (#[trigger] before[k]).mv == except.mv
            || place(before[k]) != Some(j) by {
            assert(before[k] == moves[k]);
        }
        lemma_untouched(table, place, before, except, bonus, j);
    } else {
        assert(before[i] == moves[i]);
        assert forall|k: int| 0 <= k < before.len() && k != i implies (#[trigger] before[k]).mv
            == except.mv || place(before[k]) != Some(j) by {
            assert(before[k] == moves[k]);
        }
        lemma_touched(table, place, before, except, bonus, i, j);
        assert(last.mv == except.mv || place(last) != Some(j));
    }
}

/// Whether a table has learned that one move was better than the others: its
/// number took the reward, the number of each of the others the punishment, and
/// every other number is as it was.
pub open spec fn learned(
    before: Seq<i16>,
    after: Seq<i16>,
    place: spec_fn(EngineMove) -> Option<int>,
    mv: EngineMove,
    others: Seq<EngineMove>,
    reward: int,
    punishment: int,
) -> bool {
    &&& after.len() == before.len()
    &&& place(mv) matches Some(j) ==> elsewhere(place, others, mv, j) ==> after[j] == updated(
        before[j] as int,
        reward,
        16_384,
    ) as i16
    &&& forall|i: int, j: int|
        0 <= j < before.len() && place(mv) != Some(j) && #[trigger] once(place, others, mv, i, j)
            ==> after[j] == updated(before[j] as int, punishment, 16_384) as i16
    &&& forall|j: int|
        0 <= j < before.len() && place(mv) != Some(j) && #[trigger] elsewhere(place, others, mv, j)
            ==> after[j] == before[j]
}

proof fn lemma_learned(
    table: Seq<i16>,
    place: spec_fn(EngineMove) -> Option<int>,
    mv: EngineMove,
    others: Seq<EngineMove>,
    reward: int,
    punishment: int,
)
    requires
        place(mv) matches Some(c) ==> 0 <= c < table.len(),
        placed_within(place, others, table.len()),
    ensures
        learned(
            table,
            rewarded_table(table, place, mv, others, reward, punishment),
            place,
            mv,
            others,
            reward,
            punishment,
        ),
{
    let first = bonus_at(table, place(mv), reward);
    let after = rewarded_table(table, place, mv, others, reward, punishment);
    lemma_prefix(first, place, others, mv.mv, punishment);
    if let Some(j) = place(mv) {
        if elsewhere(place, others, mv, j) {
            lemma_untouched(first, place, others, mv, punishment, j);
        }
    }
    assert forall|i: int, j: int|
        0 <= j < table.len() && place(mv) != Some(j) && #[trigger] once(place, others, mv, i, j)
            implies after[j] == updated(table[j] as int, punishment, 16_384) as i16 by {
        lemma_touched(first, place, others, mv, punishment, i, j);
    }
    assert forall|j: int|
        0 <= j < table.len() && place(mv) != Some(j) && #[trigger] elsewhere(place, others, mv, j)
            implies after[j] == table[j] by {
        lemma_untouched(first, place, others, mv, punishment, j);
    }
}

/// Whether the tables have their sizes.
pub open spec fn sized(m: Memory) -> bool {
    &&& m.quiet.len() == 8192
    &&& m.capture.len() == 4608
    &&& m.continuation.len() == 294_912
    &&& m.pawn.len() == 3_145_728
    &&& m.pawn_correction.len() == 16_384
    &&& m.minor_correction.len() == 16_384
    &&& m.major_correction.len() == 16_384
    &&& m.stm_non_pawn_correction.len() == 16_384
    &&& m.nstm_non_pawn_correction.len() == 16_384
}

/// Whether moves lead from a square of the board to another.
pub open spec fn on_the_board(moves: Seq<EngineMove>) -> bool {
    forall|k: int|
        0 <= k < moves.len() ==> (#[trigger] moves[k]).mv.from < 64 && moves[k].mv.to < 64
}

/// A quiet move that refutes the last one is rewarded by the square of the
/// depth, by its squares, by the pawns on the board and as an answer to the last
/// move; the quiet moves that were tried before it are punished by as much. What
/// was learned of captures stays, and so does what the other side learned.
pub proof fn a_quiet_refutation_is_learned(
    m: Memory,
    board: Position,
    mv: EngineMove,
    depth: int,
    p: Picker,
    stack: Seq<StackMove>,
)
    requires
        sized(m),
        p.wf(),
        !mv.is_capture,
        !mv.promotion,
        mv.mv.from < 64,
        mv.mv.to < 64,
        on_the_board(p.tried_quiets()),
        stack.len() > 0 ==> stack.last().mv.to < 64,
        0 <= depth <= 46_340,
    ensures
        ({
            let after = rewarded(m, board, mv, depth, p, stack);
            let side = board.side_to_move.number();
            let others = p.tried_quiets();
            &&& learned(
                m.quiet,
                after.quiet,
                |e: EngineMove| Some(quiet_cell(side, e.mv.from as int, e.mv.to as int)),
                mv,
                others,
                depth * depth,
                -(depth * depth),
            )
            &&& learned(
                m.pawn,
                after.pawn,
                |e: EngineMove|
                    Some(pawn_cell(side, pawns_hash(board), e.mv.to as int, e.piece_type)),
                mv,
                others,
                depth * depth,
                -(depth * depth),
            )
            &&& stack.len() > 0 && !stack.last().is_null ==> learned(
                m.continuation,
                after.continuation,
                |e: EngineMove|
                    Some(
                        continuation_cell(
                            0,
                            side,
                            stack.last().mv.to as int,
                            stack.last().piece,
                            e.mv.to as int,
                            e.piece_type,
                        ),
                    ),
                mv,
                others,
                depth * depth,
                -(depth * depth),
            )
            &&& stack.len() == 0 || stack.last().is_null ==> after.continuation == m.continuation
            &&& after == Memory {
                quiet: after.quiet,
                pawn: after.pawn,
                continuation: after.continuation,
                ..m
            }
        }),
{
    let side = board.side_to_move.number();
    let others = p.tried_quiets();
    let b = depth * depth;
    lemma_square_fits(depth);
    assert(bonus_of(depth) == b);
    let quiet = crate::model::quiet_place(side);
    lemma_learned(m.quiet, quiet, mv, others, b, -b);
    let q = |e: EngineMove| Some(quiet_cell(side, e.mv.from as int, e.mv.to as int));
    assert(q =~= quiet);
    let pawn = crate::model::pawn_place(side, pawns_hash(board));
    lemma_learned(m.pawn, pawn, mv, others, b, -b);
    let pp = |e: EngineMove|
        Some(pawn_cell(side, pawns_hash(board), e.mv.to as int, e.piece_type));
    assert(pp =~= pawn);
    if stack.len() > 0 && !stack.last().is_null {
        let answer = crate::model::answer_place(side, stack.last());
        lemma_learned(m.continuation, answer, mv, others, b, -b);
        let a = |e: EngineMove|
            Some(
                continuation_cell(
                    0,
                    side,
                    stack.last().mv.to as int,
                    stack.last().piece,
                    e.mv.to as int,
                    e.piece_type,
                ),
            );
        assert(a =~= answer);
    }
}

/// A capture that refutes the last move is rewarded by the square of the depth, and
/// the captures that were tried before it are punished by a quarter of that. What
/// was learned of quiet moves stays, and a promotion that takes nothing teaches
/// nothing.
pub proof fn a_capture_that_refutes_is_learned(
    m: Memory,
    board: Position,
    mv: EngineMove,
    depth: int,
    p: Picker,
    stack: Seq<StackMove>,
)
    requires
        sized(m),
        mv.is_capture || mv.promotion,
        mv.mv.to < 64,
        on_the_board(p.tried),
        0 <= depth <= 46_340,
    ensures
        ({
            let after = rewarded(m, board, mv, depth, p, stack);
            let side = board.side_to_move.number();
            &&& mv.is_capture ==> learned(
                m.capture,
                after.capture,
                |e: EngineMove|
                    match e.target_type {
                        Some(victim) => Some(
                            capture_cell(side, e.mv.to as int, e.piece_type, victim),
                        ),
                        None => None,
                    },
                mv,
                p.tried,
                depth * depth,
                -(depth * depth / 4),
            )
            &&& !mv.is_capture ==> after == m
            &&& after == Memory { capture: after.capture, ..m }
        }),
{
    let side = board.side_to_move.number();
    let b = depth * depth;
    lemma_square_fits(depth);
    assert(bonus_of(depth) == b);
    if mv.is_capture {
        let place = crate::model::capture_place(side);
        lemma_learned(m.capture, place, mv, p.tried, b, -(b / 4));
        let c = |e: EngineMove|
            match e.target_type {
                Some(victim) => Some(capture_cell(side, e.mv.to as int, e.piece_type, victim)),
                None => None,
            };
        assert(c =~= place);
    }
}

/// The five numbers by which the evaluation of a position like this one was off.
pub open spec fn corrections_of(m: Memory, board: Position) -> Seq<i16> {
    let side = board.side_to_move;
    seq![
        m.pawn_correction[correction_cell(side.number(), pawns_hash(board))],
        m.minor_correction[correction_cell(side.number(), minors_hash(board))],
        m.major_correction[correction_cell(side.number(), majors_hash(board))],
        m.stm_non_pawn_correction[correction_cell(side.number(), non_pawn_hash_of(board, side))],
        m.nstm_non_pawn_correction[correction_cell(
            side.number(),
            non_pawn_hash_of(board, side.other()),
        )],
    ]
}

/// The evaluation of a position is held to have been off by what the search found,
/// in step with the depth, but only by a quiet position: not in check, with no
/// capture or promotion best, without a mate in sight, and where the result is no
/// bound on the wrong side of the evaluation.
pub proof fn evaluations_are_corrected_by_results(
    m: Memory,
    board: Position,
    depth: int,
    ply: int,
    alpha: int,
    beta: int,
    eval: int,
    off: int,
    best: Option<EngineMove>,
    i: int,
)
    requires
        sized(m),
        0 <= i < 5,
    ensures
        ({
            let result = eval + 4 * off;
            let after = recorded(m, board, depth, ply, alpha, beta, eval, result, best);
            let quiet = board.checkers == 0 && (best matches Some(mv) ==> !mv.is_capture
                && !mv.promotion) && -95_000 <= result <= 95_000;
            let says = if result >= beta {
                off > 0
            } else if result <= alpha {
                off < 0
            } else {
                true
            };
            let bonus = if off * depth > 2048 {
                2048
            } else if off * depth < -2048 {
                -2048
            } else {
                off * depth
            };
            &&& quiet && says ==> corrections_of(after, board)[i] == updated(
                corrections_of(m, board)[i] as int,
                bonus,
                8192,
            ) as i16
            &&& !(quiet && says) ==> after == (Memory { tt: after.tt, ..m })
            &&& after.quiet == m.quiet && after.pawn == m.pawn && after.capture == m.capture
                && after.continuation == m.continuation
        }),
{
    let result = eval + 4 * off;
    let x = off * depth;
    assert((result - eval) * depth == 4 * x) by (nonlinear_arith)
        requires
            result == eval + 4 * off,
            x == off * depth,
    ;
    assert(toward_zero(4 * x, 4) == x);
}

/// After a new game nothing is found in the table, and nothing is left of what was
/// learned of answers, of the pawns and of the evaluation.
pub proof fn a_new_game_starts_from_nothing(m: Memory, key: u64, i: int)
    requires
        m.tt.len() > 0,
    ensures
        ({
            let after = forgotten(m);
            &&& lookup(after.tt, key) is None
            &&& after.tt.len() == m.tt.len()
            &&& 0 <= i < 294_912 ==> after.continuation[i] == 0
            &&& 0 <= i < 3_145_728 ==> after.pawn[i] == 0
            &&& 0 <= i < 16_384 ==> after.pawn_correction[i] == 0 && after.minor_correction[i] == 0
                && after.major_correction[i] == 0 && after.stm_non_pawn_correction[i] == 0
                && after.nstm_non_pawn_correction[i] == 0
        }),
{
}

/// Each search learns anew of quiet moves and captures, and keeps the table and
/// all else.
pub proof fn each_search_learns_its_moves_anew(m: Memory, key: u64, i: int)
    ensures
        0 <= i < 8192 ==> refreshed(m).quiet[i] == 0,
        0 <= i < 4608 ==> refreshed(m).capture[i] == 0,
        lookup(refreshed(m).tt, key) == lookup(m.tt, key),
        refreshed(m).continuation == m.continuation && refreshed(m).pawn == m.pawn,
        refreshed(m).pawn_correction == m.pawn_correction,
{
}

/// What a table has for a key gives way to what is offered for it unless that is
/// more than two plies less deep; even then if only the new score is exact.
pub proof fn shallow_entries_do_not_overwrite(
    table: Seq<Seq<TableEntry>>,
    key: u64,
    entry: TableEntry,
    held: TableEntry,
)
    requires
        table.len() > 0,
        consistent(table),
        entry.key == key,
        lookup(table, key) == Some(held),
    ensures
        ({
            let found = lookup(stored(table, key, entry), key);
            &&& entry.depth >= held.depth - 2 ==> found == Some(entry)
            &&& entry.depth < held.depth - 2 && entry.node_type == TTNodeType::EXACT && held.node_type
                != TTNodeType::EXACT ==> found == Some(entry)
            &&& entry.depth < held.depth - 2 && (entry.node_type != TTNodeType::EXACT
                || held.node_type == TTNodeType::EXACT) ==> found == Some(held)
        }),
{
    let i = cluster_index(table.len() as int, key);
    assert(crate::transposition::consistent_cluster(table.len() as int, i, table[i]));
    assert forall|i: int| 0 <= i < table.len() implies (#[trigger] table[i]).len() <= 2 by {
        assert(crate::transposition::consistent_cluster(table.len() as int, i, table[i]));
    }
    crate::transposition::stored_entry_is_found(table, key, entry);
}

/// Of two entries in the way of a new one the less deep is lost, where an exact
/// score counts as two plies; the first if they are alike.
pub proof fn the_least_useful_entry_is_lost(
    table: Seq<Seq<TableEntry>>,
    key: u64,
    entry: TableEntry,
)
    requires
        table.len() > 0,
        consistent(table),
        entry.key == key,
        lookup(table, key) is None,
        table[cluster_index(table.len() as int, key)].len() == 2,
    ensures
        ({
            let cluster = table[cluster_index(table.len() as int, key)];
            let first = cluster[0];
            let second = cluster[1];
            let after = stored(table, key, entry);
            let deeper = first.depth + (if first.node_type == TTNodeType::EXACT {
                2int
            } else {
                0int
            }) > second.depth + (if second.node_type == TTNodeType::EXACT {
                2int
            } else {
                0int
            });
            &&& lookup(after, key) == Some(entry)
            &&& deeper ==> lookup(after, first.key) == Some(first) && lookup(
                after,
                second.key,
            ) is None
            &&& !deeper ==> lookup(after, first.key) is None && lookup(after, second.key) == Some(
                second,
            )
        }),
{
    let i = cluster_index(table.len() as int, key);
    let cluster = table[i];
    assert(crate::transposition::consistent_cluster(table.len() as int, i, cluster));
    reveal_with_fuel(crate::transposition::place_of, 3);
    crate::transposition::a_new_key_takes_at_most_one_place(table, key, entry);
    assert(lookup(table, cluster[0].key) == Some(cluster[0]));
    assert(lookup(table, cluster[1].key) == Some(cluster[1]));
}

/// A table has room by its size: 64 bytes for each cluster, and a megabyte at
/// least.
pub proof fn a_table_takes_the_room_it_is_given(megabytes: u64)
    requires
        megabytes * 16_384 < usize::MAX,
    ensures
        megabytes >= 1 ==> clusters_for_mb(megabytes) * 64 == megabytes * 1_048_576,
        megabytes == 0 ==> clusters_for_mb(megabytes) == clusters_for_mb(1),
{
}

} // verus!
