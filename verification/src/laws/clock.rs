//! How the clock is shared out.

use crate::chess::Color;
use crate::limits::{budget_of, SearchLimits};
use vstd::prelude::*;

verus! {

/// A side has its own clock: what the other side has left, and gains with each
/// move, does not change its budget.
pub proof fn each_side_has_its_own_clock(a: SearchLimits, b: SearchLimits)
    requires
        a.movetime == b.movetime,
        a.infinite == b.infinite,
        a.movestogo == b.movestogo,
    ensures
        a.wtime == b.wtime && a.winc == b.winc ==> budget_of(Color::White, a) == budget_of(
            Color::White,
            b,
        ),
        a.btime == b.btime && a.binc == b.binc ==> budget_of(Color::Black, a) == budget_of(
            Color::Black,
            b,
        ),
{
}

/// The two sides are treated alike: with the clocks exchanged, the budgets are.
pub proof fn clocks_are_shared_out_alike(a: SearchLimits, b: SearchLimits)
    requires
        a.movetime == b.movetime,
        a.infinite == b.infinite,
        a.movestogo == b.movestogo,
        a.wtime == b.btime,
        a.winc == b.binc,
    ensures
        budget_of(Color::White, a) == budget_of(Color::Black, b),
{
}

/// A clock is never overdrawn: the search ends before the remaining time of the
/// side to move, unless there is at most a millisecond, and no new depth is
/// started after that.
pub proof fn no_clock_is_overdrawn(limits: SearchLimits)
    requires
        limits.movetime is None,
    ensures
        budget_of(Color::White, limits) matches Some((soft, hard)) ==> {
            &&& limits.wtime matches Some(time) && (hard <= time || hard == 1)
            &&& 1 <= soft <= hard
        },
        budget_of(Color::Black, limits) matches Some((soft, hard)) ==> {
            &&& limits.btime matches Some(time) && (hard <= time || hard == 1)
            &&& 1 <= soft <= hard
        },
{
}

/// A budget is there exactly where a time is given for the move, or the side to
/// move has a clock and the search is not to go on without end.
pub proof fn budgets_come_from_a_time(limits: SearchLimits)
    ensures
        budget_of(Color::White, limits) is Some <==> limits.movetime is Some || (
        !limits.infinite && limits.wtime is Some),
        budget_of(Color::Black, limits) is Some <==> limits.movetime is Some || (
        !limits.infinite && limits.btime is Some),
{
}

/// A time for the move is used up but for five milliseconds, whatever the clocks
/// say, and no new depth is started after four fifths of it.
pub proof fn a_time_for_the_move_is_used(limits: SearchLimits, side: Color, movetime: u64)
    requires
        limits.movetime == Some(movetime),
    ensures
        budget_of(side, limits) matches Some((soft, hard)) && (movetime > 5 ==> hard + 5
            == movetime) && (movetime <= 5 ==> hard == 1) && (soft == 1 || 5 * soft <= 4 * hard < 5
            * soft + 5),
{
}

/// What a clock without an increment gives one move is enough for all the moves
/// that are to come, and no more than a share is kept back: a hundredth of the
/// time, or five milliseconds.
pub proof fn a_clock_lasts_for_its_moves(limits: SearchLimits, time: u64, moves: u64)
    requires
        limits.movetime is None,
        !limits.infinite,
        limits.wtime == Some(time),
        limits.winc is None,
        limits.movestogo == Some(moves) || (limits.movestogo is None && moves == 30),
        1 <= moves <= 52,
    ensures
        budget_of(Color::White, limits) matches Some((soft, hard)) && {
            &&& hard == 1 || moves * hard <= time
            &&& time >= 500 ==> moves * (hard + 1) + time / 100 > time
            &&& 5 <= time < 500 ==> moves * (hard + 1) + 5 > time
            &&& soft == 1 || 5 * soft <= 4 * hard < 5 * soft + 5
        },
{
    let kept: int = if time / 100 > 5 {
        time as int / 100
    } else {
        5
    };
    let safe: int = if time - kept > 1 {
        time - kept
    } else {
        1
    };
    let m = moves as int;
    let share = safe / m;
    assert(m * share <= safe < m * (share + 1)) by (nonlinear_arith)
        requires
            share == safe / m,
            m >= 1,
            safe >= 1,
    ;
    let hard = if share > 1 {
        share
    } else {
        1
    };
    assert(0 <= share <= safe) by (nonlinear_arith)
        requires
            m * share <= safe,
            m >= 1,
            share == safe / m,
            safe >= 1,
    ;
    assert((budget_of(Color::White, limits)->0).1 == hard);
    assert(m * (hard + 1) >= m * (share + 1)) by (nonlinear_arith)
        requires
            hard >= share,
            m >= 1,
    ;
}

/// Three quarters of an increment are spent on top, as long as the clock has
/// them.
pub proof fn an_increment_is_spent(a: SearchLimits, b: SearchLimits, time: u64, increment: u64)
    requires
        a.movetime is None,
        b.movetime is None,
        !a.infinite,
        !b.infinite,
        a.wtime == Some(time),
        b.wtime == Some(time),
        a.movestogo == b.movestogo,
        a.winc is None,
        b.winc == Some(increment),
        increment <= 0x1000_0000_0000_0000,
    ensures
        budget_of(Color::White, a) matches Some((_, without)) && budget_of(
            Color::White,
            b,
        ) matches Some((_, with)) && {
            &&& without <= with
            &&& 4 * (with - without) <= 3 * increment
            &&& 4 * (with - without) + 4 > 3 * increment || with + time / 100 + 6 > time
                || without == 1
        },
{
    let kept: int = if time / 100 > 5 {
        time as int / 100
    } else {
        5
    };
    let safe: int = if time - kept > 1 {
        time - kept
    } else {
        1
    };
    let m: int = match a.movestogo {
        Some(moves) => if moves < 1 {
            1
        } else if moves > 52 {
            52
        } else {
            moves as int
        },
        None => 30,
    };
    let share = safe / m;
    assert(0 <= share <= safe) by (nonlinear_arith)
        requires
            share == safe / m,
            m >= 1,
            safe >= 1,
    ;
}

/// More time left gives no smaller a budget.
pub proof fn more_time_is_more_budget(a: SearchLimits, b: SearchLimits, less: u64, more: u64)
    requires
        a.movetime is None,
        b.movetime is None,
        !a.infinite,
        !b.infinite,
        a.wtime == Some(less),
        b.wtime == Some(more),
        less <= more,
        a.winc == b.winc,
        a.movestogo == b.movestogo,
    ensures
        (budget_of(Color::White, a)->0).1 <= (budget_of(Color::White, b)->0).1,
{
    let kept = |time: int|
        if time / 100 > 5 {
            time / 100
        } else {
            5
        };
    let safe = |time: int|
        if time - kept(time) > 1 {
            time - kept(time)
        } else {
            1
        };
    let m: int = match a.movestogo {
        Some(moves) => if moves < 1 {
            1
        } else if moves > 52 {
            52
        } else {
            moves as int
        },
        None => 30,
    };
    let x = safe(less as int);
    let y = safe(more as int);
    assert(x <= y);
    assert(x / m <= y / m) by (nonlinear_arith)
        requires
            x <= y,
            m >= 1,
    ;
}

} // verus!
