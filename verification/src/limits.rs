//! What a search is asked to do, when it has to stop, and what it reports.

use crate::chess::{Color, Move, Position};
use crate::history::clamped;
use std::sync::atomic::AtomicBool;
use std::sync::Arc;
use vstd::prelude::*;

verus! {

/// The limits of a search. All times are in milliseconds.
pub struct SearchLimits {
    pub depth: Option<i32>,
    pub nodes: Option<u64>,
    pub movetime: Option<u64>,
    pub wtime: Option<u64>,
    pub btime: Option<u64>,
    pub winc: Option<u64>,
    pub binc: Option<u64>,
    pub movestogo: Option<u64>,
    pub infinite: bool,
    pub searchmoves: Vec<Move>,
}

impl Default for SearchLimits {
    fn default() -> (r: SearchLimits)
        ensures
            r.depth is None,
            r.nodes is None,
            r.movetime is None,
            r.wtime is None,
            r.btime is None,
            r.winc is None,
            r.binc is None,
            r.movestogo is None,
            !r.infinite,
            r.searchmoves@.len() == 0,
    {
        SearchLimits {
            depth: None,
            nodes: None,
            movetime: None,
            wtime: None,
            btime: None,
            winc: None,
            binc: None,
            movestogo: None,
            infinite: false,
            searchmoves: Vec::new(),
        }
    }
}

/// One search: a position, the keys of the positions of the game up to it,
/// the limits, and a flag that stops the search when it is set.
pub struct SearchRequest {
    pub board: Position,
    pub history: Vec<u64>,
    pub limits: SearchLimits,
    pub stop: Arc<AtomicBool>,
}

/// What a search has found after a completed depth. The time is in
/// milliseconds.
pub struct SearchInfo {
    pub depth: i32,
    pub score: i32,
    pub nodes: u64,
    pub elapsed: u64,
    pub pv: Vec<Move>,
}

pub struct SearchResult {
    pub best_move: Option<Move>,
}

#[verifier::external_type_specification]
#[verifier::external_body]
pub struct ExInstant(std::time::Instant);

/// `std::time::Instant::now`.
#[verifier::external_body]
fn now() -> std::time::Instant {
    std::time::Instant::now()
}

/// `std::time::Instant::elapsed`, in whole milliseconds. Nothing is known of
/// the clock.
#[verifier::external_body]
fn elapsed_ms(start: &std::time::Instant) -> u64 {
    start.elapsed().as_millis() as u64
}

/// `x - y`, or nothing less than one.
pub open spec fn less_at_least_one(x: int, y: int) -> int {
    if x - y > 1 {
        x - y
    } else {
        1
    }
}

pub open spec fn smaller(x: int, y: int) -> int {
    if x < y {
        x
    } else {
        y
    }
}

pub open spec fn larger(x: int, y: int) -> int {
    if x > y {
        x
    } else {
        y
    }
}

pub open spec fn given_or(x: Option<u64>, or: int) -> int {
    match x {
        Some(v) => v as int,
        None => or,
    }
}

/// What a clock with some time left and an increment gives one move. Some of
/// the time is kept back: the larger of a hundredth and five milliseconds.
pub open spec fn clock_budget(remaining: int, increment: int, movestogo: Option<u64>) -> int {
    let safe = less_at_least_one(remaining, larger(remaining / 100, 5));
    let share = safe / clamped(given_or(movestogo, 30), 1, 52);
    let bonus = smaller(increment * 3, u64::MAX as int) / 4;
    larger(smaller(share + bonus, safe), 1)
}

/// The deadlines of a budget: until when a search may start a new depth, four
/// fifths of it, and until when it may run at all.
pub open spec fn deadlines(budget: int) -> (int, int) {
    (larger(budget * 4 / 5, 1), budget)
}

/// The deadlines that the limits give the side to move.
pub open spec fn budget_of(side: Color, limits: SearchLimits) -> Option<(int, int)> {
    let (clock, increment) = match side {
        Color::White => (limits.wtime, limits.winc),
        Color::Black => (limits.btime, limits.binc),
    };
    match limits.movetime {
        Some(movetime) => Some(deadlines(less_at_least_one(movetime as int, 5))),
        None => if limits.infinite {
            None
        } else {
            match clock {
                Some(remaining) => Some(
                    deadlines(
                        clock_budget(remaining as int, given_or(increment, 0), limits.movestogo),
                    ),
                ),
                None => None,
            }
        },
    }
}

/// The two deadlines of a budget.
fn split_budget(budget: u64) -> (r: (u64, u64))
    requires
        budget >= 1,
    ensures
        (r.0 as int, r.1 as int) == deadlines(budget as int),
        1 <= r.0 <= r.1,
{
    let soft: u64 = (budget as u128 * 4 / 5) as u64;
    if soft > 1 {
        (soft, budget)
    } else {
        (1, budget)
    }
}

/// The time that the limits give the side to move: how long it may start a
/// new depth, and how long it may search.
pub fn time_budget_ms(board: &Position, limits: &SearchLimits) -> (r: Option<(u64, u64)>)
    ensures
        match r {
            Some((soft, hard)) => budget_of(board.side_to_move, *limits) == Some(
                (soft as int, hard as int),
            ) && 1 <= soft <= hard,
            None => budget_of(board.side_to_move, *limits) is None,
        },
{
    if let Some(movetime) = limits.movetime {
        let budget: u64 = if movetime > 6 {
            movetime - 5
        } else {
            1
        };
        return Some(split_budget(budget));
    }
    if limits.infinite {
        return None;
    }
    let (clock, increment): (Option<u64>, Option<u64>) = match board.side_to_move {
        Color::White => (limits.wtime, limits.winc),
        Color::Black => (limits.btime, limits.binc),
    };
    let remaining: u64 = match clock {
        Some(time) => time,
        None => {
            return None;
        },
    };
    let increment: u64 = match increment {
        Some(time) => time,
        None => 0,
    };
    let kept: u64 = if remaining / 100 > 5 {
        remaining / 100
    } else {
        5
    };
    let safe: u64 = if remaining > kept && remaining - kept > 1 {
        remaining - kept
    } else {
        1
    };
    let moves: u64 = match limits.movestogo {
        Some(moves) => if moves < 1 {
            1
        } else if moves > 52 {
            52
        } else {
            moves
        },
        None => 30,
    };
    let share: u64 = safe / moves;
    proof {
        assert(share <= safe) by (nonlinear_arith)
            requires
                share == safe / moves,
                moves >= 1,
        ;
    }
    let tripled: u128 = increment as u128 * 3;
    let bonus: u128 = (if tripled < u64::MAX as u128 {
        tripled
    } else {
        u64::MAX as u128
    }) / 4;
    let wanted: u128 = share as u128 + bonus;
    let budget: u64 = if wanted < safe as u128 {
        wanted as u64
    } else {
        safe
    };
    if budget > 1 {
        Some(split_budget(budget))
    } else {
        Some(split_budget(1))
    }
}

/// A deeper line than any game has: scores are told apart up to it.
pub const MAX_PLY: i32 = 50_000_000;

/// Whether a search that has visited so many nodes has to stop.
pub open spec fn out_of_nodes(limit: Option<u64>, nodes: int) -> bool {
    nodes >= u64::MAX || (limit matches Some(most) && nodes >= most)
}

/// Whether a search with a limit goes from one count of nodes to another as one
/// did that stopped there, or that did not: the limit is reached at the last of
/// them, or not yet.
pub open spec fn reaches(limit: Option<u64>, from: int, to: int, stopped: bool) -> bool {
    if stopped {
        out_of_nodes(limit, to) && (to > from + 1 ==> !out_of_nodes(limit, to - 1))
    } else {
        to > from ==> !out_of_nodes(limit, to)
    }
}

/// What a search has to do at a node.
#[derive(Clone, Copy, Debug, PartialEq, Eq, Structural)]
pub enum Poll {
    GoOn,
    Stop,
    AskClock,
}

/// What a search has to do at a node by the flag, its limit of nodes, the count of
/// nodes with this one, and whether it has a deadline.
pub open spec fn poll_of(stop: bool, limit: Option<u64>, nodes: int, has_deadline: bool) -> Poll {
    if stop || out_of_nodes(limit, nodes) {
        Poll::Stop
    } else if has_deadline && (nodes == 1 || nodes % 1024 == 0) {
        Poll::AskClock
    } else {
        Poll::GoOn
    }
}

/// The state of one search. The deadlines are milliseconds from the start.
/// `interrupted` says that the search was stopped from outside, by the flag
/// or by the clock.
pub struct SearchContext {
    pub node_limit: Option<u64>,
    pub stop: Arc<AtomicBool>,
    pub history: Vec<u64>,
    pub start: std::time::Instant,
    pub soft_deadline: Option<u64>,
    pub hard_deadline: Option<u64>,
    pub nodes: u64,
    pub interrupted: bool,
}

impl SearchContext {
    pub fn new(
        board: &Position,
        history: Vec<u64>,
        limits: &SearchLimits,
        stop: Arc<AtomicBool>,
    ) -> (r: SearchContext)
        ensures
            r.node_limit == limits.nodes,
            r.stop == stop,
            r.history@ == history@,
            r.nodes == 0,
            !r.interrupted,
            r.keeps(budget_of(board.side_to_move, *limits)),
    {
        let (soft_deadline, hard_deadline): (Option<u64>, Option<u64>) = match time_budget_ms(
            board,
            limits,
        ) {
            Some((soft, hard)) => (Some(soft), Some(hard)),
            None => (None, None),
        };
        SearchContext {
            node_limit: limits.nodes,
            stop,
            history,
            start: now(),
            soft_deadline,
            hard_deadline,
            nodes: 0,
            interrupted: false,
        }
    }

    /// The deadlines are those of a budget.
    pub open spec fn keeps(self, budget: Option<(int, int)>) -> bool {
        match budget {
            Some((soft, hard)) => {
                &&& self.soft_deadline matches Some(s) && s == soft
                &&& self.hard_deadline matches Some(h) && h == hard
            },
            None => self.soft_deadline is None && self.hard_deadline is None,
        }
    }

    /// Nothing has changed but the count of nodes and whether the search was
    /// interrupted; it stays interrupted.
    pub open spec fn same_search(self, other: SearchContext) -> bool {
        &&& other.node_limit == self.node_limit
        &&& other.stop == self.stop
        &&& other.start == self.start
        &&& other.soft_deadline == self.soft_deadline
        &&& other.hard_deadline == self.hard_deadline
        &&& other.nodes >= self.nodes
        &&& self.interrupted ==> other.interrupted
    }

    /// Counts a node. The flag stops the search, and the count of nodes does;
    /// else the clock is asked at the first node and at every 1024th.
    pub fn count_node(&mut self, stop: bool) -> (r: Poll)
        ensures
            old(self).same_search(*final(self)),
            final(self).history@ == old(self).history@,
            r == poll_of(
                stop,
                old(self).node_limit,
                old(self).nodes + 1,
                old(self).hard_deadline is Some,
            ),
            r == if stop || out_of_nodes(old(self).node_limit, old(self).nodes + 1) {
                Poll::Stop
            } else if old(self).hard_deadline is Some && (old(self).nodes == 0 || (old(self).nodes
                + 1) % 1024 == 0) {
                Poll::AskClock
            } else {
                Poll::GoOn
            },
            final(self).interrupted == (old(self).interrupted || stop),
            final(self).nodes == if old(self).nodes == u64::MAX {
                u64::MAX as int
            } else {
                old(self).nodes + 1
            },
    {
        if self.nodes < u64::MAX {
            self.nodes = self.nodes + 1;
        }
        if stop {
            self.interrupted = true;
            return Poll::Stop;
        }
        if self.nodes == u64::MAX {
            return Poll::Stop;
        }
        if let Some(limit) = self.node_limit {
            if self.nodes >= limit {
                return Poll::Stop;
            }
        }
        if self.hard_deadline.is_some() && (self.nodes == 1 || self.nodes % 1024 == 0) {
            return Poll::AskClock;
        }
        Poll::GoOn
    }

    /// Whether a time is past the hard deadline, which interrupts the search.
    pub fn hear_clock(&mut self, elapsed: u64) -> (r: bool)
        ensures
            old(self).same_search(*final(self)),
            final(self).history@ == old(self).history@,
            final(self).nodes == old(self).nodes,
            r == (old(self).hard_deadline matches Some(deadline) && elapsed >= deadline),
            final(self).interrupted == (old(self).interrupted || r),
    {
        if let Some(deadline) = self.hard_deadline {
            if elapsed >= deadline {
                self.interrupted = true;
                return true;
            }
        }
        false
    }

    /// Whether the flag is set, which another thread may do at any time.
    fn stop_requested(&self) -> bool {
        self.stop.load(std::sync::atomic::Ordering::Relaxed)
    }

    /// Whether the search has to stop at this node. Without the flag and the
    /// clock the count of nodes alone decides; they interrupt the search.
    pub fn should_stop(&mut self) -> (r: bool)
        ensures
            old(self).same_search(*final(self)),
            final(self).history@ == old(self).history@,
            out_of_nodes(old(self).node_limit, old(self).nodes + 1) ==> r,
            r ==> out_of_nodes(old(self).node_limit, old(self).nodes + 1)
                || final(self).interrupted,
            !r ==> old(self).nodes < u64::MAX && final(self).interrupted == old(self).interrupted,
            final(self).nodes == if old(self).nodes == u64::MAX {
                u64::MAX as int
            } else {
                old(self).nodes + 1
            },
    {
        let stop: bool = self.stop_requested();
        match self.count_node(stop) {
            Poll::GoOn => false,
            Poll::Stop => true,
            Poll::AskClock => {
                let elapsed: u64 = self.elapsed();
                self.hear_clock(elapsed)
            },
        }
    }

    /// Whether no new depth is to be started at a time: a soft deadline is
    /// reached.
    pub open spec fn starts_no_depth(self, elapsed: u64) -> bool {
        self.soft_deadline matches Some(deadline) && elapsed >= deadline
    }

    /// Whether a time has reached the soft deadline.
    pub fn soft_passed(&self, elapsed: u64) -> (r: bool)
        ensures
            r == self.starts_no_depth(elapsed),
    {
        match self.soft_deadline {
            Some(deadline) => elapsed >= deadline,
            None => false,
        }
    }

    /// Whether no new depth is to be started. Without a deadline one always
    /// is; with one the clock decides.
    pub fn soft_expired(&self) -> (r: bool)
        ensures
            self.soft_deadline is None ==> !r,
            exists|elapsed: u64| r == #[trigger] self.starts_no_depth(elapsed),
    {
        let elapsed: u64 = self.elapsed();
        self.soft_passed(elapsed)
    }

    /// How long the search has run, in milliseconds. Nothing is said of the
    /// clock.
    pub fn elapsed(&self) -> u64 {
        elapsed_ms(&self.start)
    }
}

} // verus!
