//! Searches that are limited by a count of nodes and still reach depth one.

use crate::chess::{Move, Position};
use crate::deepening::{
    completed_depths, followed_depth, followed_limit, refreshed, reported, Completed, SearchReport,
};
use crate::engine::Engine;
use crate::limits::{SearchInfo, SearchLimits, SearchRequest};
use crate::model::{table_move, Memory, Place, StackMove, State, MAX_SCORE};
use crate::rules::{can_move, legal_moves_of};
use std::sync::atomic::AtomicBool;
use std::sync::Arc;
use vstd::prelude::*;

verus! {

/// The root of a search of a position after others with these keys.
pub open spec fn root(board: Position, keys: Seq<u64>) -> Place {
    Place { board, ply: 0, keys, stack: Seq::<StackMove>::empty() }
}

/// The depths that a search of all moves completes which nothing cuts short,
/// and its state after them.
pub open spec fn full_search(
    engine: Engine,
    m: Memory,
    at: Place,
    nodes: Option<u64>,
    max_depth: int,
) -> (State, Seq<Completed>) {
    completed_depths(
        engine.setting(nodes),
        State { memory: refreshed(m), nodes: 0 },
        at,
        1,
        max_depth,
        Seq::empty(),
        table_move(m, at.board),
        0,
    )
}

/// The best move with its score of the last depth that was completed.
pub open spec fn last_completed(depths: Seq<Completed>) -> Option<(Move, int)> {
    if depths.len() > 0 {
        Some((depths.last().mv, depths.last().score))
    } else {
        None
    }
}

/// Whether this is the best move with its score of a depth that a search of all
/// moves completes which nothing cuts short.
pub open spec fn completes(
    engine: Engine,
    m: Memory,
    at: Place,
    nodes: Option<u64>,
    max_depth: int,
    found: (Move, int),
) -> bool {
    let depths = full_search(engine, m, at, nodes, max_depth).1;
    exists|n: int|
        0 < n <= depths.len() && last_completed(#[trigger] depths.take(n)) == Some(found)
}

/// Whether a search to depth one completes it with this move and score, in
/// some state of the tables.
pub open spec fn completes_one(engine: Engine, at: Place, found: (Move, int)) -> bool {
    exists|m: Memory| #[trigger] completes(engine, m, at, None, 1, found)
}

/// Whether a search of all moves, with some limit of nodes and to some depth,
/// finds this and leaves these tables.
pub open spec fn some_search(
    engine: Engine,
    m: Memory,
    at: Place,
    found: Option<(Move, int)>,
    after: Memory,
) -> bool {
    exists|limit: Option<u64>, depth: int|
        {
            let end = #[trigger] full_search(engine, m, at, limit, depth);
            found == last_completed(end.1) && after == end.0.memory
        }
}

/// Whether two searches, one after the other, of which the first finds nothing,
/// find this and leave these tables.
pub open spec fn two_searches(
    engine: Engine,
    m: Memory,
    at: Place,
    found: Option<(Move, int)>,
    after: Memory,
) -> bool {
    exists|between: Memory|
        {
            &&& #[trigger] some_search(engine, m, at, None, between)
            &&& some_search(engine, between, at, found, after)
        }
}

/// A move with its score, as the model has it.
pub open spec fn as_found(found: Option<(Move, i32)>) -> Option<(Move, int)> {
    match found {
        Some((mv, score)) => Some((mv, score as int)),
        None => None,
    }
}

/// What a probe comes to: the best move with its score, whether it took a
/// second search, and the tables after it.
pub struct Probed {
    pub found: Option<(Move, int)>,
    pub retried: bool,
    pub memory: Memory,
}

/// What a probe comes to which nothing cuts short: a search with so many
/// nodes, and one to depth one where the first did not complete a depth.
pub open spec fn probed(engine: Engine, m: Memory, at: Place, nodes: u64) -> Probed {
    if !can_move(at.board) {
        Probed { found: None, retried: true, memory: m }
    } else {
        let (end, depths) = full_search(engine, m, at, Some(nodes), i32::MAX as int);
        if depths.len() > 0 {
            Probed { found: last_completed(depths), retried: false, memory: end.memory }
        } else {
            let (second_end, second) = full_search(engine, end.memory, at, None, 1);
            Probed { found: last_completed(second), retried: true, memory: second_end.memory }
        }
    }
}

/// What a probe has found: the best move with its score, whether it took a
/// second search, and whether the flag cut it short.
pub struct Probe {
    pub found: Option<(Move, i32)>,
    pub retried: bool,
    pub cut_short: bool,
}

/// The best move with its score of the last depth that was reported.
fn last_found(report: &SearchReport) -> (r: Option<(Move, i32)>)
    requires
        forall|i: int|
            0 <= i < report.infos@.len() ==> (#[trigger] report.infos@[i]).pv@.len() == 1,
    ensures
        r == if report.infos@.len() > 0 {
            Some((report.infos@.last().pv@[0], report.infos@.last().score))
        } else {
            None
        },
{
    let len: usize = report.infos.len();
    if len > 0 {
        Some((report.infos[len - 1].pv[0], report.infos[len - 1].score))
    } else {
        None
    }
}

/// Whether a flag is set, which another thread may do at any time.
pub fn flag_is_set(flag: &Arc<AtomicBool>) -> bool {
    flag.load(std::sync::atomic::Ordering::Relaxed)
}

/// What follows the first search of a probe.
#[derive(Clone, Copy, Debug, PartialEq, Eq, Structural)]
pub enum NextProbe {
    Done,
    Retry,
    Stop,
}

/// What follows the first search of a probe: nothing where it found a move,
/// nothing where the flag is set, else a second search.
pub fn next_probe(found: bool, cancelled: bool) -> (r: NextProbe)
    ensures
        r == if found {
            NextProbe::Done
        } else if cancelled {
            NextProbe::Stop
        } else {
            NextProbe::Retry
        },
{
    if found {
        NextProbe::Done
    } else if cancelled {
        NextProbe::Stop
    } else {
        NextProbe::Retry
    }
}

/// Searches a position with a limit of nodes, and once more to depth one where
/// the limit was too small for a single depth.
pub fn probe(
    engine: &mut Engine,
    board: &Position,
    history: Vec<u64>,
    nodes: u64,
    cancelled: &Arc<AtomicBool>,
) -> (r: Probe)
    requires
        old(engine).wf(),
        board.valid(),
    ensures
        final(engine).wf(),
        final(engine).same_parts(*old(engine)),
        !can_move(*board) ==> r.found is None && final(engine)@ == old(engine)@,
        r.found matches Some((mv, score)) ==> legal_moves_of(*board).contains(mv) && -MAX_SCORE
            <= score <= MAX_SCORE,
        !r.retried ==> r.found is Some || r.cut_short,
        can_move(*board) ==> {
            let at = root(*board, history@);
            if r.retried {
                two_searches(*old(engine), old(engine)@, at, as_found(r.found), final(engine)@)
            } else {
                some_search(*old(engine), old(engine)@, at, as_found(r.found), final(engine)@)
            }
        },
        r.found matches Some((mv, score)) ==> {
            let at = root(*board, history@);
            if r.retried {
                completes_one(*old(engine), at, (mv, score as int))
            } else {
                completes(
                    *old(engine),
                    old(engine)@,
                    at,
                    Some(nodes),
                    i32::MAX as int,
                    (mv, score as int),
                )
            }
        },
        !r.cut_short ==> {
            let p = probed(*old(engine), old(engine)@, root(*board, history@), nodes);
            &&& r.retried == p.retried
            &&& final(engine)@ == p.memory
            &&& match r.found {
                Some((mv, score)) => p.found == Some((mv, score as int)),
                None => p.found is None,
            }
        },
{
    let ghost at = root(*board, history@);
    let mut limits: SearchLimits = SearchLimits::default();
    limits.nodes = Some(nodes);
    let mut request = SearchRequest { board: *board, history, limits, stop: cancelled.clone() };
    assert(request.limits.searchmoves@ =~= Seq::<Move>::empty());
    let first: SearchReport = engine.search(&request);
    let ghost between = engine@;
    proof {
        if can_move(*board) {
            let depths = full_search(
                *old(engine),
                old(engine)@,
                at,
                Some(nodes),
                i32::MAX as int,
            ).1;
            lemma_last_reported(first.infos@, depths);
            let limit = followed_limit(Some(nodes), first.nodes, first.interrupted);
            let depth = followed_depth(None, first.depth, first.cut_short, first.interrupted);
            lemma_last_reported(
                first.infos@,
                full_search(*old(engine), old(engine)@, at, limit, depth).1,
            );
        }
    }
    let found: Option<(Move, i32)> = last_found(&first);
    assert(can_move(*board) ==> some_search(
        *old(engine),
        old(engine)@,
        at,
        as_found(found),
        between,
    ));
    let cancelled_now: bool = flag_is_set(cancelled);
    match next_probe(found.is_some(), cancelled_now) {
        NextProbe::Done => {
            return Probe { found, retried: false, cut_short: first.cut_short };
        },
        NextProbe::Stop => {
            return Probe { found: None, retried: false, cut_short: true };
        },
        NextProbe::Retry => {},
    }
    request.limits.nodes = None;
    request.limits.depth = Some(1);
    let second: SearchReport = engine.search(&request);
    proof {
        if can_move(*board) {
            let depths = full_search(*old(engine), between, at, None, 1).1;
            lemma_last_reported(second.infos@, depths);
            let limit = followed_limit(None, second.nodes, second.interrupted);
            let depth = followed_depth(Some(1), second.depth, second.cut_short, second.interrupted);
            lemma_last_reported(
                second.infos@,
                full_search(*old(engine), between, at, limit, depth).1,
            );
        }
    }
    let found: Option<(Move, i32)> = last_found(&second);
    assert(found matches Some((mv, score)) ==> completes(
        *old(engine),
        between,
        at,
        None,
        1,
        (mv, score as int),
    ));
    assert(can_move(*board) ==> some_search(
        *old(engine),
        between,
        at,
        as_found(found),
        engine@,
    ));
    Probe { found, retried: true, cut_short: first.cut_short || second.cut_short }
}

/// The last of some reports is of a depth that was completed, where the
/// reports are of the first of those.
proof fn lemma_last_reported(infos: Seq<SearchInfo>, depths: Seq<Completed>)
    requires
        reported(infos).is_prefix_of(depths),
    ensures
        infos.len() > 0 ==> 0 < infos.len() <= depths.len() && last_completed(
            depths.take(infos.len() as int),
        ) == Some((infos.last().pv@[0], infos.last().score as int)),
        infos.len() == depths.len() ==> last_completed(depths) == if infos.len() > 0 {
            Some((infos.last().pv@[0], infos.last().score as int))
        } else {
            None
        },
{
    if infos.len() > 0 {
        let n = infos.len() as int;
        assert(depths.take(n).last() == reported(infos)[n - 1]);
    }
}

} // verus!
