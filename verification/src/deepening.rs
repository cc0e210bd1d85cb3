//! The search from the root, one depth after another.

use crate::chess::{Move, Position};
use crate::engine::{all_ready, lemma_stored_score, ready, Engine};
use crate::history::zeros;
use crate::limits::{
    budget_of, larger, out_of_nodes, reaches, SearchContext, SearchInfo, SearchRequest,
    SearchResult,
};
use crate::minimax::{place_of, state_of};
use crate::model::{
    advanced, continued, fresh_run, generated, generated_moves_are_the_legal_moves, improved,
    lemma_filtered, lemma_in_moves, limited, scored, searched_move, table_move, Memory, NodeType,
    Place, Run, Setting, State, Task, Tried, INFINITE, MAX_SCORE,
};
use crate::moves::EngineMove;
use crate::nnue::NnueState;
use crate::picker::{
    available, lemma_picked, new_picker_has_every_move, pick, picked_move_was_available, picker_of,
    MoveList, MovePicker, Moves, Picker, Stage,
};
use crate::progress::lines_are_bounded;
use crate::rules::{can_move, is_legal, legal_moves_of};
use crate::search::{lemma_pick_ready, lemma_picker_ready, picker_ready, score_ok, SearchBounds};
use crate::transposition::{stored, TTNodeType, TableEntry};
use vstd::multiset::Multiset;
use vstd::prelude::*;
use vstd::seq_lib::to_multiset_contains;

verus! {

/// What a search from the root comes to: the best move with its score.
pub struct RootOutcome {
    pub state: State,
    pub found: Option<(Move, int)>,
}

/// What is asked of a move at the root.
pub open spec fn root_task(depth: int, run: Run, beta: int) -> Task {
    Task {
        depth: depth - 1,
        expected: NodeType::PV,
        null_position: false,
        alpha: run.alpha,
        beta,
    }
}

/// The moves of the root, tried in turn until one is too good.
pub open spec fn root_tried(
    st: Setting,
    s: State,
    at: Place,
    depth: int,
    beta: int,
    run: Run,
) -> Tried
    decreases run.picker.left(),
        when run.picker.wf()
{
    proof {
        lemma_picked(run.picker);
    }
    let (q, picked) = pick(run.picker);
    match picked {
        None => Tried { state: s, best: Some((run.result, run.best)) },
        Some(mv) => {
            let o = searched_move(st, s, at, root_task(depth, run, beta), mv, true, run.first);
            let now = advanced(s, o.state);
            match o.score {
                None => Tried { state: now, best: None },
                Some(x) => if x >= beta {
                    Tried { state: now, best: Some((larger(run.result, x), improved(run, mv, x))) }
                } else {
                    root_tried(st, now, at, depth, beta, continued(run, q, mv, x))
                },
            }
        },
    }
}

/// The search of the root to a depth between two bounds.
pub open spec fn root_searched(
    st: Setting,
    s: State,
    at: Place,
    depth: int,
    moves: Moves,
    alpha: int,
    beta: int,
) -> RootOutcome {
    let tried = root_tried(st, s, at, depth, beta, fresh_run(moves, alpha));
    RootOutcome {
        state: tried.state,
        found: match tried.best {
            Some((score, Some(mv))) => Some((mv.mv, score)),
            _ => None,
        },
    }
}

/// A window wider than the scores are apart is not widened.
pub const WIDEST: i32 = 250_000_000;

/// The bounds with which a depth is searched: close to the last score, once
/// there is one worth it.
pub open spec fn window(depth: int, previous: int, below: int, above: int) -> (int, int) {
    if depth <= 4 {
        (-INFINITE as int, INFINITE as int)
    } else {
        (previous - below, previous + above)
    }
}

/// The search of the root to a depth, with a window that is widened where the
/// score falls out of it.
pub open spec fn aspirated(
    st: Setting,
    s: State,
    at: Place,
    depth: int,
    moves: Moves,
    previous: int,
    below: int,
    above: int,
) -> RootOutcome
    decreases larger(0, 4 * WIDEST - below) + larger(0, 4 * WIDEST - above),
        when below > 0 && above > 0
{
    let (alpha, beta) = window(depth, previous, below, above);
    let o = root_searched(st, s, at, depth, moves, alpha, beta);
    match o.found {
        None => o,
        Some((mv, score)) => if score <= alpha && below <= WIDEST {
            aspirated(st, o.state, at, depth, moves, previous, below * 2, above)
        } else if score > alpha && score >= beta && above <= WIDEST {
            aspirated(st, o.state, at, depth, moves, previous, below, above * 2)
        } else {
            o
        },
    }
}

/// The moves of a list that are among those that may be searched.
pub open spec fn permitted(moves: Moves, searchmoves: Seq<Move>) -> Moves {
    if searchmoves.len() == 0 {
        moves
    } else {
        Moves {
            good: moves.good.filter(|mv: EngineMove| searchmoves.contains(mv.mv)),
            bad: moves.bad.filter(|mv: EngineMove| searchmoves.contains(mv.mv)),
            quiets: moves.quiets.filter(|mv: EngineMove| searchmoves.contains(mv.mv)),
        }
    }
}

/// What the table keeps of a depth that was completed at the root.
pub open spec fn root_entry(board: Position, depth: int, mv: Move, score: int) -> TableEntry {
    TableEntry {
        key: board.hash,
        score: score as i32,
        depth: depth as i32,
        node_type: TTNodeType::EXACT,
        best_move: Some(mv),
    }
}

/// One depth at the root: the best move of the last depth comes first, and
/// what is found goes into the table unless only some moves were searched.
pub open spec fn deepened(
    st: Setting,
    s: State,
    at: Place,
    depth: int,
    searchmoves: Seq<Move>,
    completed: Option<Move>,
    previous: int,
) -> RootOutcome {
    let moves = permitted(generated(s.memory, at.board, completed), searchmoves);
    let o = aspirated(st, s, at, depth, moves, previous, 20, 20);
    match o.found {
        Some((mv, score)) if searchmoves.len() == 0 => RootOutcome {
            state: State {
                memory: Memory {
                    tt: stored(
                        o.state.memory.tt,
                        at.board.hash,
                        root_entry(at.board, depth, mv, score),
                    ),
                    ..o.state.memory
                },
                ..o.state
            },
            ..o
        },
        _ => o,
    }
}

/// Whether a search from the root stopped: without moves it comes to nothing
/// either, but visits no node.
pub open spec fn has_stopped(
    r: Option<(Move, i32)>,
    before: SearchContext,
    after: SearchContext,
) -> bool {
    r is None && after.nodes > before.nodes
}

/// Whether a result is what a search from the root found.
pub open spec fn found_is(r: Option<(Move, i32)>, found: Option<(Move, int)>) -> bool {
    match (r, found) {
        (Some((a, x)), Some((b, y))) => a == b && x == y,
        (None, None) => true,
        _ => false,
    }
}

fn contains_move(moves: &Vec<Move>, mv: Move) -> (r: bool)
    ensures
        r == moves@.contains(mv),
{
    let mut i: usize = 0;
    while i < moves.len()
        invariant
            i <= moves@.len(),
            forall|j: int| 0 <= j < i ==> moves@[j] != mv,
        decreases moves@.len() - i,
    {
        if moves[i] == mv {
            return true;
        }
        i = i + 1;
    }
    false
}

/// The moves that are among those that may be searched.
fn retained(moves: &Vec<EngineMove>, searchmoves: &Vec<Move>) -> (r: Vec<EngineMove>)
    ensures
        r@ == moves@.filter(|mv: EngineMove| searchmoves@.contains(mv.mv)),
        r@.len() <= moves@.len(),
        forall|i: int| 0 <= i < r@.len() ==> moves@.contains(#[trigger] r@[i]),
{
    let ghost f = |mv: EngineMove| searchmoves@.contains(mv.mv);
    let mut kept: Vec<EngineMove> = Vec::new();
    let mut i: usize = 0;
    proof {
        reveal(Seq::filter);
    }
    while i < moves.len()
        invariant
            i <= moves@.len(),
            f == (|mv: EngineMove| searchmoves@.contains(mv.mv)),
            kept@ == moves@.take(i as int).filter(f),
            kept@.len() <= i,
            forall|k: int| 0 <= k < kept@.len() ==> moves@.contains(#[trigger] kept@[k]),
        decreases moves@.len() - i,
    {
        let mv: EngineMove = moves[i];
        proof {
            let before = moves@.take(i as int);
            assert(moves@.take(i + 1) =~= before.push(mv));
            assert(before.push(mv).drop_last() =~= before);
            reveal(Seq::filter);
            assert(moves@.contains(mv));
        }
        if contains_move(searchmoves, mv.mv) {
            kept.push(mv);
        }
        i = i + 1;
    }
    assert(moves@.take(i as int) =~= moves@);
    kept
}

/// Whether a picker gives only moves of a list.
#[verifier::opaque]
pub open spec fn gives_only(moves: Seq<EngineMove>, p: Picker) -> bool {
    forall|mv: EngineMove| #[trigger] available(p).count(mv) > 0 ==> moves.contains(mv)
}

proof fn lemma_new_picker_gives(moves: Moves)
    ensures
        gives_only(moves.all(), picker_of(moves)),
{
    reveal(gives_only);
    new_picker_has_every_move(moves);
    assert forall|mv: EngineMove| #[trigger]
        available(picker_of(moves)).count(mv) > 0 implies moves.all().contains(mv) by {
        to_multiset_contains(moves.all(), mv);
    }
}

proof fn lemma_picker_gives(moves: Seq<EngineMove>, p: Picker)
    requires
        p.wf(),
        gives_only(moves, p),
    ensures
        gives_only(moves, pick(p).0),
        pick(p).1 matches Some(mv) ==> moves.contains(mv),
{
    broadcast use vstd::multiset::group_multiset_axioms;

    reveal(gives_only);
    picked_move_was_available(p);
    if let Some(mv) = pick(p).1 {
        assert(available(p).count(mv) > 0);
        assert forall|other: EngineMove| #[trigger]
            available(pick(p).0).count(other) > 0 implies moves.contains(other) by {
            assert(available(p).count(other) > 0);
        }
    } else {
        lemma_no_more(p);
    }
}

proof fn lemma_no_more(p: Picker)
    requires
        p.wf(),
        pick(p).1 is None,
    ensures
        available(pick(p).0) == Multiset::<EngineMove>::empty(),
{
    assert(pick(p).0.stage == Stage::Done);
}

/// Whether a move may be searched at the root.
pub open spec fn may_search(searchmoves: Seq<Move>, mv: Move) -> bool {
    searchmoves.len() == 0 || searchmoves.contains(mv)
}

/// Whether a position has a legal move that may be searched.
pub open spec fn has_permitted(board: Position, searchmoves: Seq<Move>) -> bool {
    exists|mv: Move| #[trigger]
        legal_moves_of(board).contains(mv) && may_search(searchmoves, mv)
}

/// Where a legal move may be searched, one is permitted.
proof fn lemma_has_permitted(
    m: Memory,
    board: Position,
    searchmoves: Seq<Move>,
    completed: Option<Move>,
)
    ensures
        has_permitted(board, searchmoves) <==> permitted(
            generated(m, board, completed),
            searchmoves,
        ).all().len() > 0,
{
    let all = permitted(generated(m, board, completed), searchmoves).all();
    if all.len() > 0 {
        let e = all[0];
        let moves = generated(m, board, completed);
        assert(all.contains(e));
        lemma_permitted(moves, searchmoves, e);
        lemma_in_moves(permitted(moves, searchmoves), e);
        if searchmoves.len() > 0 {
            let f = |x: EngineMove| searchmoves.contains(x.mv);
            lemma_filtered(moves.good, f, e);
            lemma_filtered(moves.quiets, f, e);
            lemma_filtered(moves.bad, f, e);
        }
        lemma_in_moves(moves, e);
        generated_moves_are_the_legal_moves(m, board, completed, e);
        assert(legal_moves_of(board).contains(e.mv) && may_search(searchmoves, e.mv));
    }
    if has_permitted(board, searchmoves) {
        let mv = choose|mv: Move| #[trigger]
            legal_moves_of(board).contains(mv) && may_search(searchmoves, mv);
        let e = scored(m, board, completed, mv);
        let moves = generated(m, board, completed);
        generated_moves_are_the_legal_moves(m, board, completed, e);
        lemma_in_moves(moves, e);
        if searchmoves.len() > 0 {
            let f = |x: EngineMove| searchmoves.contains(x.mv);
            lemma_filtered(moves.good, f, e);
            lemma_filtered(moves.quiets, f, e);
            lemma_filtered(moves.bad, f, e);
            lemma_in_moves(permitted(moves, searchmoves), e);
        }
        assert(permitted(moves, searchmoves).all().contains(e));
    }
}

/// The moves of a list that are permitted may be searched.
proof fn lemma_permitted(moves: Moves, searchmoves: Seq<Move>, mv: EngineMove)
    requires
        permitted(moves, searchmoves).all().contains(mv),
    ensures
        may_search(searchmoves, mv.mv),
{
    if searchmoves.len() > 0 {
        let f = |e: EngineMove| searchmoves.contains(e.mv);
        lemma_in_moves(permitted(moves, searchmoves), mv);
        lemma_filtered(moves.good, f, mv);
        lemma_filtered(moves.quiets, f, mv);
        lemma_filtered(moves.bad, f, mv);
    }
}

impl Engine {
    /// Searches the root to a depth between two bounds.
    #[verifier::rlimit(40)]
    pub fn root_search(
        &mut self,
        board: &Position,
        depth: i32,
        root_moves: &MoveList,
        bounds: SearchBounds,
        context: &mut SearchContext,
    ) -> (r: Option<(Move, i32)>)
        requires
            old(self).wf(),
            board.valid(),
            old(self).nnue.represents(old(self).net(), *board),
            all_ready(*board, root_moves@),
            depth > i32::MIN,
            bounds.wf(0),
            old(context).nodes < u64::MAX,
        ensures
            final(self).wf(),
            final(self).same_parts(*old(self)),
            final(self).nnue == old(self).nnue,
            old(context).same_search(*final(context)),
            final(context).history@ == old(context).history@,
            final(self).move_stack@ == old(self).move_stack@,
            r is Some ==> final(context).interrupted == old(context).interrupted
                && final(context).nodes < u64::MAX,
            r matches Some((mv, score)) ==> legal_moves_of(*board).contains(mv) && score_ok(
                score as int,
                0,
            ),
            r matches Some((mv, score)) ==> exists|e: EngineMove| #[trigger]
                root_moves@.all().contains(e) && e.mv == mv,
            r is None && root_moves@.all().len() == 0 ==> final(context).nodes == old(
                context,
            ).nodes && final(context).interrupted == old(context).interrupted,
            r is None && root_moves@.all().len() > 0 ==> final(context).nodes > old(context).nodes,
            r is Some || !final(context).interrupted || out_of_nodes(
                old(context).node_limit,
                final(context).nodes as int,
            ) ==> reaches(
                old(context).node_limit,
                old(context).nodes as int,
                final(context).nodes as int,
                has_stopped(r, *old(context), *final(context)),
            ),
            forall|limit: Option<u64>|
                #![trigger limited(old(self).base(), limit)]
                reaches(
                    limit,
                    old(context).nodes as int,
                    final(context).nodes as int,
                    has_stopped(r, *old(context), *final(context)),
                ) ==> {
                    let o = root_searched(
                        limited(old(self).base(), limit),
                        state_of(*old(self), *old(context)),
                        place_of(*old(self), *old(context), *board, 0),
                        depth as int,
                        root_moves@,
                        bounds.alpha as int,
                        bounds.beta as int,
                    );
                    found_is(r, o.found) && state_of(*final(self), *final(context)) == o.state
                },
    {
        let ghost st = self.base();
        let ghost at = place_of(*self, *context, *board, 0);
        let ghost s = state_of(*self, *context);
        let ghost run_start = fresh_run(root_moves@, bounds.alpha as int);
        proof {
            lemma_picker_ready(*board, root_moves@);
            lemma_new_picker_gives(root_moves@);
        }
        let mut picker: MovePicker = MovePicker::new(root_moves.copy());
        let mut best_move: Option<EngineMove> = None;
        let mut best_score: i32 = -INFINITE;
        let mut alpha: i32 = bounds.alpha;
        let beta: i32 = bounds.beta;
        let mut first_move: bool = true;
        let ghost mut count: int = 0;
        loop
            invariant_except_break
                forall|limit: Option<u64>|
                    #![trigger limited(st, limit)]
                    reaches(limit, s.nodes, context.nodes as int, false) ==> root_tried(
                        limited(st, limit),
                        s,
                        at,
                        depth as int,
                        beta as int,
                        run_start,
                    ) == root_tried(
                        limited(st, limit),
                        state_of(*self, *context),
                        at,
                        depth as int,
                        beta as int,
                        (Run {
                            picker: picker@,
                            count,
                            first: first_move,
                            alpha: alpha as int,
                            result: best_score as int,
                            best: best_move,
                        }),
                    ),
                best_move is Some ==> score_ok(best_score as int, 0),
                best_move is None ==> best_score == -INFINITE,
                best_move is None ==> picker@.left() == root_moves@.all().len(),
                root_moves@.all().len() == 0 ==> picker@.left() == 0 && context.nodes == old(
                    context,
                ).nodes,
            invariant
                st == old(self).base(),
                s == state_of(*old(self), *old(context)),
                run_start == fresh_run(root_moves@, bounds.alpha as int),
                at == place_of(*old(self), *old(context), *board, 0),
                at == place_of(*self, *context, *board, 0),
                self.wf(),
                self.same_parts(*old(self)),
                self.nnue == old(self).nnue,
                st == self.base(),
                self.nnue.represents(self.net(), *board),
                board.valid(),
                depth > i32::MIN,
                beta == bounds.beta,
                (SearchBounds { alpha, beta }).wf(0),
                old(context).same_search(*context),
                context.interrupted == old(context).interrupted,
                context.nodes < u64::MAX,
                reaches(
                    context.node_limit,
                    old(context).nodes as int,
                    context.nodes as int,
                    false,
                ),
                picker@.wf(),
                picker_ready(*board, picker@),
                gives_only(root_moves@.all(), picker@),
                best_move matches Some(mv) ==> ready(*board, mv) && root_moves@.all().contains(mv),
            ensures
                best_move is Some ==> score_ok(best_score as int, 0),
                best_move is None ==> root_moves@.all().len() == 0,
                root_moves@.all().len() == 0 ==> context.nodes == old(context).nodes,
                forall|limit: Option<u64>|
                    #![trigger limited(st, limit)]
                    reaches(limit, s.nodes, context.nodes as int, false) ==> root_tried(
                        limited(st, limit),
                        s,
                        at,
                        depth as int,
                        beta as int,
                        run_start,
                    ) == (Tried {
                        state: state_of(*self, *context),
                        best: Some((best_score as int, best_move)),
                    }),
            decreases picker@.left(),
        {
            let ghost before = state_of(*self, *context);
            proof {
                lemma_pick_ready(*board, picker@);
                lemma_picker_gives(root_moves@.all(), picker@);
            }
            let mv: EngineMove = match picker.next() {
                Some(mv) => mv,
                None => {
                    break;
                },
            };
            proof {
                lines_are_bounded(*board);
            }
            let searched: Option<i32> = self.search_move(
                board,
                mv,
                depth - 1,
                1,
                NodeType::PV,
                SearchBounds { alpha, beta },
                true,
                first_move,
                context,
            );
            assert(advanced(before, state_of(*self, *context)) == state_of(*self, *context));
            let score: i32 = match searched {
                Some(score) => score,
                None => {
                    return None;
                },
            };
            if score > best_score {
                best_score = score;
                if score > alpha {
                    alpha = score;
                }
                best_move = Some(mv);
            }
            if score >= beta {
                break;
            }
            first_move = false;
            proof {
                count = count + 1;
            }
        }
        match best_move {
            Some(mv) => Some((mv.mv, best_score)),
            None => None,
        }
    }
}

impl Engine {
    /// Searches one depth at the root.
    #[verifier::rlimit(40)]
    pub fn deepen(
        &mut self,
        board: &Position,
        depth: i32,
        searchmoves: &Vec<Move>,
        completed: Option<Move>,
        previous: i32,
        context: &mut SearchContext,
    ) -> (r: Option<(Move, i32)>)
        requires
            old(self).wf(),
            board.valid(),
            old(self).nnue.represents(old(self).net(), *board),
            depth > i32::MIN,
            -MAX_SCORE <= previous <= MAX_SCORE,
            old(context).nodes < u64::MAX,
        ensures
            final(self).wf(),
            final(self).same_parts(*old(self)),
            final(self).nnue == old(self).nnue,
            old(context).same_search(*final(context)),
            final(context).history@ == old(context).history@,
            final(self).move_stack@ == old(self).move_stack@,
            r is Some ==> final(context).interrupted == old(context).interrupted
                && final(context).nodes < u64::MAX,
            r matches Some((mv, score)) ==> legal_moves_of(*board).contains(mv) && -MAX_SCORE
                <= score <= MAX_SCORE && may_search(searchmoves@, mv),
            r is None && has_permitted(*board, searchmoves@) ==> final(context).nodes > old(
                context,
            ).nodes,
            r is None && !has_permitted(*board, searchmoves@) ==> final(context).nodes == old(
                context,
            ).nodes && final(context).interrupted == old(context).interrupted,
            r is Some || !final(context).interrupted || out_of_nodes(
                old(context).node_limit,
                final(context).nodes as int,
            ) ==> reaches(
                old(context).node_limit,
                old(context).nodes as int,
                final(context).nodes as int,
                has_stopped(r, *old(context), *final(context)),
            ),
            forall|limit: Option<u64>|
                #![trigger limited(old(self).base(), limit)]
                reaches(
                    limit,
                    old(context).nodes as int,
                    final(context).nodes as int,
                    has_stopped(r, *old(context), *final(context)),
                ) ==> {
                    let o = deepened(
                        limited(old(self).base(), limit),
                        state_of(*old(self), *old(context)),
                        place_of(*old(self), *old(context), *board, 0),
                        depth as int,
                        searchmoves@,
                        completed,
                        previous as int,
                    );
                    found_is(r, o.found) && state_of(*final(self), *final(context)) == o.state
                },
    {
        let ghost st = self.base();
        let ghost s = state_of(*self, *context);
        let ghost at = place_of(*self, *context, *board, 0);
        let generated_moves: MoveList = self.generate_moves(board, completed);
        let root_moves: MoveList = if searchmoves.len() == 0 {
            generated_moves
        } else {
            MoveList {
                good_captures: retained(&generated_moves.good_captures, searchmoves),
                bad_captures: retained(&generated_moves.bad_captures, searchmoves),
                quiets: retained(&generated_moves.quiets, searchmoves),
            }
        };
        let ghost moves = root_moves@;
        assert(moves == permitted(generated(self@, *board, completed), searchmoves@));
        proof {
            lemma_has_permitted(self@, *board, searchmoves@, completed);
        }
        let mut below: i32 = 20;
        let mut above: i32 = 20;
        loop
            invariant
                st == old(self).base(),
                at == place_of(*old(self), *old(context), *board, 0),
                at == place_of(*self, *context, *board, 0),
                moves == root_moves@,
                moves == permitted(generated(old(self)@, *board, completed), searchmoves@),
                s == state_of(*old(self), *old(context)),
                forall|limit: Option<u64>|
                    #![trigger limited(st, limit)]
                    reaches(limit, s.nodes, context.nodes as int, false) ==> aspirated(
                        limited(st, limit),
                        s,
                        at,
                        depth as int,
                        moves,
                        previous as int,
                        20,
                        20,
                    ) == aspirated(
                        limited(st, limit),
                        state_of(*self, *context),
                        at,
                        depth as int,
                        moves,
                        previous as int,
                        below as int,
                        above as int,
                    ),
                self.wf(),
                self.same_parts(*old(self)),
                self.nnue == old(self).nnue,
                st == self.base(),
                self.nnue.represents(self.net(), *board),
                board.valid(),
                all_ready(*board, root_moves@),
                has_permitted(*board, searchmoves@) <==> root_moves@.all().len() > 0,
                root_moves@.all().len() == 0 ==> context.nodes == old(context).nodes,
                reaches(
                    context.node_limit,
                    old(context).nodes as int,
                    context.nodes as int,
                    false,
                ),
                depth > i32::MIN,
                -MAX_SCORE <= previous <= MAX_SCORE,
                0 < below <= 2 * WIDEST,
                0 < above <= 2 * WIDEST,
                old(context).same_search(*context),
                context.interrupted == old(context).interrupted,
                context.nodes < u64::MAX,
            decreases 4 * WIDEST - below + 4 * WIDEST - above,
        {
            let bounds: SearchBounds = if depth <= 4 {
                SearchBounds { alpha: -INFINITE, beta: INFINITE }
            } else {
                SearchBounds { alpha: previous - below, beta: previous + above }
            };
            match self.root_search(board, depth, &root_moves, bounds, context) {
                None => {
                    return None;
                },
                Some((best_move, score)) => {
                    if score <= bounds.alpha {
                        below = below * 2;
                    } else if score >= bounds.beta {
                        above = above * 2;
                    } else {
                        proof {
                            let e = choose|e: EngineMove| #[trigger]
                                root_moves@.all().contains(e) && e.mv == best_move;
                            lemma_permitted(
                                generated(old(self)@, *board, completed),
                                searchmoves@,
                                e,
                            );
                        }
                        if searchmoves.len() == 0 {
                            let entry = TableEntry {
                                key: board.hash,
                                score,
                                depth,
                                node_type: TTNodeType::EXACT,
                                best_move: Some(best_move),
                            };
                            proof {
                                lemma_stored_score(self.tt@, board.hash, entry);
                            }
                            self.tt.insert(board.hash, entry);
                        }
                        return Some((best_move, score));
                    }
                },
            }
        }
    }
}

/// A depth that was completed: the best move, its score, and the count of
/// nodes after it.
pub struct Completed {
    pub depth: int,
    pub mv: Move,
    pub score: int,
    pub nodes: int,
}

/// The depths that a search completes, from one on, when nothing from outside
/// cuts it short; and its state after them.
pub open spec fn completed_depths(
    st: Setting,
    s: State,
    at: Place,
    depth: int,
    max_depth: int,
    searchmoves: Seq<Move>,
    completed: Option<Move>,
    previous: int,
) -> (State, Seq<Completed>)
    decreases max_depth + 1 - depth,
{
    let here = State { nodes: s.nodes + 1, ..s };
    if depth > max_depth {
        (s, Seq::empty())
    } else if out_of_nodes(st.node_limit, here.nodes) {
        (here, Seq::empty())
    } else {
        let o = deepened(st, here, at, depth, searchmoves, completed, previous);
        match o.found {
            None => completed_depths(
                st,
                o.state,
                at,
                depth + 1,
                max_depth,
                searchmoves,
                completed,
                previous,
            ),
            Some((mv, score)) => {
                let (end, rest) = completed_depths(
                    st,
                    o.state,
                    at,
                    depth + 1,
                    max_depth,
                    searchmoves,
                    Some(mv),
                    score,
                );
                (end, seq![Completed { depth, mv, score, nodes: o.state.nodes }] + rest)
            },
        }
    }
}

/// What reports say of the depths that were completed.
pub open spec fn reported(infos: Seq<SearchInfo>) -> Seq<Completed> {
    infos.map_values(
        |info: SearchInfo|
            Completed {
                depth: info.depth as int,
                mv: info.pv@[0],
                score: info.score as int,
                nodes: info.nodes as int,
            },
    )
}

/// What a search has found: the best move and each depth that it completed; how
/// many nodes it visited and which depth was its last; and whether something
/// from outside cut it short, the flag or the clock, and interrupted a depth.
pub struct SearchReport {
    pub result: SearchResult,
    pub infos: Vec<SearchInfo>,
    pub nodes: u64,
    pub depth: i32,
    pub cut_short: bool,
    pub interrupted: bool,
}

/// The limit of nodes with which a search would have gone as it did by itself:
/// its own, or the node at which it was interrupted.
pub open spec fn followed_limit(limit: Option<u64>, nodes: u64, interrupted: bool) -> Option<u64> {
    if interrupted && !out_of_nodes(limit, nodes as int) {
        Some(nodes)
    } else {
        limit
    }
}

/// The depth to which a search would have gone as it did by itself: the one
/// after which the clock has ended it, or else its own.
pub open spec fn followed_depth(
    limit: Option<i32>,
    depth: i32,
    cut_short: bool,
    interrupted: bool,
) -> int {
    if cut_short && !interrupted {
        depth as int
    } else {
        deepest(limit)
    }
}

/// What a search has come to that had completed some depths before.
pub open spec fn preceded(before: Seq<Completed>, later: (State, Seq<Completed>)) -> (
    State,
    Seq<Completed>,
) {
    (later.0, before + later.1)
}

/// A search that goes deeper and deeper: the depth that comes next, the best
/// move of the last depth that was completed with its score, the move that is
/// tried first until there is one, and what is played if there is none.
pub struct Deepening {
    pub context: SearchContext,
    pub depth: i32,
    pub max_depth: i32,
    pub completed: Option<Move>,
    pub hint: Option<Move>,
    pub fallback: Move,
    pub previous_score: i32,
    pub done: bool,
    pub cut_short: bool,
}

/// Whether reports are of the first depths, one after the other.
pub open spec fn every_depth(infos: Seq<SearchInfo>) -> bool {
    forall|i: int| 0 <= i < infos.len() ==> (#[trigger] infos[i]).depth == i + 1
}

/// The depth to which a search goes.
pub open spec fn deepest(limit: Option<i32>) -> int {
    match limit {
        Some(depth) => larger(depth as int, 1),
        None => i32::MAX as int,
    }
}

/// The tables at the start of a search: the histories of quiet moves and of
/// captures are those of one search.
pub open spec fn refreshed(m: Memory) -> Memory {
    Memory { quiet: zeros(8192), capture: zeros(4608), ..m }
}

impl Deepening {
    /// A search of a position that an engine can go on with.
    pub open spec fn wf(self, engine: Engine, board: Position) -> bool {
        &&& engine.wf()
        &&& board.valid()
        &&& engine.nnue.represents(engine.net(), board)
        &&& 1 <= self.depth <= self.max_depth
        &&& -MAX_SCORE <= self.previous_score <= MAX_SCORE
        &&& legal_moves_of(board).contains(self.fallback)
        &&& self.completed matches Some(mv) ==> legal_moves_of(board).contains(mv)
        &&& self.context.interrupted || self.cut_short ==> self.done
    }

    /// The move that the next depth tries first.
    pub open spec fn leading(self) -> Option<Move> {
        match self.completed {
            Some(mv) => Some(mv),
            None => self.hint,
        }
    }

    /// Ends the search before a depth that is not to be searched.
    pub fn finish(&mut self)
        ensures
            *final(self) == (Deepening {
                done: true,
                cut_short: old(self).cut_short || old(self).context.interrupted,
                ..*old(self)
            }),
    {
        self.done = true;
        self.cut_short = self.cut_short || self.context.interrupted;
    }

    /// Takes in what the search of a depth came to: what it found, whether it
    /// was interrupted, whether the soft deadline is reached, and how long the
    /// search has run. A depth that was interrupted is discarded and ends the
    /// search; so do the last depth and the deadline.
    pub fn conclude_depth(
        &mut self,
        found: Option<(Move, i32)>,
        interrupted: bool,
        expired: bool,
        elapsed: u64,
    ) -> (r: Option<SearchInfo>)
        requires
            old(self).depth <= old(self).max_depth,
        ensures
            final(self).context == old(self).context,
            final(self).max_depth == old(self).max_depth,
            final(self).hint == old(self).hint,
            final(self).fallback == old(self).fallback,
            final(self).done == (old(self).depth == old(self).max_depth || interrupted || expired),
            final(self).cut_short == (old(self).cut_short || interrupted || (expired && old(
                self,
            ).depth < old(self).max_depth)),
            final(self).depth == old(self).depth + if final(self).done {
                0int
            } else {
                1int
            },
            match (found, interrupted) {
                (Some((mv, score)), false) => {
                    &&& final(self).completed == Some(mv)
                    &&& final(self).previous_score == score
                    &&& r matches Some(info) && info.depth == old(self).depth && info.score
                        == score && info.nodes == old(self).context.nodes && info.elapsed == elapsed
                        && info.pv@ == seq![mv]
                },
                _ => {
                    &&& final(self).completed == old(self).completed
                    &&& final(self).previous_score == old(self).previous_score
                    &&& r is None
                },
            },
    {
        let mut info: Option<SearchInfo> = None;
        if let Some((best_move, score)) = found {
            if !interrupted {
                self.previous_score = score;
                self.completed = Some(best_move);
                info = Some(
                    SearchInfo {
                        depth: self.depth,
                        score,
                        nodes: self.context.nodes,
                        elapsed,
                        pv: vec![best_move],
                    },
                );
            }
        }
        if interrupted || (expired && self.depth < self.max_depth) {
            self.cut_short = true;
        }
        if self.depth == self.max_depth || interrupted || expired {
            self.done = true;
        } else {
            self.done = false;
            self.depth = self.depth + 1;
        }
        info
    }

    /// The move that the search has found so far.
    pub fn result(&self) -> (r: SearchResult)
        ensures
            r.best_move == Some(
                match self.completed {
                    Some(mv) => mv,
                    None => self.fallback,
                },
            ),
    {
        SearchResult {
            best_move: Some(
                match self.completed {
                    Some(mv) => mv,
                    None => self.fallback,
                },
            ),
        }
    }
}

impl Engine {
    /// Starts a search, unless the position has no legal moves.
    pub fn begin(&mut self, request: &SearchRequest) -> (r: Option<Deepening>)
        requires
            old(self).wf(),
            request.board.valid(),
        ensures
            final(self).wf(),
            final(self).same_parts(*old(self)),
            r is None <==> !can_move(request.board),
            r is None ==> final(self)@ == old(self)@,
            r matches Some(d) ==> {
                let tt_move = table_move(old(self)@, request.board);
                &&& d.wf(*final(self), request.board)
                &&& final(self)@ == refreshed(old(self)@)
                &&& final(self).move_stack@.len() == 0
                &&& d.context.node_limit == request.limits.nodes
                &&& d.context.stop == request.stop
                &&& d.context.keeps(budget_of(request.board.side_to_move, request.limits))
                &&& d.context.history@ == request.history@
                &&& d.context.nodes == 0
                &&& !d.context.interrupted
                &&& d.depth == 1
                &&& d.max_depth == deepest(request.limits.depth)
                &&& d.completed is None
                &&& d.hint == tt_move
                &&& d.fallback == generated(old(self)@, request.board, tt_move).all()[0].mv
                &&& d.previous_score == 0
                &&& !d.done
                &&& !d.cut_short
            },
    {
        let board: &Position = &request.board;
        let mut tt_move: Option<Move> = None;
        if let Some(entry) = self.tt.get(board.hash) {
            if let Some(mv) = entry.best_move {
                if is_legal(board, mv) {
                    tt_move = Some(mv);
                }
            }
        }
        let root_moves: MoveList = self.generate_moves(board, tt_move);
        if root_moves.is_empty() {
            return None;
        }
        let fallback: Move = root_moves.get(0).mv;
        proof {
            let all = root_moves@.all();
            assert(ready(*board, all[0])) by {
                if root_moves@.good.len() > 0 {
                    assert(all[0] == root_moves@.good[0]);
                } else if root_moves@.quiets.len() > 0 {
                    assert(all[0] == root_moves@.quiets[0]);
                } else {
                    assert(all[0] == root_moves@.bad[0]);
                }
            }
        }
        let max_depth: i32 = match request.limits.depth {
            Some(depth) => if depth > 1 {
                depth
            } else {
                1
            },
            None => i32::MAX,
        };
        let context: SearchContext = SearchContext::new(
            board,
            request.history.clone(),
            &request.limits,
            request.stop.clone(),
        );
        self.move_stack.clear();
        self.quiet_history.clear();
        self.capture_history.clear();
        self.nnue = NnueState::from_board(&self.network, board);
        Some(
            Deepening {
                context,
                depth: 1,
                max_depth,
                completed: None,
                hint: tt_move,
                fallback,
                previous_score: 0,
                done: false,
                cut_short: false,
            },
        )
    }

    /// Searches the next depth, and reports it if it is completed. A depth
    /// that is interrupted is discarded, and ends the search.
    pub fn step(&mut self, request: &SearchRequest, d: &mut Deepening) -> (r: Option<SearchInfo>)
        requires
            old(d).wf(*old(self), request.board),
            !old(d).done,
        ensures
            final(d).wf(*final(self), request.board),
            final(self).same_parts(*old(self)),
            old(d).context.same_search(final(d).context),
            final(d).context.history@ == old(d).context.history@,
            final(d).max_depth == old(d).max_depth,
            final(d).fallback == old(d).fallback,
            final(d).hint == old(d).hint,
            final(d).depth == old(d).depth + if final(d).done {
                0int
            } else {
                1int
            },
            final(self).move_stack@ == old(self).move_stack@,
            exists|elapsed: u64|
                {
                    let expired = #[trigger] old(d).context.starts_no_depth(elapsed);
                    let interrupted = final(d).context.interrupted;
                    let out = out_of_nodes(old(d).context.node_limit, old(d).context.nodes + 1);
                    let last = old(d).depth == old(d).max_depth;
                    &&& final(d).done == (last || interrupted || out || expired)
                    &&& final(d).cut_short == (interrupted || (expired && !last && !out))
                },
            match r {
                Some(info) => {
                    &&& !final(d).context.interrupted
                    &&& info.depth == old(d).depth
                    &&& info.nodes == final(d).context.nodes
                    &&& info.pv@.len() == 1
                    &&& may_search(request.limits.searchmoves@, info.pv@[0])
                    &&& final(d).completed == Some(info.pv@[0])
                    &&& final(d).previous_score == info.score
                },
                None => final(d).completed == old(d).completed && final(d).previous_score == old(
                    d,
                ).previous_score,
            },
            r is None && !final(d).context.interrupted && has_permitted(
                request.board,
                request.limits.searchmoves@,
            ) ==> out_of_nodes(old(d).context.node_limit, final(d).context.nodes as int),
            final(d).context.nodes > old(d).context.nodes || final(d).context.nodes == u64::MAX,
            !final(d).context.interrupted || out_of_nodes(
                old(d).context.node_limit,
                final(d).context.nodes as int,
            ) ==> reaches(
                old(d).context.node_limit,
                old(d).context.nodes as int,
                final(d).context.nodes as int,
                out_of_nodes(old(d).context.node_limit, final(d).context.nodes as int),
            ),
            forall|limit: Option<u64>|
                #![trigger limited(old(self).base(), limit)]
                reaches(
                    limit,
                    old(d).context.nodes as int,
                    final(d).context.nodes as int,
                    final(d).context.interrupted || out_of_nodes(
                        old(d).context.node_limit,
                        final(d).context.nodes as int,
                    ),
                ) ==> {
                    let nodes = old(d).context.nodes + 1;
                    if out_of_nodes(limit, nodes) {
                        &&& r is None
                        &&& final(self)@ == old(self)@
                        &&& old(d).context.nodes < u64::MAX ==> final(d).context.nodes == nodes
                    } else {
                        let o = deepened(
                            limited(old(self).base(), limit),
                            State { memory: old(self)@, nodes },
                            place_of(*old(self), old(d).context, request.board, 0),
                            old(d).depth as int,
                            request.limits.searchmoves@,
                            old(d).leading(),
                            old(d).previous_score as int,
                        );
                        &&& state_of(*final(self), final(d).context) == o.state
                        &&& match r {
                            Some(info) => o.found == Some((info.pv@[0], info.score as int)),
                            None => o.found is None,
                        }
                    }
                },
    {
        if d.context.should_stop() {
            d.finish();
            assert(d.context.starts_no_depth(0) == old(d).context.starts_no_depth(0));
            return None;
        }
        let leading: Option<Move> = match d.completed {
            Some(mv) => Some(mv),
            None => d.hint,
        };
        let found: Option<(Move, i32)> = self.deepen(
            &request.board,
            d.depth,
            &request.limits.searchmoves,
            leading,
            d.previous_score,
            &mut d.context,
        );
        let interrupted: bool = d.context.interrupted;
        let expired: bool = d.context.soft_expired();
        let elapsed: u64 = d.context.elapsed();
        proof {
            let time = choose|time: u64| expired == #[trigger] d.context.starts_no_depth(time);
            assert(expired == old(d).context.starts_no_depth(time));
        }
        d.conclude_depth(found, interrupted, expired, elapsed)
    }

    /// Searches a position and reports each depth that it completes. Without
    /// a completed depth the move is the first one of the root. The depths are
    /// those of the model, from the first on, and all of them where nothing cuts
    /// the search short. A search that was cut short reports, and leaves in its
    /// tables, what the model does with the limits at which it was cut.
    #[verifier::rlimit(80)]
    pub fn search(&mut self, request: &SearchRequest) -> (r: SearchReport)
        requires
            old(self).wf(),
            request.board.valid(),
        ensures
            final(self).wf(),
            final(self).same_parts(*old(self)),
            r.result.best_move is None <==> !can_move(request.board),
            r.result.best_move matches Some(mv) ==> legal_moves_of(request.board).contains(mv),
            !can_move(request.board) ==> r.infos@.len() == 0 && final(self)@ == old(self)@,
            can_move(request.board) ==> r.result.best_move == Some(
                if r.infos@.len() > 0 {
                    r.infos@.last().pv@[0]
                } else {
                    let tt_move = table_move(old(self)@, request.board);
                    generated(old(self)@, request.board, tt_move).all()[0].mv
                },
            ),
            forall|i: int|
                #![trigger r.infos@[i]]
                0 <= i < r.infos@.len() ==> {
                    &&& 1 <= r.infos@[i].depth <= deepest(request.limits.depth)
                    &&& i > 0 ==> r.infos@[i - 1].depth < r.infos@[i].depth
                    &&& r.infos@[i].pv@.len() == 1
                    &&& legal_moves_of(request.board).contains(r.infos@[i].pv@[0])
                    &&& may_search(request.limits.searchmoves@, r.infos@[i].pv@[0])
                    &&& -MAX_SCORE <= r.infos@[i].score <= MAX_SCORE
                },
            every_depth(r.infos@),
            !r.cut_short && has_permitted(request.board, request.limits.searchmoves@)
                && !out_of_nodes(request.limits.nodes, r.nodes as int) ==> r.infos@.len()
                == deepest(request.limits.depth),
            can_move(request.board) ==> {
                let (end, depths) = completed_depths(
                    old(self).setting(request.limits.nodes),
                    State { memory: refreshed(old(self)@), nodes: 0 },
                    root_place(*request),
                    1,
                    deepest(request.limits.depth),
                    request.limits.searchmoves@,
                    table_move(old(self)@, request.board),
                    0,
                );
                &&& reported(r.infos@).is_prefix_of(depths)
                &&& !r.cut_short ==> reported(r.infos@) == depths && final(self)@ == end.memory
            },
            r.interrupted ==> r.cut_short,
            can_move(request.board) ==> {
                let (end, depths) = completed_depths(
                    old(self).setting(followed_limit(request.limits.nodes, r.nodes, r.interrupted)),
                    State { memory: refreshed(old(self)@), nodes: 0 },
                    root_place(*request),
                    1,
                    followed_depth(request.limits.depth, r.depth, r.cut_short, r.interrupted),
                    request.limits.searchmoves@,
                    table_move(old(self)@, request.board),
                    0,
                );
                reported(r.infos@) == depths && final(self)@ == end.memory
            },
    {
        let mut infos: Vec<SearchInfo> = Vec::new();
        let mut d: Deepening = match self.begin(request) {
            Some(d) => d,
            None => {
                return SearchReport {
                    result: SearchResult { best_move: None },
                    infos,
                    nodes: 0,
                    depth: 0,
                    cut_short: false,
                    interrupted: false,
                };
            },
        };
        let ghost start = d;
        let ghost st = self.base();
        let ghost at = root_place(*request);
        let ghost s = State { memory: self@, nodes: 0 };
        let ghost hint = d.hint;
        let ghost searchmoves = request.limits.searchmoves@;
        let ghost own = request.limits.nodes;
        assert(self.move_stack@ =~= at.stack);
        assert(reported(infos@) =~= Seq::<Completed>::empty());
        assert forall|limit: Option<u64>, m: int| #[trigger]
            completed_depths(limited(st, limit), s, at, 1, m, searchmoves, hint, 0) == preceded(
                reported(infos@),
                completed_depths(limited(st, limit), s, at, 1, m, searchmoves, hint, 0),
            ) by {
            let later = completed_depths(limited(st, limit), s, at, 1, m, searchmoves, hint, 0);
            assert(reported(infos@) + later.1 =~= later.1);
        }
        while !d.done
            invariant
                d.wf(*self, request.board),
                self.same_parts(*old(self)),
                st == self.base(),
                at == root_place(*request),
                s.nodes == 0,
                hint == d.hint,
                searchmoves == request.limits.searchmoves@,
                own == request.limits.nodes,
                d.max_depth == deepest(request.limits.depth),
                d.max_depth == start.max_depth,
                d.fallback == start.fallback,
                d.context.node_limit == request.limits.nodes,
                at == place_of(*self, d.context, request.board, 0),
                d.hint == start.hint,
                d.completed == if infos@.len() > 0 {
                    Some(infos@.last().pv@[0])
                } else {
                    None
                },
                !d.done && infos@.len() > 0 ==> infos@.last().depth < d.depth,
                forall|i: int|
                    #![trigger infos@[i]]
                    0 <= i < infos@.len() ==> {
                        &&& 1 <= infos@[i].depth <= d.depth
                        &&& i > 0 ==> infos@[i - 1].depth < infos@[i].depth
                        &&& infos@[i].pv@.len() == 1
                        &&& legal_moves_of(request.board).contains(infos@[i].pv@[0])
                        &&& may_search(request.limits.searchmoves@, infos@[i].pv@[0])
                        &&& -MAX_SCORE <= infos@[i].score <= MAX_SCORE
                    },
                every_depth(infos@),
                infos@.len() > 0 ==> has_permitted(request.board, request.limits.searchmoves@),
                has_permitted(request.board, request.limits.searchmoves@) && !out_of_nodes(
                    request.limits.nodes,
                    d.context.nodes as int,
                ) ==> {
                    &&& !d.done ==> infos@.len() == d.depth - 1
                    &&& d.done && !d.cut_short ==> infos@.len() == d.max_depth
                },
                !d.done ==> reaches(
                    own,
                    0,
                    d.context.nodes as int,
                    d.context.nodes > 0 && out_of_nodes(own, d.context.nodes as int),
                ),
                !d.done ==> forall|limit: Option<u64>, m: int|
                    #![trigger completed_depths(
                        limited(st, limit), s, at, 1, m, searchmoves, hint, 0
                    )]
                    d.depth <= m && reaches(
                        limit,
                        0,
                        d.context.nodes as int,
                        d.context.nodes > 0 && out_of_nodes(own, d.context.nodes as int),
                    ) ==> completed_depths(
                        limited(st, limit),
                        s,
                        at,
                        1,
                        m,
                        searchmoves,
                        hint,
                        0,
                    ) == preceded(
                        reported(infos@),
                        completed_depths(
                            limited(st, limit),
                            state_of(*self, d.context),
                            at,
                            d.depth as int,
                            m,
                            searchmoves,
                            d.leading(),
                            d.previous_score as int,
                        ),
                    ),
                d.done ==> {
                    let (end, depths) = completed_depths(
                        limited(
                            st,
                            followed_limit(own, d.context.nodes, d.context.interrupted),
                        ),
                        s,
                        at,
                        1,
                        followed_depth(
                            request.limits.depth,
                            d.depth,
                            d.cut_short,
                            d.context.interrupted,
                        ),
                        searchmoves,
                        hint,
                        0,
                    );
                    reported(infos@) == depths && end.memory == self@
                },
                d.context.interrupted ==> d.cut_short,
                reported(infos@).is_prefix_of(
                    completed_depths(
                        limited(st, own),
                        s,
                        at,
                        1,
                        d.max_depth as int,
                        searchmoves,
                        hint,
                        0,
                    ).1,
                ),
            decreases d.max_depth - d.depth, (if d.done {
                0nat
            } else {
                1nat
            }),
        {
            let ghost before = infos@;
            let ghost d_before = d;
            let ghost memory = self@;
            let ghost here = state_of(*self, d.context);
            let found: Option<SearchInfo> = self.step(request, &mut d);
            let ghost there = state_of(*self, d.context);
            let ghost stopped = d.context.interrupted || out_of_nodes(own, there.nodes);
            if let Some(info) = found {
                let ghost entry = Completed {
                    depth: info.depth as int,
                    mv: info.pv@[0],
                    score: info.score as int,
                    nodes: info.nodes as int,
                };
                infos.push(info);
                assert(reported(infos@) =~= reported(before).push(entry));
            }
            proof {
                let depth = d_before.depth as int;
                assert forall|limit: Option<u64>, m: int| depth <= m && reaches(
                    limit,
                    0,
                    here.nodes,
                    here.nodes > 0 && out_of_nodes(own, here.nodes),
                ) && reaches(limit, here.nodes, there.nodes, stopped) implies #[trigger]
                    completed_depths(limited(st, limit), s, at, 1, m, searchmoves, hint, 0)
                    == preceded(
                    reported(infos@),
                    if out_of_nodes(limit, here.nodes + 1) {
                        (State { nodes: here.nodes + 1, ..here }, Seq::<Completed>::empty())
                    } else {
                        completed_depths(
                            limited(st, limit),
                            there,
                            at,
                            depth + 1,
                            m,
                            searchmoves,
                            d.leading(),
                            d.previous_score as int,
                        )
                    },
                ) by {
                    let later = completed_depths(
                        limited(st, limit),
                        there,
                        at,
                        depth + 1,
                        m,
                        searchmoves,
                        d.leading(),
                        d.previous_score as int,
                    );
                    if !out_of_nodes(limit, here.nodes + 1) && found is Some {
                        let entry = reported(infos@).last();
                        assert(reported(before) + (seq![entry] + later.1) =~= reported(infos@)
                            + later.1);
                    }
                }
                let limit = followed_limit(own, d.context.nodes, d.context.interrupted);
                let last = followed_depth(
                    request.limits.depth,
                    d.depth,
                    d.cut_short,
                    d.context.interrupted,
                );
                let ended = completed_depths(
                    limited(st, limit),
                    there,
                    at,
                    depth + 1,
                    last,
                    searchmoves,
                    d.leading(),
                    d.previous_score as int,
                );
                if d.done {
                    assert(depth <= last);
                    assert(reaches(
                        limit,
                        0,
                        here.nodes,
                        here.nodes > 0 && out_of_nodes(own, here.nodes),
                    ));
                    assert(reaches(limit, here.nodes, there.nodes, stopped));
                    assert(depth + 1 > last || out_of_nodes(limit, there.nodes + 1));
                    assert(ended.0.memory == there.memory && ended.1.len() == 0);
                    assert(reported(infos@) + Seq::<Completed>::empty() =~= reported(infos@));
                    assert(reported(infos@) + ended.1 =~= reported(infos@));
                }
            }
        }
        SearchReport {
            result: d.result(),
            infos,
            nodes: d.context.nodes,
            depth: d.depth,
            cut_short: d.cut_short,
            interrupted: d.context.interrupted,
        }
    }
}

/// The root of a request's search.
pub open spec fn root_place(request: SearchRequest) -> Place {
    Place { board: request.board, ply: 0, keys: request.history@, stack: Seq::empty() }
}

} // verus!
