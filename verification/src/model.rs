//! The search as a mathematical function: what it returns and what it leaves
//! in its tables, when neither the clock nor the stop flag interrupts it.

use crate::chess::{Color, Move, Piece, Position};
use crate::evaluate::exchange_value;
use crate::history::{
    bonus_of, capture_cell, clamped, continuation_cell, correction_cell, magnitude, pawn_cell,
    quiet_cell, table_with, toward_zero, MAX_CORRECTION_HISTORY, MAX_QUIET_HISTORY,
};
use crate::limits::{larger, out_of_nodes, smaller};
use crate::moves::{move_facts, EngineMove};
use crate::nnue::{evaluation, Network};
use crate::picker::{lemma_picked, pick, picker_of, Moves, Picker, Stage};
use crate::rules::{can_move, legal_moves_of, null_moved, played};
use crate::transposition::{lookup, stored, TTNodeType, TableEntry};
use crate::zobrist::{majors_hash, minors_hash, non_pawn_hash_of, pawns_hash};
use vstd::prelude::*;

verus! {

pub const MATE_SCORE: i32 = 100_000;

pub const MATE_THRESHOLD: i32 = 99_000;

/// No score, counted from the root, is further from zero.
pub const MAX_SCORE: i32 = 101_000_000;

/// Above every score.
pub const INFINITE: i32 = 1_000_000_000;

/// What a node of the search tree is expected to be: one where some move is
/// too good, one where no move is good enough, or one of the main line.
#[derive(Clone, Copy, Debug, PartialEq, Eq, Structural)]
pub enum NodeType {
    CUT,
    ALL,
    PV,
}

impl NodeType {
    pub open spec fn child(self) -> NodeType {
        match self {
            NodeType::PV => NodeType::PV,
            NodeType::CUT => NodeType::ALL,
            NodeType::ALL => NodeType::CUT,
        }
    }

    pub fn is_pv(self) -> (r: bool)
        ensures
            r == (self == NodeType::PV),
    {
        self == NodeType::PV
    }

    /// What the node after the first move is expected to be.
    pub fn first_child(self) -> (r: NodeType)
        ensures
            r == self.child(),
    {
        match self {
            NodeType::PV => NodeType::PV,
            NodeType::CUT => NodeType::ALL,
            NodeType::ALL => NodeType::CUT,
        }
    }
}

/// A move on the way from the root.
#[derive(Clone, Copy, Debug, PartialEq, Eq, Structural)]
pub struct StackMove {
    pub mv: Move,
    pub piece: Piece,
    pub is_null: bool,
}

/// What stands for a null move of a side.
pub open spec fn null_stack_move(color: Color) -> StackMove {
    StackMove {
        mv: match color {
            Color::White => Move { from: 8, to: 0, promotion: None },
            Color::Black => Move { from: 48, to: 56, promotion: None },
        },
        piece: Piece::Pawn,
        is_null: true,
    }
}

/// The tables that a search fills.
#[verifier::ext_equal]
pub struct Memory {
    pub tt: Seq<Seq<TableEntry>>,
    pub quiet: Seq<i16>,
    pub continuation: Seq<i16>,
    pub capture: Seq<i16>,
    pub pawn_correction: Seq<i16>,
    pub stm_non_pawn_correction: Seq<i16>,
    pub nstm_non_pawn_correction: Seq<i16>,
    pub minor_correction: Seq<i16>,
    pub major_correction: Seq<i16>,
    pub pawn: Seq<i16>,
}

/// What a search is given and does not change.
pub struct Setting {
    pub network: Network,
    pub node_limit: Option<u64>,
    pub reductions: Seq<Seq<i32>>,
}

/// A setting with another limit of nodes.
pub open spec fn limited(st: Setting, limit: Option<u64>) -> Setting {
    Setting { node_limit: limit, ..st }
}

/// What changes while a search runs: its tables, and the count of its nodes.
#[verifier::ext_equal]
pub struct State {
    pub memory: Memory,
    pub nodes: int,
}

/// Where a search stands: the position, how far it is from the root, the keys
/// of the positions up to it, and the moves from the root.
pub struct Place {
    pub board: Position,
    pub ply: int,
    pub keys: Seq<u64>,
    pub stack: Seq<StackMove>,
}

/// What a search of a node is asked: how deep it goes, what the node is
/// expected to be, whether the other side moved instead just before, and the
/// scores between which it matters.
pub struct Task {
    pub depth: int,
    pub expected: NodeType,
    pub null_position: bool,
    pub alpha: int,
    pub beta: int,
}

/// What a search of a node comes to: no score where it had to stop.
pub struct Outcome {
    pub state: State,
    pub score: Option<int>,
}

/// How far the moves of a node have been tried: what is left, how many there
/// were, whether none was searched yet, and the best so far.
pub struct Run {
    pub picker: Picker,
    pub count: int,
    pub first: bool,
    pub alpha: int,
    pub result: int,
    pub best: Option<EngineMove>,
}

/// What trying the moves of a node comes to: the best score with its move.
pub struct Tried {
    pub state: State,
    pub best: Option<(int, Option<EngineMove>)>,
}

/// A score as the table keeps it: a mate is counted from the position rather
/// than from the root.
pub open spec fn to_tt(score: int, ply: int) -> int {
    if score >= MATE_THRESHOLD {
        score + ply
    } else if score <= -MATE_THRESHOLD {
        score - ply
    } else {
        score
    }
}

/// A score of the table, counted from the root again.
pub open spec fn from_tt(score: int, ply: int) -> int {
    if score >= MATE_THRESHOLD {
        score - ply
    } else if score <= -MATE_THRESHOLD {
        score + ply
    } else {
        score
    }
}

/// A score that goes through the table at one ply comes back as it was.
pub proof fn score_round_trips_through_the_table(score: int, ply: int)
    requires
        ply >= 0,
    ensures
        from_tt(to_tt(score, ply), ply) == score,
{
}

/// How many moves less deep a late quiet move is searched: so many thresholds
/// of its row the depth has reached.
pub open spec fn reached(row: Seq<i32>, depth: int, n: nat) -> nat
    decreases n,
{
    if n == 0 {
        0
    } else {
        reached(row, depth, (n - 1) as nat) + if row[n - 1] <= depth {
            1nat
        } else {
            0nat
        }
    }
}

/// How much less deep the move with a number is searched.
pub open spec fn reduction_of(rows: Seq<Seq<i32>>, depth: int, number: int) -> int {
    let row = rows[smaller(number, rows.len() - 1)];
    reached(row, depth, row.len()) as int
}

/// Whether a position has stood there three times, among the positions since
/// the last capture or pawn move.
pub open spec fn repeated(board: Position, keys: Seq<u64>) -> bool {
    let since = larger(0, keys.len() - (board.halfmove_clock + 1));
    keys.subrange(since, keys.len() as int).filter(|key: u64| key == board.hash).len() >= 3
}

/// The score of a position without legal moves.
pub open spec fn terminal(board: Position, ply: int) -> int {
    if board.checkers == 0 {
        0
    } else {
        -MATE_SCORE + ply
    }
}

/// A mate is worth more to the side that gives it the fewer moves it takes.
pub proof fn shorter_mates_are_worth_more(board: Position, ply: int, later: int)
    requires
        board.checkers != 0,
        ply < later,
    ensures
        -terminal(board, ply) > -terminal(board, later),
{
}

/// The piece that a move moves.
pub open spec fn mover(board: Position, mv: Move) -> Piece {
    match board.piece_at(mv.from as int) {
        Some(piece) => piece,
        None => Piece::Pawn,
    }
}

/// A capture with its scores.
pub open spec fn scored_capture(memory: Memory, board: Position, facts: EngineMove) -> EngineMove {
    EngineMove {
        see_score: exchange_value(board, facts) as i16,
        history: match facts.target_type {
            Some(victim) => memory.capture[capture_cell(
                board.side_to_move.number(),
                facts.mv.to as int,
                facts.piece_type,
                victim,
            )] as i32,
            None => 0,
        },
        ..facts
    }
}

/// A move with its scores.
pub open spec fn scored(
    memory: Memory,
    board: Position,
    tt_move: Option<Move>,
    mv: Move,
) -> EngineMove {
    let side = board.side_to_move.number();
    let facts = move_facts(board, mv, mover(board, mv), tt_move == Some(mv));
    if facts.is_capture {
        scored_capture(memory, board, facts)
    } else {
        EngineMove {
            history: (memory.quiet[quiet_cell(side, mv.from as int, mv.to as int)]
                + memory.pawn[pawn_cell(
                side,
                pawns_hash(board),
                mv.to as int,
                facts.piece_type,
            )]) as i32,
            ..facts
        }
    }
}

/// A move with the scores that the quiescence search gives it.
pub open spec fn scored_for_quiescence(memory: Memory, board: Position, mv: Move) -> EngineMove {
    let facts = move_facts(board, mv, mover(board, mv), false);
    if facts.is_capture {
        scored_capture(memory, board, facts)
    } else {
        facts
    }
}

pub open spec fn is_good(mv: EngineMove) -> bool {
    mv.is_tt || (mv.is_capture && mv.see_score >= 0)
}

pub open spec fn is_bad(mv: EngineMove) -> bool {
    !mv.is_tt && mv.is_capture && mv.see_score < 0
}

pub open spec fn is_rest(mv: EngineMove) -> bool {
    !mv.is_tt && !mv.is_capture
}

/// The legal moves with their scores.
pub open spec fn scored_moves(
    memory: Memory,
    board: Position,
    tt_move: Option<Move>,
) -> Seq<EngineMove> {
    legal_moves_of(board).map_values(|mv: Move| scored(memory, board, tt_move, mv))
}

/// The legal moves, sorted by what they are.
pub open spec fn generated(memory: Memory, board: Position, tt_move: Option<Move>) -> Moves {
    let moves = scored_moves(memory, board, tt_move);
    Moves {
        good: moves.filter(|mv: EngineMove| is_good(mv)),
        bad: moves.filter(|mv: EngineMove| is_bad(mv)),
        quiets: moves.filter(|mv: EngineMove| is_rest(mv)),
    }
}

/// The captures and promotions, sorted by what they are.
pub open spec fn generated_for_quiescence(memory: Memory, board: Position) -> Moves {
    let moves = legal_moves_of(board).map_values(
        |mv: Move| scored_for_quiescence(memory, board, mv),
    );
    Moves {
        good: moves.filter(|mv: EngineMove| is_good(mv)),
        bad: moves.filter(|mv: EngineMove| is_bad(mv)),
        quiets: moves.filter(|mv: EngineMove| is_rest(mv) && mv.promotion),
    }
}

/// Where an element of a list of moves is.
pub proof fn lemma_in_moves(moves: Moves, mv: EngineMove)
    ensures
        moves.all().contains(mv) <==> moves.good.contains(mv) || moves.quiets.contains(mv)
            || moves.bad.contains(mv),
{
    let all = moves.all();
    let quiets = moves.good.len() as int;
    let bad = quiets + moves.quiets.len();
    if moves.good.contains(mv) {
        assert(all[moves.good.index_of(mv)] == mv);
    }
    if moves.quiets.contains(mv) {
        assert(all[quiets + moves.quiets.index_of(mv)] == mv);
    }
    if moves.bad.contains(mv) {
        assert(all[bad + moves.bad.index_of(mv)] == mv);
    }
    if all.contains(mv) {
        let i = all.index_of(mv);
        if i < quiets {
            assert(moves.good[i] == mv);
        } else if i < bad {
            assert(moves.quiets[i - quiets] == mv);
        } else {
            assert(moves.bad[i - bad] == mv);
        }
    }
}

/// Every legal move is generated, with its scores, and nothing else is.
pub proof fn generated_moves_are_the_legal_moves(
    m: Memory,
    board: Position,
    tt_move: Option<Move>,
    mv: EngineMove,
)
    ensures
        generated(m, board, tt_move).all().contains(mv) <==> legal_moves_of(board).contains(mv.mv)
            && mv == scored(m, board, tt_move, mv.mv),
{
    let moves = scored_moves(m, board, tt_move);
    lemma_filtered(moves, |e: EngineMove| is_good(e), mv);
    lemma_filtered(moves, |e: EngineMove| is_bad(e), mv);
    lemma_filtered(moves, |e: EngineMove| is_rest(e), mv);
    lemma_in_moves(generated(m, board, tt_move), mv);
    let legal = legal_moves_of(board);
    if legal.contains(mv.mv) && mv == scored(m, board, tt_move, mv.mv) {
        assert(moves[legal.index_of(mv.mv)] == mv);
    }
    if moves.contains(mv) {
        let i = moves.index_of(mv);
        assert(mv == scored(m, board, tt_move, legal[i]));
        assert(legal.contains(legal[i]));
    }
}

/// The quiescence search gets the captures and promotions among the legal
/// moves, and nothing else.
pub proof fn quiescence_gets_captures_and_promotions(m: Memory, board: Position, mv: EngineMove)
    ensures
        generated_for_quiescence(m, board).all().contains(mv) <==> legal_moves_of(board).contains(
            mv.mv,
        ) && mv == scored_for_quiescence(m, board, mv.mv) && (mv.is_capture || mv.promotion),
{
    let legal = legal_moves_of(board);
    let moves = legal.map_values(|e: Move| scored_for_quiescence(m, board, e));
    lemma_filtered(moves, |e: EngineMove| is_good(e), mv);
    lemma_filtered(moves, |e: EngineMove| is_bad(e), mv);
    lemma_filtered(moves, |e: EngineMove| is_rest(e) && e.promotion, mv);
    lemma_in_moves(generated_for_quiescence(m, board), mv);
    if legal.contains(mv.mv) && mv == scored_for_quiescence(m, board, mv.mv) {
        assert(moves[legal.index_of(mv.mv)] == mv);
    }
    if moves.contains(mv) {
        let i = moves.index_of(mv);
        assert(mv == scored_for_quiescence(m, board, legal[i]));
        assert(legal.contains(legal[i]));
    }
}

/// What is left of a list of moves by a test.
pub proof fn lemma_filtered(moves: Seq<EngineMove>, f: spec_fn(EngineMove) -> bool, mv: EngineMove)
    ensures
        moves.filter(f).contains(mv) <==> moves.contains(mv) && f(mv),
    decreases moves.len(),
{
    reveal(Seq::filter);
    if moves.len() > 0 {
        let before = moves.drop_last();
        lemma_filtered(before, f, mv);
        assert(moves =~= before.push(moves.last()));
        let kept = before.filter(f);
        if kept.contains(mv) {
            assert(kept.push(moves.last())[kept.index_of(mv)] == mv);
            assert(moves[before.index_of(mv)] == mv);
        }
        if moves.contains(mv) && mv != moves.last() {
            assert(before[moves.index_of(mv)] == mv);
        }
        if f(moves.last()) {
            assert(kept.push(moves.last())[kept.len() as int] == moves.last());
            if moves.filter(f).contains(mv) && mv != moves.last() {
                assert(kept[moves.filter(f).index_of(mv)] == mv);
            }
        }
        assert(moves[moves.len() - 1] == moves.last());
    }
}

/// How far a search is from the end of all nodes.
pub open spec fn nodes_to_go(nodes: int) -> nat {
    if nodes < 0x1_0000_0000_0000_0000 {
        (0x1_0000_0000_0000_0000 - nodes) as nat
    } else {
        0
    }
}

/// The score of a quiet position: captures and promotions are tried, and
/// every move where the side to move is in check. The first number is the
/// count of nodes.
#[verifier::opaque]
pub open spec fn quiesced(
    st: Setting,
    m: Memory,
    nodes: int,
    board: Position,
    ply: int,
    alpha: int,
    beta: int,
    keys: Seq<u64>,
) -> (int, Option<int>)
    decreases nodes_to_go(nodes), 1nat,
{
    let here = nodes + 1;
    let in_check = board.checkers != 0;
    let eval = evaluation(st.network, board);
    if out_of_nodes(st.node_limit, here) {
        (here, None)
    } else if repeated(board, keys) {
        (here, Some(0))
    } else if board.halfmove_clock >= 100 {
        (
            here,
            Some(
                if can_move(board) {
                    0
                } else {
                    terminal(board, ply)
                },
            ),
        )
    } else if !can_move(board) {
        (here, Some(terminal(board, ply)))
    } else if in_check {
        quiesced_moves(
            st,
            m,
            here,
            board,
            ply,
            picker_of(generated(m, board, None)),
            alpha,
            beta,
            -MATE_SCORE as int,
            keys,
        )
    } else if eval >= beta {
        (here, Some(eval))
    } else {
        quiesced_moves(
            st,
            m,
            here,
            board,
            ply,
            picker_of(generated_for_quiescence(m, board)),
            larger(alpha, eval),
            beta,
            eval,
            keys,
        )
    }
}

/// The best score of the moves that a picker has left, and of the score that
/// is there without them.
#[verifier::opaque]
pub open spec fn quiesced_moves(
    st: Setting,
    m: Memory,
    nodes: int,
    board: Position,
    ply: int,
    p: Picker,
    alpha: int,
    beta: int,
    result: int,
    keys: Seq<u64>,
) -> (int, Option<int>)
    decreases nodes_to_go(nodes), 4 + p.left(),
        when p.wf()
{
    proof {
        lemma_picked(p);
    }
    let (q, picked) = pick(p);
    match picked {
        None => (nodes, Some(result)),
        Some(mv) => if board.checkers == 0 && mv.see_score < -100 {
            quiesced_moves(st, m, nodes, board, ply, q, alpha, beta, result, keys)
        } else {
            let next = played(board, mv.mv);
            let (after, child) = quiesced(
                st,
                m,
                nodes,
                next,
                ply + 1,
                -beta,
                -alpha,
                keys.push(next.hash),
            );
            let now = larger(nodes, after);
            match child {
                None => (now, None),
                Some(score) => {
                    let x = -score;
                    if x >= beta {
                        (now, Some(larger(result, x)))
                    } else {
                        quiesced_moves(
                            st,
                            m,
                            now,
                            board,
                            ply,
                            q,
                            if x > result {
                                larger(alpha, x)
                            } else {
                                alpha
                            },
                            beta,
                            larger(result, x),
                            keys,
                        )
                    }
                },
            }
        },
    }
}

/// A quiet move that is no promotion.
pub open spec fn is_silent(mv: EngineMove) -> bool {
    !mv.is_capture && !mv.promotion
}

/// A history table after the number at a place was given a bonus, if there is
/// such a place.
pub open spec fn bonus_at(table: Seq<i16>, place: Option<int>, bonus: int) -> Seq<i16> {
    match place {
        Some(i) => table_with(table, i, bonus, MAX_QUIET_HISTORY as int),
        None => table,
    }
}

/// A history table after every move of a list but one was given a bonus.
pub open spec fn with_bonuses(
    table: Seq<i16>,
    place: spec_fn(EngineMove) -> Option<int>,
    moves: Seq<EngineMove>,
    except: Move,
    bonus: int,
    n: nat,
) -> Seq<i16>
    decreases n,
{
    if n == 0 {
        table
    } else {
        let before = with_bonuses(table, place, moves, except, bonus, (n - 1) as nat);
        let mv = moves[n - 1];
        if mv.mv == except {
            before
        } else {
            bonus_at(before, place(mv), bonus)
        }
    }
}

/// A history table after a move that cut the search off was rewarded and the
/// others of a list were punished.
pub open spec fn rewarded_table(
    table: Seq<i16>,
    place: spec_fn(EngineMove) -> Option<int>,
    mv: EngineMove,
    others: Seq<EngineMove>,
    reward: int,
    punishment: int,
) -> Seq<i16> {
    with_bonuses(
        bonus_at(table, place(mv), reward),
        place,
        others,
        mv.mv,
        punishment,
        others.len(),
    )
}

/// The place of a quiet move in its history.
pub open spec fn quiet_place(side: int) -> spec_fn(EngineMove) -> Option<int> {
    |e: EngineMove| Some(quiet_cell(side, e.mv.from as int, e.mv.to as int))
}

/// The place of a quiet move in the history of the pawns.
pub open spec fn pawn_place(side: int, hash: u64) -> spec_fn(EngineMove) -> Option<int> {
    |e: EngineMove| Some(pawn_cell(side, hash, e.mv.to as int, e.piece_type))
}

/// The place of a quiet move in the history of answers.
pub open spec fn answer_place(side: int, previous: StackMove) -> spec_fn(EngineMove) -> Option<
    int,
> {
    |e: EngineMove|
        Some(
            continuation_cell(
                0,
                side,
                previous.mv.to as int,
                previous.piece,
                e.mv.to as int,
                e.piece_type,
            ),
        )
}

/// The place of a capture in its history.
pub open spec fn capture_place(side: int) -> spec_fn(EngineMove) -> Option<int> {
    |e: EngineMove|
        match e.target_type {
            Some(victim) => Some(capture_cell(side, e.mv.to as int, e.piece_type, victim)),
            None => None,
        }
}

/// The tables after a move cut the search off.
pub open spec fn rewarded(
    m: Memory,
    board: Position,
    mv: EngineMove,
    depth: int,
    p: Picker,
    stack: Seq<StackMove>,
) -> Memory {
    let side = board.side_to_move.number();
    let bonus = bonus_of(depth);
    if is_silent(mv) {
        let others = p.tried_quiets();
        Memory {
            quiet: rewarded_table(m.quiet, quiet_place(side), mv, others, bonus, -bonus),
            pawn: rewarded_table(
                m.pawn,
                pawn_place(side, pawns_hash(board)),
                mv,
                others,
                bonus,
                -bonus,
            ),
            continuation: if stack.len() > 0 && !stack.last().is_null {
                rewarded_table(
                    m.continuation,
                    answer_place(side, stack.last()),
                    mv,
                    others,
                    bonus,
                    -bonus,
                )
            } else {
                m.continuation
            },
            ..m
        }
    } else if mv.is_capture {
        Memory {
            capture: rewarded_table(
                m.capture,
                capture_place(side),
                mv,
                p.tried,
                bonus,
                -(bonus / 4),
            ),
            ..m
        }
    } else {
        m
    }
}

/// The tables after the evaluation of a position was corrected by what the
/// search found.
pub open spec fn corrected(m: Memory, board: Position, bonus: int) -> Memory {
    let side = board.side_to_move;
    let with = |table: Seq<i16>, hash: u64|
        table_with(
            table,
            correction_cell(side.number(), hash),
            clamped(bonus, -2048, 2048),
            MAX_CORRECTION_HISTORY as int,
        );
    Memory {
        pawn_correction: with(m.pawn_correction, pawns_hash(board)),
        minor_correction: with(m.minor_correction, minors_hash(board)),
        major_correction: with(m.major_correction, majors_hash(board)),
        stm_non_pawn_correction: with(
            m.stm_non_pawn_correction,
            non_pawn_hash_of(board, side),
        ),
        nstm_non_pawn_correction: with(
            m.nstm_non_pawn_correction,
            non_pawn_hash_of(board, side.other()),
        ),
        ..m
    }
}

/// What a score says of a node that was searched between two bounds.
pub open spec fn node_type_of(score: int, alpha: int, beta: int) -> TTNodeType {
    if score >= beta {
        TTNodeType::LOWER
    } else if score <= alpha {
        TTNodeType::UPPER
    } else {
        TTNodeType::EXACT
    }
}

/// The tables after a node was searched to the end.
pub open spec fn recorded(
    m: Memory,
    board: Position,
    depth: int,
    ply: int,
    alpha: int,
    beta: int,
    eval: int,
    result: int,
    best: Option<EngineMove>,
) -> Memory {
    let kind = node_type_of(result, alpha, beta);
    let quiet_best = match best {
        Some(mv) => is_silent(mv),
        None => true,
    };
    let noted = if board.checkers == 0 && quiet_best && !(kind == TTNodeType::LOWER && result
        <= eval) && !(kind == TTNodeType::UPPER && result >= eval) && magnitude(result) <= 95_000 {
        corrected(m, board, toward_zero((result - eval) * depth, 4))
    } else {
        m
    };
    Memory {
        tt: stored(
            noted.tt,
            board.hash,
            TableEntry {
                key: board.hash,
                score: to_tt(result, ply) as i32,
                depth: depth as i32,
                node_type: kind,
                best_move: match best {
                    Some(mv) => Some(mv.mv),
                    None => None,
                },
            },
        ),
        ..noted
    }
}

/// The move that the table has for a position, if it is legal there.
pub open spec fn table_move(m: Memory, board: Position) -> Option<Move> {
    match lookup(m.tt, board.hash) {
        Some(entry) => match entry.best_move {
            Some(mv) if legal_moves_of(board).contains(mv) => Some(mv),
            _ => None,
        },
        None => None,
    }
}

/// Whether a side has a piece besides its king and pawns.
pub open spec fn has_pieces(board: Position) -> bool {
    board.colors[board.side_to_move.number()] & !(board.pieces[0] | board.pieces[5]) != 0
}

/// The position in which the other side moves instead.
pub open spec fn passed_to_other(board: Position) -> Position {
    Position { halfmove_clock: board.halfmove_clock, ..null_moved(board) }
}

/// How much less deep the search is in which the other side moves instead.
pub open spec fn null_reduction(depth: int, eval: int, beta: int) -> int {
    3 + depth / 4 + smaller(3, (eval - beta) / 200)
}

/// The entry of the table for a position, if it is deep enough to bound the
/// score.
pub open spec fn deep_entry(m: Memory, board: Position, depth: int) -> Option<TableEntry> {
    match lookup(m.tt, board.hash) {
        Some(entry) if entry.depth >= depth => Some(entry),
        _ => None,
    }
}

/// The lower bound that the table leaves of a task's.
pub open spec fn low_bound(m: Memory, at: Place, t: Task) -> int {
    match deep_entry(m, at.board, t.depth) {
        Some(entry) if entry.node_type == TTNodeType::LOWER => larger(
            t.alpha,
            from_tt(entry.score as int, at.ply),
        ),
        _ => t.alpha,
    }
}

/// The upper bound that the table leaves of a task's.
pub open spec fn high_bound(m: Memory, at: Place, t: Task) -> int {
    match deep_entry(m, at.board, t.depth) {
        Some(entry) if entry.node_type == TTNodeType::UPPER => smaller(
            t.beta,
            from_tt(entry.score as int, at.ply),
        ),
        _ => t.beta,
    }
}

/// What a node turns out to be before its moves are looked at.
pub enum Front {
    Stopped,
    Known(int),
    Passes,
    Tries,
}

/// What a node turns out to be: a place to stop, one whose score is known
/// without its moves, one where it is tried first whether the other side may
/// move instead, or one whose moves are to be tried.
pub open spec fn front(st: Setting, here: State, at: Place, t: Task) -> Front {
    let board = at.board;
    let m = here.memory;
    let high = high_bound(m, at, t);
    let eval = evaluation(st.network, board);
    let prunable = board.checkers == 0 && t.expected != NodeType::PV;
    if out_of_nodes(st.node_limit, here.nodes) {
        Front::Stopped
    } else if repeated(board, at.keys) {
        Front::Known(0)
    } else if !can_move(board) {
        Front::Known(terminal(board, at.ply))
    } else if board.halfmove_clock >= 100 {
        Front::Known(0)
    } else {
        match deep_entry(m, board, t.depth) {
            Some(entry) if entry.node_type == TTNodeType::EXACT || low_bound(m, at, t) >= high =>
                Front::Known(from_tt(entry.score as int, at.ply)),
            _ => if prunable && t.depth <= 5 && eval - 123 * t.depth >= high {
                Front::Known(eval)
            } else if prunable && !t.null_position && eval >= high && t.depth >= 3
                && board.halfmove_clock <= 95 && has_pieces(board) {
                Front::Passes
            } else {
                Front::Tries
            },
        }
    }
}

/// One state after another, which has come after it.
pub open spec fn advanced(before: State, after: State) -> State {
    State { memory: after.memory, nodes: larger(before.nodes, after.nodes) }
}

/// Where a move leads.
pub open spec fn next_place(at: Place, mv: EngineMove) -> Place {
    let next = played(at.board, mv.mv);
    Place {
        board: next,
        ply: at.ply + 1,
        keys: at.keys.push(next.hash),
        stack: at.stack.push(StackMove { mv: mv.mv, piece: mv.piece_type, is_null: false }),
    }
}

/// Where it leads that the other side moves instead.
pub open spec fn passed_place(at: Place) -> Place {
    Place {
        board: passed_to_other(at.board),
        ply: at.ply + 1,
        stack: at.stack.push(null_stack_move(at.board.side_to_move)),
        ..at
    }
}

/// What is asked where the other side moves instead: whether that is still
/// too good.
pub open spec fn passed_task(st: Setting, at: Place, t: Task, high: int) -> Task {
    Task {
        depth: t.depth - null_reduction(t.depth, evaluation(st.network, at.board), high),
        expected: NodeType::ALL,
        null_position: true,
        alpha: -high,
        beta: -high + 1,
    }
}

/// What is asked of the first move: the same as of the node.
pub open spec fn full_task(t: Task) -> Task {
    Task {
        depth: t.depth,
        expected: t.expected.child(),
        null_position: false,
        alpha: -t.beta,
        beta: -t.alpha,
    }
}

/// What is asked of a later move: whether it is better.
pub open spec fn probe_task(t: Task) -> Task {
    Task {
        depth: t.depth,
        expected: NodeType::CUT,
        null_position: false,
        alpha: -(t.alpha + 1),
        beta: -t.alpha,
    }
}

/// An outcome as the other side sees it.
pub open spec fn flipped(o: Outcome) -> Outcome {
    Outcome {
        score: match o.score {
            Some(score) => Some(-score),
            None => None,
        },
        ..o
    }
}

/// Whether a later move is better and has to be searched as the first is.
pub open spec fn is_between(t: Task, score: Option<int>) -> bool {
    match score {
        Some(score) => t.alpha < -score < t.beta,
        None => false,
    }
}

/// The search of a node.
#[verifier::opaque]
pub open spec fn searched(st: Setting, s: State, at: Place, t: Task) -> Outcome
    decreases nodes_to_go(s.nodes), 2nat,
{
    let here = State { nodes: s.nodes + 1, ..s };
    if t.depth <= 0 {
        let (nodes, score) = quiesced(
            st,
            s.memory,
            s.nodes,
            at.board,
            at.ply,
            t.alpha,
            t.beta,
            at.keys,
        );
        Outcome { state: State { nodes, ..s }, score }
    } else {
        let low = low_bound(s.memory, at, t);
        let high = high_bound(s.memory, at, t);
        let tt_move = table_move(s.memory, at.board);
        match front(st, here, at, t) {
            Front::Stopped => Outcome { state: here, score: None },
            Front::Known(score) => Outcome { state: here, score: Some(score) },
            Front::Tries => searched_moves(st, here, at, t, low, high, tt_move),
            Front::Passes => {
                let o = searched(st, here, passed_place(at), passed_task(st, at, t, high));
                let now = advanced(here, o.state);
                match o.score {
                    None => Outcome { state: now, score: None },
                    Some(score) => if -score >= high {
                        Outcome { state: now, score: Some(-score) }
                    } else {
                        searched_moves(st, now, at, t, low, high, tt_move)
                    },
                }
            },
        }
    }
}

/// The moves of a node before any was tried.
pub open spec fn fresh_run(moves: Moves, alpha: int) -> Run {
    Run {
        picker: picker_of(moves),
        count: 0,
        first: true,
        alpha,
        result: -INFINITE as int,
        best: None,
    }
}

/// What the moves of a node that were tried make of it.
pub open spec fn concluded(st: Setting, at: Place, t: Task, tried: Tried) -> Outcome {
    match tried.best {
        None => Outcome { state: tried.state, score: None },
        Some((result, best)) => Outcome {
            state: State {
                memory: recorded(
                    tried.state.memory,
                    at.board,
                    t.depth,
                    at.ply,
                    t.alpha,
                    t.beta,
                    evaluation(st.network, at.board),
                    result,
                    best,
                ),
                ..tried.state
            },
            score: Some(result),
        },
    }
}

/// The search of a node by its moves. `low` and `high` are the bounds that
/// the table has left of the task's.
#[verifier::opaque]
pub open spec fn searched_moves(
    st: Setting,
    s: State,
    at: Place,
    t: Task,
    low: int,
    high: int,
    tt_move: Option<Move>,
) -> Outcome
    decreases nodes_to_go(s.nodes), 5 + picker_of(generated(s.memory, at.board, tt_move)).left(),
{
    let run = fresh_run(generated(s.memory, at.board, tt_move), low);
    concluded(st, at, t, tried_moves(st, s, at, Task { beta: high, ..t }, run))
}

/// Whether a move comes so late that it, and the quiet moves after it, are
/// left out.
pub open spec fn is_pruned(board: Position, t: Task, mv: EngineMove, number: int) -> bool {
    t.expected != NodeType::PV && board.checkers == 0 && is_silent(mv) && number >= 5 + 3 * t.depth
        * t.depth
}

/// How much less deep a move is searched at first.
pub open spec fn late_reduction(
    st: Setting,
    board: Position,
    t: Task,
    mv: EngineMove,
    number: int,
) -> int {
    if t.depth >= 2 && number >= 2 && is_silent(mv) && board.checkers == 0 {
        reduction_of(st.reductions, t.depth, number)
    } else {
        0
    }
}

/// A run after a move was left out.
pub open spec fn skipped(run: Run, q: Picker) -> Run {
    Run { picker: Picker { stage: Stage::BadCaptures, ..q }, count: run.count + 1, ..run }
}

/// The best move so far, after one with a score.
pub open spec fn improved(run: Run, mv: EngineMove, x: int) -> Option<EngineMove> {
    if x > run.result {
        Some(mv)
    } else {
        run.best
    }
}

/// A run after a move with a score.
pub open spec fn continued(run: Run, q: Picker, mv: EngineMove, x: int) -> Run {
    Run {
        picker: q,
        count: run.count + 1,
        first: false,
        alpha: if x > run.result {
            larger(run.alpha, x)
        } else {
            run.alpha
        },
        result: larger(run.result, x),
        best: improved(run, mv, x),
    }
}

/// What is asked of a move that is searched so much less deep.
pub open spec fn move_task(t: Task, run: Run, reduction: int) -> Task {
    Task { depth: t.depth - 1 - reduction, null_position: false, alpha: run.alpha, ..t }
}

/// Whether a move that was searched less deep has to be searched again.
pub open spec fn needs_full_depth(run: Run, reduction: int, score: Option<int>) -> bool {
    match score {
        Some(x) => reduction > 0 && x > run.alpha,
        None => false,
    }
}

/// The moves that a picker has left, tried in turn until one is too good.
#[verifier::opaque]
pub open spec fn tried_moves(st: Setting, s: State, at: Place, t: Task, run: Run) -> Tried
    decreases nodes_to_go(s.nodes), 4 + run.picker.left(),
        when run.picker.wf()
{
    proof {
        lemma_picked(run.picker);
    }
    let (q, picked) = pick(run.picker);
    match picked {
        None => Tried { state: s, best: Some((run.result, run.best)) },
        Some(mv) => if is_pruned(at.board, t, mv, run.count + 1) {
            tried_moves(st, s, at, t, skipped(run, q))
        } else {
            let r = late_reduction(st, at.board, t, mv, run.count + 1);
            let probe = searched_move(st, s, at, move_task(t, run, r), mv, r == 0, run.first);
            let after = advanced(s, probe.state);
            let o = if needs_full_depth(run, r, probe.score) {
                searched_move(st, after, at, move_task(t, run, 0), mv, true, run.first)
            } else {
                probe
            };
            let now = advanced(after, o.state);
            match o.score {
                None => Tried { state: now, best: None },
                Some(x) => if x >= t.beta {
                    Tried {
                        state: State {
                            memory: rewarded(now.memory, at.board, mv, t.depth, q, at.stack),
                            ..now
                        },
                        best: Some((larger(run.result, x), improved(run, mv, x))),
                    }
                } else {
                    tried_moves(st, now, at, t, continued(run, q, mv, x))
                },
            }
        },
    }
}

/// The search of one move: the first as the node is searched, another first
/// with bounds that only ask whether it is better.
#[verifier::opaque]
pub open spec fn searched_move(
    st: Setting,
    s: State,
    at: Place,
    t: Task,
    mv: EngineMove,
    allow_research: bool,
    first: bool,
) -> Outcome
    decreases nodes_to_go(s.nodes), 3nat,
{
    let next = next_place(at, mv);
    if first {
        flipped(searched(st, s, next, full_task(t)))
    } else {
        let probe = searched(st, s, next, probe_task(t));
        if allow_research && is_between(t, probe.score) {
            flipped(searched(st, advanced(s, probe.state), next, full_task(t)))
        } else {
            flipped(probe)
        }
    }
}

/// How the search of one move unfolds.
pub open spec fn one_move_unfolds(
    st: Setting,
    s: State,
    at: Place,
    t: Task,
    mv: EngineMove,
    allow_research: bool,
    first: bool,
) -> bool {
    let next = next_place(at, mv);
    let probe = searched(st, s, next, probe_task(t));
    searched_move(st, s, at, t, mv, allow_research, first) == flipped(
        if first {
            searched(st, s, next, full_task(t))
        } else if allow_research && is_between(t, probe.score) {
            searched(st, advanced(s, probe.state), next, full_task(t))
        } else {
            probe
        },
    )
}

/// How the search of one move unfolds.
pub proof fn unfold_searched_move(
    st: Setting,
    s: State,
    at: Place,
    t: Task,
    mv: EngineMove,
    allow_research: bool,
    first: bool,
)
    ensures
        one_move_unfolds(st, s, at, t, mv, allow_research, first),
{
    reveal(searched_move);
    reveal(searched);
}

/// How the search of a node unfolds that is not searched by captures alone.
pub open spec fn node_unfolds(st: Setting, s: State, at: Place, t: Task) -> bool {
    let here = State { nodes: s.nodes + 1, ..s };
    let low = low_bound(s.memory, at, t);
    let high = high_bound(s.memory, at, t);
    let tt_move = table_move(s.memory, at.board);
    searched(st, s, at, t) == match front(st, here, at, t) {
        Front::Stopped => Outcome { state: here, score: None },
        Front::Known(score) => Outcome { state: here, score: Some(score) },
        Front::Tries => searched_moves(st, here, at, t, low, high, tt_move),
        Front::Passes => {
            let o = searched(st, here, passed_place(at), passed_task(st, at, t, high));
            let now = advanced(here, o.state);
            match o.score {
                None => Outcome { state: now, score: None },
                Some(score) => if -score >= high {
                    Outcome { state: now, score: Some(-score) }
                } else {
                    searched_moves(st, now, at, t, low, high, tt_move)
                },
            }
        },
    }
}

/// How the search of a node unfolds that is not searched by captures alone.
pub proof fn unfold_searched(st: Setting, s: State, at: Place, t: Task)
    requires
        t.depth > 0,
    ensures
        node_unfolds(st, s, at, t),
{
    reveal(searched);
    reveal(searched_moves);
}

/// How the search of a node unfolds that is searched by captures alone.
pub open spec fn quiet_node_unfolds(st: Setting, s: State, at: Place, t: Task) -> bool {
    let (nodes, score) = quiesced(
        st,
        s.memory,
        s.nodes,
        at.board,
        at.ply,
        t.alpha,
        t.beta,
        at.keys,
    );
    searched(st, s, at, t) == (Outcome { state: State { nodes, ..s }, score })
}

/// How the search of a node unfolds that is searched by captures alone.
pub proof fn unfold_quiet_search(st: Setting, s: State, at: Place, t: Task)
    requires
        t.depth <= 0,
    ensures
        quiet_node_unfolds(st, s, at, t),
{
    reveal(searched);
}

/// How the search of a node by its moves unfolds.
pub open spec fn moves_unfold(
    st: Setting,
    s: State,
    at: Place,
    t: Task,
    low: int,
    high: int,
    tt_move: Option<Move>,
) -> bool {
    let run = fresh_run(generated(s.memory, at.board, tt_move), low);
    searched_moves(st, s, at, t, low, high, tt_move) == concluded(
        st,
        at,
        t,
        tried_moves(st, s, at, Task { beta: high, ..t }, run),
    )
}

/// How the search of a node by its moves unfolds.
pub proof fn unfold_searched_moves(
    st: Setting,
    s: State,
    at: Place,
    t: Task,
    low: int,
    high: int,
    tt_move: Option<Move>,
)
    ensures
        moves_unfold(st, s, at, t, low, high, tt_move),
{
    reveal(searched_moves);
    reveal(tried_moves);
}

/// How trying the moves of a node unfolds.
pub open spec fn trying_unfolds(st: Setting, s: State, at: Place, t: Task, run: Run) -> bool {
    let (q, picked) = pick(run.picker);
    tried_moves(st, s, at, t, run) == match picked {
        None => Tried { state: s, best: Some((run.result, run.best)) },
        Some(mv) => if is_pruned(at.board, t, mv, run.count + 1) {
            tried_moves(st, s, at, t, skipped(run, q))
        } else {
            let r = late_reduction(st, at.board, t, mv, run.count + 1);
            let probe = searched_move(
                st,
                s,
                at,
                move_task(t, run, r),
                mv,
                r == 0,
                run.first,
            );
            let after = advanced(s, probe.state);
            let o = if needs_full_depth(run, r, probe.score) {
                searched_move(st, after, at, move_task(t, run, 0), mv, true, run.first)
            } else {
                probe
            };
            let now = advanced(after, o.state);
            match o.score {
                None => Tried { state: now, best: None },
                Some(x) => if x >= t.beta {
                    Tried {
                        state: State {
                            memory: rewarded(
                                now.memory,
                                at.board,
                                mv,
                                t.depth,
                                q,
                                at.stack,
                            ),
                            ..now
                        },
                        best: Some((larger(run.result, x), improved(run, mv, x))),
                    }
                } else {
                    tried_moves(st, now, at, t, continued(run, q, mv, x))
                },
            }
        },
    }
}

/// How trying the moves of a node unfolds.
pub proof fn unfold_tried_moves(st: Setting, s: State, at: Place, t: Task, run: Run)
    requires
        run.picker.wf(),
    ensures
        trying_unfolds(st, s, at, t, run),
{
    reveal(tried_moves);
    reveal(searched_move);
    lemma_picked(run.picker);
}

} // verus!
