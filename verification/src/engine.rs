//! The engine: its tables, the generation of moves, and the search.

use crate::chess::{Color, Move, Piece, Position};
use crate::evaluate::{exchangeable, static_exchange_evaluation};
use crate::history::{
    zeros, CaptureHistory, ContinuationHistory, CorrectionHistory, PawnHistory, QuietHistory,
};
use crate::model::{
    generated, generated_for_quiescence, is_bad, is_good, is_rest, limited, mover, reached,
    reduction_of, scored, scored_capture, scored_for_quiescence, scored_moves, Memory, Setting,
    StackMove, MAX_SCORE,
};
use crate::moves::{move_facts, EngineMove};
use crate::nnue::{describes, Network, NnueState};
use crate::picker::{MoveList, Moves};
use crate::rules::{can_move, legal_moves, legal_moves_of, plausible, MAX_MOVES};
use crate::transposition::{
    cluster_index, cluster_with, clusters_for_mb, empty_table, lemma_place, lookup, stored, Table,
    TableEntry,
};
use crate::zobrist::{pawns_hash, PieceKeys};
use std::sync::Arc;
use vstd::prelude::*;

verus! {

/// By how much the search of late quiet moves is shortened. Row `m` is for
/// the `m`th move, and the last row for all after it: the search is one less
/// deep for each of its numbers that the depth has reached.
pub struct Reductions {
    pub thresholds: Vec<Vec<i32>>,
}

impl View for Reductions {
    type V = Seq<Seq<i32>>;

    open spec fn view(&self) -> Seq<Seq<i32>> {
        Seq::new(self.thresholds@.len(), |i: int| self.thresholds@[i]@)
    }
}

impl Reductions {
    pub open spec fn wf(self) -> bool {
        &&& self@.len() > 0
        &&& forall|i: int| 0 <= i < self@.len() ==> (#[trigger] self@[i]).len() <= 64
    }

    /// How much less deep the move with a number is searched.
    pub fn reduction(&self, depth: i32, number: i32) -> (r: i32)
        requires
            self.wf(),
            number >= 0,
        ensures
            r == reduction_of(self@, depth as int, number as int),
            0 <= r <= 64,
    {
        let last: usize = self.thresholds.len() - 1;
        let index: usize = if (number as usize) < last {
            number as usize
        } else {
            last
        };
        let row: &Vec<i32> = &self.thresholds[index];
        assert(self@[index as int] == row@);
        let mut count: i32 = 0;
        let mut i: usize = 0;
        while i < row.len()
            invariant
                i <= row@.len() <= 64,
                count == reached(row@, depth as int, i as nat),
                count <= i,
            decreases row@.len() - i,
        {
            if row[i] <= depth {
                count = count + 1;
            }
            i = i + 1;
        }
        count
    }
}

/// The engine with what it has learnt: the table of positions, the histories
/// of moves, and the corrections of the evaluation.
pub struct Engine {
    pub network: Arc<Network>,
    pub reductions: Arc<Reductions>,
    pub piece_keys: PieceKeys,
    pub tt: Table,
    pub nnue: NnueState,
    pub quiet_history: QuietHistory,
    pub continuation_history: ContinuationHistory,
    pub capture_history: CaptureHistory,
    pub pawn_correction_history: CorrectionHistory,
    pub stm_non_pawn_correction_history: CorrectionHistory,
    pub nstm_non_pawn_correction_history: CorrectionHistory,
    pub minor_correction_history: CorrectionHistory,
    pub major_correction_history: CorrectionHistory,
    pub pawn_history: PawnHistory,
    pub move_stack: Vec<StackMove>,
}

/// Whether every score in a table is one that a search can find.
pub open spec fn scores_bounded(table: Seq<Seq<TableEntry>>) -> bool {
    forall|i: int, j: int|
        0 <= i < table.len() && 0 <= j < table[i].len() ==> -MAX_SCORE <= (
        #[trigger] table[i][j]).score <= MAX_SCORE
}

/// An entry that is found has a score that a search can find.
pub proof fn lemma_found_score(table: Seq<Seq<TableEntry>>, key: u64)
    requires
        table.len() > 0,
        scores_bounded(table),
    ensures
        lookup(table, key) matches Some(entry) ==> -MAX_SCORE <= entry.score <= MAX_SCORE,
{
    let i = cluster_index(table.len() as int, key);
    lemma_place(table[i], key, 0);
}

/// A table stays bounded when a bounded score is stored.
pub proof fn lemma_stored_score(table: Seq<Seq<TableEntry>>, key: u64, entry: TableEntry)
    requires
        table.len() > 0,
        scores_bounded(table),
        -MAX_SCORE <= entry.score <= MAX_SCORE,
    ensures
        scores_bounded(stored(table, key, entry)),
{
    let n = cluster_index(table.len() as int, key);
    let after = stored(table, key, entry);
    lemma_place(table[n], key, 0);
    assert forall|i: int, j: int| 0 <= i < after.len() && 0 <= j < after[i].len() implies -MAX_SCORE
        <= (#[trigger] after[i][j]).score <= MAX_SCORE by {
        if i == n {
            assert(after[n] == cluster_with(table[n], key, entry));
            if after[n][j] != entry {
                assert(after[n][j] == table[n][j]);
            }
        } else {
            assert(after[i][j] == table[i][j]);
        }
    }
}

impl View for Engine {
    type V = Memory;

    open spec fn view(&self) -> Memory {
        Memory {
            tt: self.tt@,
            quiet: self.quiet_history@,
            continuation: self.continuation_history@,
            capture: self.capture_history@,
            pawn_correction: self.pawn_correction_history@,
            stm_non_pawn_correction: self.stm_non_pawn_correction_history@,
            nstm_non_pawn_correction: self.nstm_non_pawn_correction_history@,
            minor_correction: self.minor_correction_history@,
            major_correction: self.major_correction_history@,
            pawn: self.pawn_history@,
        }
    }
}

/// A move of a legal list, with its facts.
pub open spec fn ready(board: Position, mv: EngineMove) -> bool {
    &&& legal_moves_of(board).contains(mv.mv)
    &&& describes(board, mv)
    &&& mv.is_capture ==> mv.target_type is Some
}

/// Moves of legal lists, with their facts.
pub open spec fn all_ready(board: Position, moves: Moves) -> bool {
    &&& forall|i: int| 0 <= i < moves.good.len() ==> ready(board, #[trigger] moves.good[i])
    &&& forall|i: int| 0 <= i < moves.bad.len() ==> ready(board, #[trigger] moves.bad[i])
    &&& forall|i: int| 0 <= i < moves.quiets.len() ==> ready(board, #[trigger] moves.quiets[i])
}

proof fn lemma_filter_push<A>(s: Seq<A>, x: A, f: spec_fn(A) -> bool)
    ensures
        s.push(x).filter(f) == if f(x) {
            s.filter(f).push(x)
        } else {
            s.filter(f)
        },
{
    reveal(Seq::filter);
    assert(s.push(x).drop_last() =~= s);
}

/// The facts of a plausible move are such that its exchange can be worked out.
proof fn lemma_move_facts(board: Position, mv: Move, is_tt: bool)
    requires
        board.wf(),
        plausible(board, mv),
    ensures
        exchangeable(board, move_facts(board, mv, mover(board, mv), is_tt)),
        0 <= move_facts(board, mv, mover(board, mv), is_tt).material_value,
        board.piece_at(mv.from as int) == Some(mover(board, mv)),
{
    let from = mv.from as int;
    assert(board.piece_at(from) is Some <==> board.color_at(from) is Some);
}

/// The one power of two from which 262144 is less than twice as far.
proof fn lemma_power_between(n: int)
    requires
        vstd::arithmetic::power2::is_pow2(n),
        n <= 262_144 < 2 * n,
    ensures
        n == 262_144,
{
    reveal_with_fuel(vstd::arithmetic::power2::is_pow2, 19);
}

/// The tables at the start of a game: the table of positions, the corrections,
/// and the histories of answers and of the pawns are those of one game.
pub open spec fn forgotten(m: Memory) -> Memory {
    Memory {
        tt: empty_table(m.tt.len()),
        continuation: zeros(294_912),
        pawn_correction: zeros(16_384),
        stm_non_pawn_correction: zeros(16_384),
        nstm_non_pawn_correction: zeros(16_384),
        minor_correction: zeros(16_384),
        major_correction: zeros(16_384),
        pawn: zeros(3_145_728),
        ..m
    }
}

impl Engine {
    pub open spec fn wf(self) -> bool {
        &&& self.network.wf()
        &&& self.reductions.wf()
        &&& self.piece_keys.wf()
        &&& self.tt.wf()
        &&& self.nnue.wf()
        &&& self.quiet_history.wf()
        &&& self.continuation_history.wf()
        &&& self.capture_history.wf()
        &&& self.pawn_correction_history.wf()
        &&& self.stm_non_pawn_correction_history.wf()
        &&& self.nstm_non_pawn_correction_history.wf()
        &&& self.minor_correction_history.wf()
        &&& self.major_correction_history.wf()
        &&& self.pawn_history.wf()
        &&& scores_bounded(self.tt@)
        &&& forall|i: int|
            0 <= i < self.move_stack@.len() ==> (#[trigger] self.move_stack@[i]).mv.to < 64
    }

    pub open spec fn net(self) -> Network {
        *self.network
    }

    /// What the engine searches with, without a limit of nodes.
    pub open spec fn base(self) -> Setting {
        Setting { network: self.net(), node_limit: None, reductions: self.reductions@ }
    }

    /// What the engine searches with.
    pub open spec fn setting(self, node_limit: Option<u64>) -> Setting {
        limited(self.base(), node_limit)
    }

    /// An engine that has learnt nothing, with a table of 16 megabytes.
    pub fn new(network: Arc<Network>, reductions: Arc<Reductions>) -> (r: Engine)
        requires
            network.wf(),
            reductions.wf(),
        ensures
            r.wf(),
            r.network == network,
            r.reductions == reductions,
            r.move_stack@.len() == 0,
            r.nnue.is_empty_of(*network),
            r@.tt == empty_table(262_144),
            r@.quiet == zeros(8192),
            r@.continuation == zeros(294_912),
            r@.capture == zeros(4608),
            r@.pawn_correction == zeros(16_384),
            r@.stm_non_pawn_correction == zeros(16_384),
            r@.nstm_non_pawn_correction == zeros(16_384),
            r@.minor_correction == zeros(16_384),
            r@.major_correction == zeros(16_384),
            r@.pawn == zeros(3_145_728),
    {
        let tt = Table::new_for_mb(16);
        proof {
            lemma_power_between(tt@.len() as int);
        }
        let nnue = NnueState::empty(&network);
        Engine {
            network,
            reductions,
            piece_keys: PieceKeys::new(),
            tt,
            nnue,
            quiet_history: QuietHistory::new(),
            continuation_history: ContinuationHistory::new(),
            capture_history: CaptureHistory::new(),
            pawn_correction_history: CorrectionHistory::new(),
            stm_non_pawn_correction_history: CorrectionHistory::new(),
            nstm_non_pawn_correction_history: CorrectionHistory::new(),
            minor_correction_history: CorrectionHistory::new(),
            major_correction_history: CorrectionHistory::new(),
            pawn_history: PawnHistory::new(),
            move_stack: Vec::new(),
        }
    }

    /// The engine searches with the same network and reductions as another.
    pub open spec fn same_parts(self, other: Engine) -> bool {
        self.network == other.network && self.reductions == other.reductions
    }

    /// Forgets what belongs to the game: the table, the corrections, and the
    /// histories of answers and of the pawns.
    pub fn new_game(&mut self)
        requires
            old(self).wf(),
        ensures
            final(self).wf(),
            final(self).same_parts(*old(self)),
            final(self)@ == forgotten(old(self)@),
            final(self).nnue == old(self).nnue,
            final(self).move_stack@ == old(self).move_stack@,
    {
        self.pawn_correction_history.clear();
        self.stm_non_pawn_correction_history.clear();
        self.nstm_non_pawn_correction_history.clear();
        self.minor_correction_history.clear();
        self.major_correction_history.clear();
        self.continuation_history.clear();
        self.pawn_history.clear();
        self.tt.clear();
    }

    /// Gives the engine an empty table of another size.
    pub fn set_hash_size_mb(&mut self, megabytes: u64)
        requires
            old(self).wf(),
        ensures
            final(self).wf(),
            final(self).same_parts(*old(self)),
            final(self)@ == (Memory { tt: final(self)@.tt, ..old(self)@ }),
            final(self)@.tt == empty_table(final(self)@.tt.len()),
            final(self).nnue == old(self).nnue,
            final(self).move_stack@ == old(self).move_stack@,
            final(self)@.tt.len() <= clusters_for_mb(megabytes) < 2 * final(self)@.tt.len(),
    {
        self.tt = Table::new_for_mb(megabytes);
    }

    /// The correction of an evaluation: what the tables say counts nothing.
    pub fn get_correction_value(&self, board: &Position) -> (r: i32)
        requires
            self.wf(),
        ensures
            r == 0,
    {
        let stm: usize = board.side_to_move.index();
        let keys: &PieceKeys = &self.piece_keys;
        let side: Color = board.side_to_move;
        let pawn: i32 = self.pawn_correction_history.get(stm, keys.pawns(board));
        let minor: i32 = self.minor_correction_history.get(stm, keys.minors(board));
        let major: i32 = self.major_correction_history.get(stm, keys.majors(board));
        let stm_non_pawn: i32 = self.stm_non_pawn_correction_history.get(
            stm,
            keys.non_pawn_hash(board, side),
        );
        let nstm_non_pawn: i32 = self.nstm_non_pawn_correction_history.get(
            stm,
            keys.non_pawn_hash(board, side.opposite()),
        );
        (0 * pawn + 0 * minor + 0 * major + 0 * stm_non_pawn + 0 * nstm_non_pawn) / 64
    }

    fn scored_capture(&self, board: &Position, mv: EngineMove) -> (r: EngineMove)
        requires
            self.wf(),
            exchangeable(*board, mv),
            mv.target_type is Some,
        ensures
            r == scored_capture(self@, *board, mv),
    {
        let mut scored: EngineMove = mv;
        scored.see_score = static_exchange_evaluation(board, &mv);
        if let Some(victim) = mv.target_type {
            scored.history = self.capture_history.get(
                board.side_to_move.index(),
                mv.mv.to,
                mv.piece_type,
                victim,
            );
        }
        scored
    }

    fn scored_move(&self, board: &Position, tt_move: Option<Move>, mv: Move, pawn_hash: u64) -> (r:
        EngineMove)
        requires
            self.wf(),
            board.wf(),
            plausible(*board, mv),
            pawn_hash == pawns_hash(*board),
        ensures
            r == scored(self@, *board, tt_move, mv),
    {
        let is_tt: bool = tt_move == Some(mv);
        proof {
            lemma_move_facts(*board, mv, is_tt);
        }
        let piece: Piece = match board.piece_on(mv.from) {
            Some(piece) => piece,
            None => Piece::Pawn,
        };
        let facts: EngineMove = EngineMove::new(board, mv, piece, is_tt);
        if facts.is_capture {
            self.scored_capture(board, facts)
        } else {
            let stm: usize = board.side_to_move.index();
            let mut scored: EngineMove = facts;
            scored.history = self.quiet_history.get(stm, mv.from, mv.to) + self.pawn_history.get(
                stm,
                pawn_hash,
                mv.to,
                piece,
            );
            scored
        }
    }

    /// The legal moves with their scores, sorted by what they are.
    pub fn generate_moves(&self, board: &Position, tt_move: Option<Move>) -> (r: MoveList)
        requires
            self.wf(),
            board.valid(),
        ensures
            r@ == generated(self@, *board, tt_move),
            all_ready(*board, r@),
            r@.all().len() == legal_moves_of(*board).len() <= MAX_MOVES,
    {
        let legal: Vec<Move> = legal_moves(board);
        let pawn_hash: u64 = self.piece_keys.pawns(board);
        let mut moves: MoveList = MoveList::new(false);
        let ghost all = scored_moves(self@, *board, tt_move);
        let ghost good = |mv: EngineMove| is_good(mv);
        let ghost bad = |mv: EngineMove| is_bad(mv);
        let ghost rest = |mv: EngineMove| is_rest(mv);
        proof {
            reveal(Seq::filter);
        }
        let mut i: usize = 0;
        while i < legal.len()
            invariant
                self.wf(),
                board.wf(),
                i <= legal@.len(),
                pawn_hash == pawns_hash(*board),
                legal@ == legal_moves_of(*board),
                all == scored_moves(self@, *board, tt_move),
                good == (|mv: EngineMove| is_good(mv)),
                bad == (|mv: EngineMove| is_bad(mv)),
                rest == (|mv: EngineMove| is_rest(mv)),
                forall|k: int| 0 <= k < legal@.len() ==> plausible(*board, #[trigger] legal@[k]),
                moves.good_captures@ == all.take(i as int).filter(good),
                moves.bad_captures@ == all.take(i as int).filter(bad),
                moves.quiets@ == all.take(i as int).filter(rest),
                moves@.all().len() == i,
                all_ready(*board, moves@),
            decreases legal@.len() - i,
        {
            let mv: EngineMove = self.scored_move(board, tt_move, legal[i], pawn_hash);
            proof {
                lemma_move_facts(*board, legal@[i as int], mv.is_tt);
            }
            proof {
                let before = all.take(i as int);
                assert(all[i as int] == mv);
                assert(legal_moves_of(*board).contains(mv.mv));
                assert(ready(*board, mv));
                assert(all.take(i + 1) =~= before.push(mv));
                lemma_filter_push(before, mv, good);
                lemma_filter_push(before, mv, bad);
                lemma_filter_push(before, mv, rest);
            }
            if mv.is_capture || mv.is_tt {
                if mv.see_score >= 0 || mv.is_tt {
                    moves.good_captures.push(mv);
                } else {
                    moves.bad_captures.push(mv);
                }
            } else {
                moves.quiets.push(mv);
            }
            i = i + 1;
        }
        assert(all.take(i as int) =~= all);
        moves
    }

    /// The captures and promotions with their scores, sorted by what they
    /// are. The flag is cleared where there is any legal move.
    pub fn generate_qsearch_moves(&self, board: &Position, empty_flag: &mut bool) -> (r: MoveList)
        requires
            self.wf(),
            board.valid(),
        ensures
            r@ == generated_for_quiescence(self@, *board),
            all_ready(*board, r@),
            r@.all().len() <= legal_moves_of(*board).len() <= MAX_MOVES,
            *final(empty_flag) == (*old(empty_flag) && !can_move(*board)),
    {
        let legal: Vec<Move> = legal_moves(board);
        if legal.len() > 0 {
            *empty_flag = false;
        }
        let mut moves: MoveList = MoveList::new(true);
        let ghost all = legal_moves_of(*board).map_values(
            |mv: Move| scored_for_quiescence(self@, *board, mv),
        );
        let ghost good = |mv: EngineMove| is_good(mv);
        let ghost bad = |mv: EngineMove| is_bad(mv);
        let ghost rest = |mv: EngineMove| is_rest(mv) && mv.promotion;
        proof {
            reveal(Seq::filter);
        }
        let mut i: usize = 0;
        while i < legal.len()
            invariant
                self.wf(),
                board.wf(),
                i <= legal@.len(),
                legal@ == legal_moves_of(*board),
                all == legal_moves_of(*board).map_values(
                    |mv: Move| scored_for_quiescence(self@, *board, mv),
                ),
                good == (|mv: EngineMove| is_good(mv)),
                bad == (|mv: EngineMove| is_bad(mv)),
                rest == (|mv: EngineMove| is_rest(mv) && mv.promotion),
                forall|k: int| 0 <= k < legal@.len() ==> plausible(*board, #[trigger] legal@[k]),
                moves.good_captures@ == all.take(i as int).filter(good),
                moves.bad_captures@ == all.take(i as int).filter(bad),
                moves.quiets@ == all.take(i as int).filter(rest),
                moves@.all().len() <= i,
                all_ready(*board, moves@),
            decreases legal@.len() - i,
        {
            let mv: Move = legal[i];
            proof {
                lemma_move_facts(*board, mv, false);
            }
            let piece: Piece = match board.piece_on(mv.from) {
                Some(piece) => piece,
                None => Piece::Pawn,
            };
            let facts: EngineMove = EngineMove::new(board, mv, piece, false);
            let mv: EngineMove = if facts.is_capture {
                self.scored_capture(board, facts)
            } else {
                facts
            };
            proof {
                let before = all.take(i as int);
                assert(all[i as int] == mv);
                assert(legal_moves_of(*board).contains(mv.mv));
                assert(ready(*board, mv));
                assert(all.take(i + 1) =~= before.push(mv));
                lemma_filter_push(before, mv, good);
                lemma_filter_push(before, mv, bad);
                lemma_filter_push(before, mv, rest);
            }
            if mv.is_capture {
                if mv.see_score >= 0 {
                    moves.good_captures.push(mv);
                } else {
                    moves.bad_captures.push(mv);
                }
            } else if mv.promotion {
                moves.quiets.push(mv);
            }
            i = i + 1;
        }
        assert(all.take(i as int) =~= all);
        moves
    }
}

} // verus!
