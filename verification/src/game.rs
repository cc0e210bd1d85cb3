//! A game that the engine plays against itself: when it ends, and which of its
//! positions are kept.

use crate::bits::{count, count_of};
use crate::bulk::{white_score, white_score_of};
use crate::chess::{Color, GameStatus, Move, Position};
use crate::engine::{forgotten, Engine};
use crate::model::{Memory, MAX_SCORE};
use crate::probe::{
    as_found, completes, completes_one, flag_is_set, full_search, last_completed, probe, probed, root,
    some_search, two_searches, Probe,
};
use crate::rng::{is_quiet, is_quiet_move};
use crate::rules::{can_move, fen_text, legal_moves_of, plausible, play, played, status_of};
use crate::selfplay::{Selfplay, SelfplayConfig};
use std::collections::{HashMap, HashSet};
use std::sync::atomic::AtomicBool;
use std::sync::Arc;
use vstd::prelude::*;

verus! {

/// How a game ended.
#[derive(Clone, Copy, Debug, PartialEq, Eq, Structural)]
pub enum Outcome {
    WhiteWin,
    Draw,
    BlackWin,
}

/// Why a game ended.
#[derive(Clone, Copy, Debug, PartialEq, Eq, Structural)]
pub enum Termination {
    Checkmate,
    RulesDraw,
    Repetition,
    MaxPlies,
    ScoreAdjudication,
}

/// The outcome of a game as it is written.
pub open spec fn outcome_text(outcome: Outcome) -> Seq<char> {
    match outcome {
        Outcome::WhiteWin => "1.0"@,
        Outcome::Draw => "0.5"@,
        Outcome::BlackWin => "0.0"@,
    }
}

impl Outcome {
    /// The outcome as it is written.
    pub fn text(self) -> (r: &'static str)
        ensures
            r@ == outcome_text(self),
    {
        match self {
            Outcome::WhiteWin => "1.0",
            Outcome::Draw => "0.5",
            Outcome::BlackWin => "0.0",
        }
    }
}

/// A position that is kept, with its score for White.
pub struct PositionRecord {
    pub fen: String,
    pub white_score: i32,
}

/// A position that is kept, with its score for White. As a value.
#[verifier::ext_equal]
pub struct Record {
    pub fen: Seq<char>,
    pub white_score: int,
}

/// A game that has ended: the positions that are kept, and how many moves were
/// played.
pub struct GameResult {
    pub positions: Vec<PositionRecord>,
    pub outcome: Outcome,
    pub termination: Termination,
    pub plies: usize,
}

/// A game that has ended. As a value.
#[verifier::ext_equal]
pub struct Finished {
    pub records: Seq<Record>,
    pub outcome: Outcome,
    pub termination: Termination,
    pub plies: int,
}

/// The records of a list.
pub open spec fn records_of(positions: Seq<PositionRecord>) -> Seq<Record> {
    positions.map_values(
        |p: PositionRecord| Record { fen: p.fen@, white_score: p.white_score as int },
    )
}

impl View for GameResult {
    type V = Finished;

    open spec fn view(&self) -> Finished {
        Finished {
            records: records_of(self.positions@),
            outcome: self.outcome,
            termination: self.termination,
            plies: self.plies as int,
        }
    }
}

/// A game in progress: the position and the keys of all positions up to it, with
/// how often each has occurred, the positions that are kept with their keys, and
/// for how many plies each side has been winning.
pub struct Game {
    pub board: Position,
    pub history: Vec<u64>,
    pub repetitions: HashMap<u64, usize>,
    pub positions: Vec<PositionRecord>,
    pub emitted: HashSet<u64>,
    pub white_streak: usize,
    pub black_streak: usize,
    pub plies: usize,
}

/// A game in progress. As a value.
#[verifier::ext_equal]
pub struct Match {
    pub board: Position,
    pub keys: Seq<u64>,
    pub records: Seq<Record>,
    pub emitted: Set<u64>,
    pub white_streak: int,
    pub black_streak: int,
    pub plies: int,
}

impl View for Game {
    type V = Match;

    open spec fn view(&self) -> Match {
        Match {
            board: self.board,
            keys: self.history@,
            records: records_of(self.positions@),
            emitted: self.emitted@,
            white_streak: self.white_streak as int,
            black_streak: self.black_streak as int,
            plies: self.plies as int,
        }
    }
}

/// The game before its first move.
pub open spec fn opened(board: Position) -> Match {
    Match {
        board,
        keys: seq![board.hash],
        records: Seq::empty(),
        emitted: Set::empty(),
        white_streak: 0,
        black_streak: 0,
        plies: 0,
    }
}

/// How often a key occurs.
pub open spec fn occurrences(keys: Seq<u64>, key: u64) -> nat
    decreases keys.len(),
{
    if keys.len() == 0 {
        0
    } else {
        occurrences(keys.drop_last(), key) + if keys.last() == key {
            1nat
        } else {
            0nat
        }
    }
}

/// Whether a game is over before the next move, and how: by the rules, by the
/// third occurrence of the position, or by its length.
pub open spec fn verdict_of(g: Match, max_plies: int) -> Option<(Outcome, Termination)> {
    match status_of(g.board) {
        GameStatus::Won => Some(
            (
                if g.board.side_to_move == Color::White {
                    Outcome::BlackWin
                } else {
                    Outcome::WhiteWin
                },
                Termination::Checkmate,
            ),
        ),
        GameStatus::Drawn => Some((Outcome::Draw, Termination::RulesDraw)),
        GameStatus::Ongoing => if occurrences(g.keys, g.board.hash) >= 3 {
            Some((Outcome::Draw, Termination::Repetition))
        } else if g.plies == max_plies {
            Some((Outcome::Draw, Termination::MaxPlies))
        } else {
            None
        },
    }
}

/// Whether the position is kept: it comes after the first plies, is quiet and
/// not decided, and was not kept before.
pub open spec fn is_kept(g: Match, warmup_plies: int, mv: Move, score: int) -> bool {
    &&& g.plies >= warmup_plies
    &&& g.board.checkers == 0
    &&& count_of(g.board.spec_occupied()) > 2
    &&& -10_000 <= score <= 10_000
    &&& is_quiet(g.board, mv)
    &&& !g.emitted.contains(g.board.hash)
}

/// A score of the side to move, seen by White.
pub open spec fn for_white(board: Position, score: int) -> int {
    if board.side_to_move == Color::White {
        score
    } else {
        -score
    }
}

/// The game after a search has found a move and its score.
pub open spec fn noted(g: Match, c: Selfplay, mv: Move, score: int) -> Match {
    let white = for_white(g.board, score);
    let kept = is_kept(g, c.warmup_plies as int, mv, score);
    Match {
        records: if kept {
            g.records.push(
                Record {
                    fen: fen_text(g.board),
                    white_score: white_score_of(score, g.board.side_to_move == Color::White),
                },
            )
        } else {
            g.records
        },
        emitted: if kept {
            g.emitted.insert(g.board.hash)
        } else {
            g.emitted
        },
        white_streak: if white >= c.win_score {
            g.white_streak + 1
        } else {
            0
        },
        black_streak: if white < c.win_score && white <= -c.win_score {
            g.black_streak + 1
        } else {
            0
        },
        ..g
    }
}

/// Who wins by having been ahead for long enough.
pub open spec fn adjudged(g: Match, win_plies: int) -> Option<Outcome> {
    if g.white_streak >= win_plies {
        Some(Outcome::WhiteWin)
    } else if g.black_streak >= win_plies {
        Some(Outcome::BlackWin)
    } else {
        None
    }
}

/// The game after a move.
pub open spec fn moved(g: Match, mv: Move) -> Match {
    let board = played(g.board, mv);
    Match { board, keys: g.keys.push(board.hash), plies: g.plies + 1, ..g }
}

/// What is left of a game that has ended. A game that was too long has no
/// result, and nothing of it is kept.
pub open spec fn finished(g: Match, outcome: Outcome, termination: Termination) -> Finished {
    Finished {
        records: if termination == Termination::MaxPlies {
            Seq::empty()
        } else {
            g.records
        },
        outcome,
        termination,
        plies: g.plies,
    }
}

/// A move with the score that a search gave it, and the tables before and after
/// the search.
pub struct Choice {
    pub mv: Move,
    pub score: int,
    pub before: Memory,
    pub after: Memory,
}

/// The tables after these choices.
pub open spec fn memory_after(m: Memory, line: Seq<Choice>) -> Memory {
    if line.len() == 0 {
        m
    } else {
        line.last().after
    }
}

/// The game after these choices.
pub open spec fn after_line(c: Selfplay, start: Match, line: Seq<Choice>) -> Match
    decreases line.len(),
{
    if line.len() == 0 {
        start
    } else {
        let choice = line.last();
        let before = after_line(c, start, line.drop_last());
        moved(noted(before, c, choice.mv, choice.score), choice.mv)
    }
}

/// Whether a choice is what searching the game's position comes to: a search
/// completes a depth with it, one with the count of nodes, or one to depth one
/// after a search that found nothing; and the tables are those that the searches
/// leave.
pub open spec fn is_found(engine: Engine, c: Selfplay, g: Match, choice: Choice) -> bool {
    let at = root(g.board, g.keys);
    let found = (choice.mv, choice.score);
    ||| {
        &&& completes(engine, choice.before, at, Some(c.nodes), i32::MAX as int, found)
        &&& some_search(engine, choice.before, at, Some(found), choice.after)
    }
    ||| {
        &&& completes_one(engine, at, found)
        &&& two_searches(engine, choice.before, at, Some(found), choice.after)
    }
}

/// Whether a choice can be made: the game is not over, the move is legal, and
/// a search finds it with its score.
pub open spec fn can_choose(engine: Engine, c: Selfplay, g: Match, choice: Choice) -> bool {
    &&& verdict_of(g, c.max_plies as int) is None
    &&& legal_moves_of(g.board).contains(choice.mv)
    &&& -MAX_SCORE <= choice.score <= MAX_SCORE
    &&& is_found(engine, c, g, choice)
}

/// Whether these choices can be made one after the other, without an end.
pub open spec fn is_line(
    engine: Engine,
    c: Selfplay,
    m: Memory,
    start: Match,
    line: Seq<Choice>,
) -> bool
    decreases line.len(),
{
    line.len() == 0 || {
        let choice = line.last();
        let before = after_line(c, start, line.drop_last());
        &&& is_line(engine, c, m, start, line.drop_last())
        &&& can_choose(engine, c, before, choice)
        &&& choice.before == memory_after(m, line.drop_last())
        &&& adjudged(noted(before, c, choice.mv, choice.score), c.win_plies as int) is None
    }
}

/// Whether a game that starts so can end so after a line of choices, and leave
/// these tables: it is over, or one more choice is enough for a side to have
/// won.
pub open spec fn ends_after(
    engine: Engine,
    c: Selfplay,
    m: Memory,
    start: Match,
    line: Seq<Choice>,
    end: Finished,
    after: Memory,
) -> bool {
    let g = after_line(c, start, line);
    &&& is_line(engine, c, m, start, line)
    &&& match verdict_of(g, c.max_plies as int) {
        Some((outcome, termination)) => end == finished(g, outcome, termination) && after
            == memory_after(m, line),
        None => exists|choice: Choice| #[trigger]
            can_choose(engine, c, g, choice) && wins_with(c, m, g, line, choice, end, after),
    }
}

/// Whether one more choice after a line is enough for a side to have won.
pub open spec fn wins_with(
    c: Selfplay,
    m: Memory,
    g: Match,
    line: Seq<Choice>,
    choice: Choice,
    end: Finished,
    after: Memory,
) -> bool {
    let n = noted(g, c, choice.mv, choice.score);
    &&& choice.before == memory_after(m, line)
    &&& choice.after == after
    &&& adjudged(n, c.win_plies as int) matches Some(outcome) && end == finished(
        n,
        outcome,
        Termination::ScoreAdjudication,
    )
}

/// The game that an engine plays which nothing cuts short, and its tables
/// after it. There is none where a search does not even complete depth one.
pub open spec fn game_from(engine: Engine, m: Memory, c: Selfplay, g: Match) -> (
    Memory,
    Option<Finished>,
)
    decreases c.max_plies - g.plies,
        when g.plies <= c.max_plies
{
    match verdict_of(g, c.max_plies as int) {
        Some((outcome, termination)) => (m, Some(finished(g, outcome, termination))),
        None => {
            let p = probed(engine, m, root(g.board, g.keys), c.nodes);
            match p.found {
                None => (p.memory, None),
                Some((mv, score)) => {
                    let n = noted(g, c, mv, score);
                    match adjudged(n, c.win_plies as int) {
                        Some(outcome) => (
                            p.memory,
                            Some(finished(n, outcome, Termination::ScoreAdjudication)),
                        ),
                        None => game_from(engine, p.memory, c, moved(n, mv)),
                    }
                },
            }
        },
    }
}

/// Every record has a score that is not decided, no game is too long, no more
/// is kept than there were positions, and nothing is kept of a game that was
/// stopped for its length.
pub proof fn finished_games_are_bounded(
    engine: Engine,
    c: Selfplay,
    m: Memory,
    board: Position,
    line: Seq<Choice>,
    end: Finished,
    after: Memory,
)
    requires
        ends_after(engine, c, m, opened(board), line, end, after),
    ensures
        end.plies <= c.max_plies,
        end.records.len() <= end.plies + 1,
        forall|i: int|
            0 <= i < end.records.len() ==> -10_000 <= (#[trigger] end.records[i]).white_score
                <= 10_000,
        end.termination == Termination::MaxPlies ==> end.records.len() == 0,
{
    lemma_line(engine, c, m, board, line);
    let g = after_line(c, opened(board), line);
    if verdict_of(g, c.max_plies as int) is None {
        let choice = choose|choice: Choice| #[trigger]
            can_choose(engine, c, g, choice) && wins_with(c, m, g, line, choice, end, after);
        assert(can_choose(engine, c, g, choice));
        lemma_noted(c, g, choice);
    }
}

/// No position is kept twice.
pub proof fn kept_positions_differ(c: Selfplay, board: Position, line: Seq<Choice>)
    ensures
        after_line(c, opened(board), line).emitted.finite(),
        after_line(c, opened(board), line).emitted.len() == after_line(
            c,
            opened(board),
            line,
        ).records.len(),
    decreases line.len(),
{
    if line.len() > 0 {
        kept_positions_differ(c, board, line.drop_last());
    }
}

/// A game of so many plies with records that are not decided.
pub open spec fn in_bounds(c: Selfplay, g: Match) -> bool {
    &&& 0 <= g.plies <= c.max_plies
    &&& g.records.len() <= g.plies
    &&& forall|i: int|
        0 <= i < g.records.len() ==> -10_000 <= (#[trigger] g.records[i]).white_score <= 10_000
}

proof fn lemma_noted(c: Selfplay, g: Match, choice: Choice)
    requires
        in_bounds(c, g),
    ensures
        ({
            let n = noted(g, c, choice.mv, choice.score);
            &&& n.plies == g.plies
            &&& n.records.len() <= g.plies + 1
            &&& forall|i: int|
                0 <= i < n.records.len() ==> -10_000 <= (#[trigger] n.records[i]).white_score
                    <= 10_000
        }),
{
}

proof fn lemma_line(engine: Engine, c: Selfplay, m: Memory, board: Position, line: Seq<Choice>)
    requires
        is_line(engine, c, m, opened(board), line),
    ensures
        in_bounds(c, after_line(c, opened(board), line)),
    decreases line.len(),
{
    if line.len() > 0 {
        let before = after_line(c, opened(board), line.drop_last());
        lemma_line(engine, c, m, board, line.drop_last());
        lemma_noted(c, before, line.last());
    }
}

/// How often a table says that a key occurs.
pub open spec fn noted_for(repetitions: Map<u64, usize>, key: u64) -> nat {
    if repetitions.contains_key(key) {
        repetitions[key] as nat
    } else {
        0
    }
}

/// Whether a table says how often each key occurs.
pub open spec fn counts(repetitions: Map<u64, usize>, keys: Seq<u64>) -> bool {
    forall|key: u64| #[trigger] noted_for(repetitions, key) == occurrences(keys, key)
}

proof fn lemma_occurrences(keys: Seq<u64>, key: u64)
    ensures
        occurrences(keys, key) <= keys.len(),
    decreases keys.len(),
{
    if keys.len() > 0 {
        lemma_occurrences(keys.drop_last(), key);
    }
}

/// A table counts one more occurrence when the key comes once more.
proof fn lemma_counted(repetitions: Map<u64, usize>, keys: Seq<u64>, key: u64, count: usize)
    requires
        counts(repetitions, keys),
        count == noted_for(repetitions, key) + 1,
    ensures
        counts(repetitions.insert(key, count), keys.push(key)),
{
    let after = repetitions.insert(key, count);
    assert forall|other: u64| #[trigger] noted_for(after, other) == occurrences(
        keys.push(key),
        other,
    ) by {
        assert(keys.push(key).drop_last() =~= keys);
        assert(noted_for(repetitions, other) == occurrences(keys, other));
    }
}

impl Game {
    /// A streak is never longer than the game, and the occurrences are those of
    /// the keys.
    pub open spec fn wf(self) -> bool {
        &&& self.board.valid()
        &&& counts(self.repetitions@, self.history@)
        &&& self.white_streak <= self.plies
        &&& self.black_streak <= self.plies
    }

    /// The game before its first move.
    pub fn new(board: Position) -> (r: Game)
        requires
            board.valid(),
        ensures
            r.wf(),
            r@ == opened(board),
    {
        broadcast use vstd::std_specs::hash::group_hash_axioms;

        let mut repetitions: HashMap<u64, usize> = HashMap::new();
        repetitions.insert(board.hash, 1);
        proof {
            let none = Map::<u64, usize>::empty();
            assert(counts(none, Seq::empty()));
            lemma_counted(none, Seq::empty(), board.hash, 1);
            assert(Seq::<u64>::empty().push(board.hash) =~= seq![board.hash]);
        }
        let r = Game {
            board,
            history: vec![board.hash],
            repetitions,
            positions: Vec::new(),
            emitted: HashSet::new(),
            white_streak: 0,
            black_streak: 0,
            plies: 0,
        };
        assert(r@ =~= opened(board));
        r
    }

    /// Whether the game is over before the next move, and how.
    pub fn verdict(&self, max_plies: usize) -> (r: Option<(Outcome, Termination)>)
        requires
            self.wf(),
        ensures
            r == verdict_of(self@, max_plies as int),
            forall|mv: Move| #[trigger]
                legal_moves_of(self.board).contains(mv) ==> plausible(self.board, mv),
    {
        broadcast use vstd::std_specs::hash::group_hash_axioms;

        match self.board.status() {
            GameStatus::Won => Some(
                (
                    if self.board.side_to_move == Color::White {
                        Outcome::BlackWin
                    } else {
                        Outcome::WhiteWin
                    },
                    Termination::Checkmate,
                ),
            ),
            GameStatus::Drawn => Some((Outcome::Draw, Termination::RulesDraw)),
            GameStatus::Ongoing => {
                let occurred: usize = match self.repetitions.get(&self.board.hash) {
                    Some(count) => *count,
                    None => 0,
                };
                assert(occurred == noted_for(self.repetitions@, self.board.hash));
                if occurred >= 3 {
                    Some((Outcome::Draw, Termination::Repetition))
                } else if self.plies == max_plies {
                    Some((Outcome::Draw, Termination::MaxPlies))
                } else {
                    None
                }
            },
        }
    }

    /// Takes the move that a search has found and its score: keeps the
    /// position if it is to be kept, and says who has won by being ahead.
    pub fn note(&mut self, config: &SelfplayConfig, mv: Move, score: i32) -> (r: Option<Outcome>)
        requires
            old(self).wf(),
            old(self).plies < usize::MAX,
            mv.from < 64,
            mv.to < 64,
        ensures
            final(self)@ == noted(old(self)@, config@, mv, score as int),
            r == adjudged(final(self)@, config.win_plies as int),
            counts(final(self).repetitions@, final(self).history@),
            final(self).white_streak <= final(self).plies + 1,
            final(self).black_streak <= final(self).plies + 1,
    {
        broadcast use vstd::std_specs::hash::group_hash_axioms;

        let ghost before = self@;
        let white_to_move: bool = self.board.side_to_move == Color::White;
        let white: i64 = if white_to_move {
            score as i64
        } else {
            -(score as i64)
        };
        if self.plies >= config.warmup_plies && self.board.checkers == 0 && count(
            self.board.occupied(),
        ) > 2 && -10_000 <= score && score <= 10_000 && is_quiet_move(&self.board, mv)
            && !self.emitted.contains(&self.board.hash) {
            self.emitted.insert(self.board.hash);
            let record = PositionRecord {
                fen: self.board.fen(),
                white_score: white_score(score, white_to_move),
            };
            let ghost value = Record { fen: record.fen@, white_score: record.white_score as int };
            let ghost kept = self.positions@;
            self.positions.push(record);
            assert(records_of(self.positions@) =~= records_of(kept).push(value));
        }
        if white >= config.win_score as i64 {
            self.white_streak = self.white_streak + 1;
            self.black_streak = 0;
        } else if white <= -(config.win_score as i64) {
            self.black_streak = self.black_streak + 1;
            self.white_streak = 0;
        } else {
            self.white_streak = 0;
            self.black_streak = 0;
        }
        assert(self@ =~= noted(before, config@, mv, score as int));
        if self.white_streak >= config.win_plies {
            Some(Outcome::WhiteWin)
        } else if self.black_streak >= config.win_plies {
            Some(Outcome::BlackWin)
        } else {
            None
        }
    }

    /// Plays a move.
    pub fn advance(&mut self, mv: Move)
        requires
            old(self).board.valid(),
            counts(old(self).repetitions@, old(self).history@),
            old(self).white_streak <= old(self).plies + 1,
            old(self).black_streak <= old(self).plies + 1,
            old(self).plies < usize::MAX,
            legal_moves_of(old(self).board).contains(mv),
        ensures
            final(self).wf(),
            final(self)@ == moved(old(self)@, mv),
    {
        broadcast use vstd::std_specs::hash::group_hash_axioms;

        let ghost before = self@;
        self.board = play(&self.board, mv);
        self.plies = self.plies + 1;
        let key: u64 = self.board.hash;
        let occurred: usize = match self.repetitions.get(&key) {
            Some(count) => *count,
            None => 0,
        };
        let ghost keys = self.history@;
        self.history.push(key);
        let length: usize = self.history.len();
        proof {
            assert(occurred == noted_for(self.repetitions@, key));
            lemma_occurrences(keys, key);
            assert(length == keys.len() + 1);
            lemma_counted(self.repetitions@, keys, key, (occurred + 1) as usize);
        }
        self.repetitions.insert(key, occurred + 1);
        assert(self@ =~= moved(before, mv));
    }

    /// What is left of the game when it has ended.
    pub fn finish(self, outcome: Outcome, termination: Termination) -> (r: GameResult)
        ensures
            r@ == finished(self@, outcome, termination),
    {
        let positions: Vec<PositionRecord> = if termination == Termination::MaxPlies {
            Vec::new()
        } else {
            self.positions
        };
        let r = GameResult { positions, outcome, termination, plies: self.plies };
        assert(r@ =~= finished(self@, outcome, termination));
        r
    }
}

/// Finds a move and its score with a count of nodes, or with depth one where
/// the count is too small.
pub fn search_position(
    engine: &mut Engine,
    board: &Position,
    history: &Vec<u64>,
    nodes: u64,
    cancelled: &Arc<AtomicBool>,
) -> (r: Probe)
    requires
        old(engine).wf(),
        board.valid(),
    ensures
        final(engine).wf(),
        final(engine).same_parts(*old(engine)),
        r.found matches Some((mv, score)) ==> legal_moves_of(*board).contains(mv) && -MAX_SCORE
            <= score <= MAX_SCORE,
        can_move(*board) ==> {
            let at = root(*board, history@);
            if r.retried {
                two_searches(*old(engine), old(engine)@, at, as_found(r.found), final(engine)@)
            } else {
                some_search(*old(engine), old(engine)@, at, as_found(r.found), final(engine)@)
            }
        },
        r.found matches Some((mv, score)) ==> {
            let at = root(*board, history@);
            if r.retried {
                completes_one(*old(engine), at, (mv, score as int))
            } else {
                completes(
                    *old(engine),
                    old(engine)@,
                    at,
                    Some(nodes),
                    i32::MAX as int,
                    (mv, score as int),
                )
            }
        },
        !r.cut_short ==> {
            let p = probed(*old(engine), old(engine)@, root(*board, history@), nodes);
            &&& r.retried == p.retried
            &&& final(engine)@ == p.memory
            &&& match r.found {
                Some((mv, score)) => p.found == Some((mv, score as int)),
                None => p.found is None,
            }
        },
{
    probe(engine, board, history.clone(), nodes, cancelled)
}

/// Engines with the same parts search alike.
proof fn lemma_same_searches(
    a: Engine,
    b: Engine,
    c: Selfplay,
    g: Match,
    choice: Choice,
    retried: bool,
)
    requires
        a.same_parts(b),
        ({
            let at = root(g.board, g.keys);
            let found = (choice.mv, choice.score);
            if retried {
                &&& completes_one(a, at, found)
                &&& two_searches(a, choice.before, at, Some(found), choice.after)
            } else {
                &&& completes(a, choice.before, at, Some(c.nodes), i32::MAX as int, found)
                &&& some_search(a, choice.before, at, Some(found), choice.after)
            }
        }),
    ensures
        is_found(b, c, g, choice),
{
    let at = root(g.board, g.keys);
    let found = (choice.mv, choice.score);
    assert forall|m: Memory, nodes: Option<u64>, depth: int|
        full_search(a, m, at, nodes, depth) == #[trigger] full_search(b, m, at, nodes, depth) by {}
    assert forall|m: Memory, f: Option<(Move, int)>, after: Memory|
        some_search(a, m, at, f, after) implies #[trigger] some_search(b, m, at, f, after) by {
        let (limit, depth) = choose|limit: Option<u64>, depth: int|
            {
                let end = #[trigger] full_search(a, m, at, limit, depth);
                f == last_completed(end.1) && after == end.0.memory
            };
        assert(full_search(b, m, at, limit, depth) == full_search(a, m, at, limit, depth));
    }
    if retried {
        let m = choose|m: Memory| #[trigger] completes(a, m, at, None, 1, found);
        assert(completes(b, m, at, None, 1, found));
        let between = choose|between: Memory|
            {
                &&& #[trigger] some_search(a, choice.before, at, None, between)
                &&& some_search(a, between, at, Some(found), choice.after)
            };
        assert(some_search(b, choice.before, at, None, between));
        assert(some_search(b, between, at, Some(found), choice.after));
    } else {
        assert(completes(b, choice.before, at, Some(c.nodes), i32::MAX as int, found));
    }
}

/// What came of a game: its result if it has one, and whether the flag cut it
/// short.
pub struct Played {
    pub game: Option<GameResult>,
    pub cut_short: bool,
}

/// Plays a game from a position. The engine starts it without memory of other
/// games.
pub fn play_game(
    engine: &mut Engine,
    board: Position,
    config: &SelfplayConfig,
    cancelled: &Arc<AtomicBool>,
) -> (r: Played)
    requires
        old(engine).wf(),
        board.valid(),
    ensures
        final(engine).wf(),
        final(engine).same_parts(*old(engine)),
        r.game matches Some(game) ==> exists|line: Seq<Choice>|
            ends_after(
                *old(engine),
                config@,
                forgotten(old(engine)@),
                opened(board),
                line,
                game@,
                final(engine)@,
            ),
        !r.cut_short ==> {
            let (m, end) = game_from(
                *old(engine),
                forgotten(old(engine)@),
                config@,
                opened(board),
            );
            &&& final(engine)@ == m
            &&& match r.game {
                Some(game) => end == Some(game@),
                None => end is None,
            }
        },
{
    engine.new_game();
    let mut game: Game = Game::new(board);
    let mut cut_short: bool = false;
    let ghost c = config@;
    let ghost start = opened(board);
    let ghost m = forgotten(old(engine)@);
    let ghost goal = game_from(*old(engine), forgotten(old(engine)@), c, start);
    let ghost mut line: Seq<Choice> = Seq::empty();
    loop
        invariant
            engine.wf(),
            engine.same_parts(*old(engine)),
            game.wf(),
            game.plies <= config.max_plies,
            c == config@,
            start == opened(board),
            m == forgotten(old(engine)@),
            is_line(*old(engine), c, m, start, line),
            engine@ == memory_after(m, line),
            game@ == after_line(c, start, line),
            goal == game_from(*old(engine), forgotten(old(engine)@), c, start),
            !cut_short ==> goal == game_from(*old(engine), engine@, c, game@),
        decreases config.max_plies - game.plies,
    {
        if flag_is_set(cancelled) {
            return Played { game: None, cut_short: true };
        }
        if let Some((outcome, termination)) = game.verdict(config.max_plies) {
            let result: GameResult = game.finish(outcome, termination);
            assert(ends_after(*old(engine), c, m, start, line, result@, engine@));
            return Played { game: Some(result), cut_short };
        }
        let ghost searcher = *engine;
        let p: Probe = search_position(
            engine,
            &game.board,
            &game.history,
            config.nodes,
            cancelled,
        );
        cut_short = cut_short || p.cut_short;
        let (mv, score): (Move, i32) = match p.found {
            Some((mv, score)) => (mv, score),
            None => {
                return Played { game: None, cut_short };
            },
        };
        let ghost choice = Choice {
            mv,
            score: score as int,
            before: searcher@,
            after: engine@,
        };
        let ghost before = game@;
        assert(can_choose(*old(engine), c, before, choice)) by {
            lemma_same_searches(searcher, *old(engine), c, before, choice, p.retried);
        }
        if let Some(outcome) = game.note(config, mv, score) {
            let result: GameResult = game.finish(outcome, Termination::ScoreAdjudication);
            assert(ends_after(*old(engine), c, m, start, line, result@, engine@));
            return Played { game: Some(result), cut_short };
        }
        game.advance(mv);
        proof {
            let longer = line.push(choice);
            assert(longer.drop_last() =~= line);
            line = longer;
        }
    }
}

} // verus!
