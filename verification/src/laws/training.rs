//! What is written as training data, and how the games for it end.

use crate::bulk::{concludes, is_calm, white_result_of, white_score_of, Entry, Evaluated, WorkItem};
use crate::chess::{Color, Move, Piece, Position};
use crate::game::{
    adjudged, after_line, finished, game_from, moved, noted, occurrences, opened, outcome_text,
    verdict_of, Choice, Finished, Match, Outcome, Termination,
};
use crate::engine::Engine;
use crate::laws::evaluation::men;
use crate::model::Memory;
use crate::probe::{probed, root};
use crate::rules::{fen_text, legal_moves_of};
use crate::selfplay::{lines_of, tallied, wanted, Selfplay, Tally};
use crate::text::signed_decimal;
use vstd::prelude::*;

verus! {

/// A line gives the position, the score for White and the result of the game: a
/// score of the side to move is written as it is where White is to move, and
/// with the other sign where Black is. What is beyond 30000 is written as that.
pub proof fn lines_are_scored_for_white(
    worker: usize,
    item: WorkItem,
    score: i32,
    cancelled: bool,
    r: Evaluated,
)
    requires
        concludes(worker, item, Some(score), cancelled, r),
    ensures
        r matches Evaluated::Line(line) && {
            &&& item.board.side_to_move == Color::White && -30_000 <= score <= 30_000 ==> line@
                == item.fen@ + " | "@ + signed_decimal(score as int) + " | "@ + item.result@
            &&& item.board.side_to_move == Color::Black && -30_000 <= score <= 30_000 ==> line@
                == item.fen@ + " | "@ + signed_decimal(-score) + " | "@ + item.result@
            &&& item.board.side_to_move == Color::White && score > 30_000 ==> line@ == item.fen@
                + " | "@ + signed_decimal(30_000) + " | "@ + item.result@
            &&& item.board.side_to_move == Color::Black && score > 30_000 ==> line@ == item.fen@
                + " | "@ + signed_decimal(-30_000) + " | "@ + item.result@
            &&& item.board.side_to_move == Color::White && score < -30_000 ==> line@ == item.fen@
                + " | "@ + signed_decimal(-30_000) + " | "@ + item.result@
            &&& item.board.side_to_move == Color::Black && score < -30_000 ==> line@ == item.fen@
                + " | "@ + signed_decimal(30_000) + " | "@ + item.result@
        },
{
}

/// A position without a score is never written, and one with a score always is.
pub proof fn only_scored_positions_are_written(
    worker: usize,
    item: WorkItem,
    score: Option<i32>,
    cancelled: bool,
    r: Evaluated,
)
    requires
        concludes(worker, item, score, cancelled, r),
    ensures
        r is Line <==> score is Some,
        r is Cancelled <==> score is None && cancelled,
        r is Failed <==> score is None && !cancelled,
{
}

/// The same game is worth the opposite to the two sides: a score or a result for
/// one side to move is that of the other with the opposite sign.
pub proof fn scores_and_results_turn_with_the_side(score: int, result: int)
    ensures
        white_score_of(score, false) == white_score_of(-score, true),
        white_score_of(-score, true) == -white_score_of(score, true),
        0 <= score <= 30_000 ==> white_score_of(score, true) == score,
        score >= 30_000 ==> white_score_of(score, true) == 30_000,
        result == 1 ==> white_result_of(result, true) == Ok::<Seq<char>, Seq<char>>("1.0"@)
            && white_result_of(result, false) == Ok::<Seq<char>, Seq<char>>("0.0"@),
        result == -1 ==> white_result_of(result, true) == Ok::<Seq<char>, Seq<char>>("0.0"@)
            && white_result_of(result, false) == Ok::<Seq<char>, Seq<char>>("1.0"@),
        result == 0 ==> white_result_of(result, true) == Ok::<Seq<char>, Seq<char>>("0.5"@)
            && white_result_of(result, false) == Ok::<Seq<char>, Seq<char>>("0.5"@),
        white_result_of(result, true) is Ok <==> -1 <= result <= 1,
        white_result_of(result, false) is Ok <==> -1 <= result <= 1,
{
}

/// An entry that is kept without the tactical ones has left the opening, is not
/// in check, has no extreme score, and neither promotes, castles nor captures;
/// and every such entry is kept.
pub proof fn quiet_entries_are_late_and_calm(entry: Entry)
    ensures
        is_calm(entry) ==> entry.ply >= 16,
        is_calm(entry) ==> !entry.in_check,
        is_calm(entry) ==> entry.score <= 10_000 && entry.score >= -10_000,
        is_calm(entry) ==> entry.normal_move && entry.target_empty,
        !is_calm(entry) ==> entry.ply <= 15 || entry.in_check || entry.score > 10_000
            || entry.score < -10_000 || !entry.normal_move || !entry.target_empty,
{
}

/// The score of a choice, seen by White.
pub open spec fn seen_by_white(board: Position, score: int) -> int {
    match board.side_to_move {
        Color::White => score,
        Color::Black => -score,
    }
}

/// The scores of the last choices of a line, up to so many, seen by White, are
/// all on one side of a bound.
pub open spec fn ahead_throughout(
    c: Selfplay,
    start: Match,
    line: Seq<Choice>,
    plies: int,
    white: bool,
) -> bool {
    forall|i: int|
        line.len() - plies <= i < line.len() && 0 <= i ==> {
            let seen = seen_by_white(
                after_line(c, start, #[trigger] line.take(i)).board,
                line[i].score,
            );
            if white {
                seen >= c.win_score
            } else {
                seen <= -c.win_score
            }
        }
}

proof fn lemma_streaks(c: Selfplay, board: Position, line: Seq<Choice>)
    ensures
        ({
            let g = after_line(c, opened(board), line);
            &&& 0 <= g.white_streak <= line.len()
            &&& 0 <= g.black_streak <= line.len()
            &&& ahead_throughout(c, opened(board), line, g.white_streak, true)
            &&& ahead_throughout(c, opened(board), line, g.black_streak, false)
        }),
    decreases line.len(),
{
    let start = opened(board);
    if line.len() > 0 {
        let before = line.drop_last();
        let n = before.len() as int;
        let g = after_line(c, start, before);
        lemma_streaks(c, board, before);
        assert(line.take(n) =~= before);
        assert forall|i: int| 0 <= i < n implies #[trigger] line.take(i) == before.take(i) by {
            assert(line.take(i) =~= before.take(i));
        }
        let after = after_line(c, start, line);
        assert forall|i: int|
            line.len() - after.white_streak <= i < line.len() && 0 <= i implies seen_by_white(
            after_line(c, start, #[trigger] line.take(i)).board,
            line[i].score,
        ) >= c.win_score by {
            if i < n {
                assert(before.take(i) == line.take(i));
                assert(before[i] == line[i]);
            }
        }
        assert forall|i: int|
            line.len() - after.black_streak <= i < line.len() && 0 <= i implies seen_by_white(
            after_line(c, start, #[trigger] line.take(i)).board,
            line[i].score,
        ) <= -c.win_score by {
            if i < n {
                assert(before.take(i) == line.take(i));
                assert(before[i] == line[i]);
            }
        }
    }
}

/// A game is given to a side only if it was ahead by enough on each of its last
/// plies, for as many as are asked for: one level score in between is enough for
/// the game to go on. `line` is the game so far, with the last choice in it.
pub proof fn a_side_wins_only_by_staying_ahead(c: Selfplay, board: Position, line: Seq<Choice>)
    ensures
        ({
            let g = after_line(c, opened(board), line);
            &&& adjudged(g, c.win_plies as int) == Some(Outcome::WhiteWin) ==> line.len()
                >= c.win_plies && ahead_throughout(
                c,
                opened(board),
                line,
                c.win_plies as int,
                true,
            )
            &&& adjudged(g, c.win_plies as int) == Some(Outcome::BlackWin) ==> line.len()
                >= c.win_plies && ahead_throughout(
                c,
                opened(board),
                line,
                c.win_plies as int,
                false,
            )
            &&& adjudged(g, c.win_plies as int) != Some(Outcome::Draw)
        }),
{
    lemma_streaks(c, board, line);
}

/// The same, of a game before the choice that ends it is played: that choice and
/// those before it were all ahead by enough.
pub proof fn the_last_choice_completes_a_streak(
    c: Selfplay,
    board: Position,
    line: Seq<Choice>,
    choice: Choice,
)
    requires
        c.win_plies > 0,
    ensures
        ({
            let g = after_line(c, opened(board), line);
            let seen = seen_by_white(g.board, choice.score);
            let n = noted(g, c, choice.mv, choice.score);
            &&& adjudged(n, c.win_plies as int) == Some(Outcome::WhiteWin) ==> seen >= c.win_score
                && line.len() >= c.win_plies - 1 && ahead_throughout(
                c,
                opened(board),
                line,
                c.win_plies - 1,
                true,
            )
            &&& adjudged(n, c.win_plies as int) == Some(Outcome::BlackWin) ==> seen <= -c.win_score
                && line.len() >= c.win_plies - 1 && ahead_throughout(
                c,
                opened(board),
                line,
                c.win_plies - 1,
                false,
            )
            &&& -c.win_score < seen < c.win_score ==> adjudged(n, c.win_plies as int) is None
        }),
{
    lemma_streaks(c, board, line);
}

proof fn lemma_long_streak(c: Selfplay, board: Position, line: Seq<Choice>, plies: int, white: bool)
    requires
        c.win_score > 0,
        0 <= plies <= line.len(),
        ahead_throughout(c, opened(board), line, plies, white),
    ensures
        white ==> after_line(c, opened(board), line).white_streak >= plies,
        !white ==> after_line(c, opened(board), line).black_streak >= plies,
    decreases plies,
{
    let start = opened(board);
    lemma_streaks(c, board, line);
    if plies > 0 {
        let before = line.drop_last();
        let n = before.len() as int;
        assert(line.take(n) =~= before);
        assert forall|i: int|
            before.len() - (plies - 1) <= i < before.len() && 0 <= i implies ({
            let seen = seen_by_white(
                after_line(c, start, #[trigger] before.take(i)).board,
                before[i].score,
            );
            if white {
                seen >= c.win_score
            } else {
                seen <= -c.win_score
            }
        }) by {
            assert(line.take(i) =~= before.take(i));
            assert(line[i] == before[i]);
        }
        lemma_long_streak(c, board, before, plies - 1, white);
        let seen = seen_by_white(after_line(c, start, line.take(n)).board, line[n].score);
        assert(if white {
            seen >= c.win_score
        } else {
            seen <= -c.win_score
        });
    }
}

/// A side that was ahead by enough on each of its last plies, for as many as are
/// asked for, has won.
pub proof fn a_side_that_stays_ahead_wins(
    c: Selfplay,
    board: Position,
    line: Seq<Choice>,
    white: bool,
)
    requires
        c.win_score > 0,
        c.win_plies > 0,
        line.len() >= c.win_plies,
        ahead_throughout(c, opened(board), line, c.win_plies as int, white),
    ensures
        adjudged(after_line(c, opened(board), line), c.win_plies as int) == Some(
            if white {
                Outcome::WhiteWin
            } else {
                Outcome::BlackWin
            },
        ),
{
    lemma_long_streak(c, board, line, c.win_plies as int, white);
    lemma_streaks(c, board, line);
    let start = opened(board);
    let g = after_line(c, start, line);
    if !white && g.white_streak >= c.win_plies {
        let i = line.len() - 1;
        assert(line.len() - g.white_streak <= i);
        let seen = seen_by_white(after_line(c, start, line.take(i)).board, line[i].score);
        assert(seen >= c.win_score);
        assert(seen <= -c.win_score);
    }
}

/// A game ends by the rules exactly where the side to move has no legal move,
/// which loses it in check and draws it else, or after a hundred plies without a
/// capture or a pawn move; or else where its position stands there for the third
/// time, or at its greatest length. These are draws.
pub proof fn games_end_by_the_rules(g: Match, max_plies: int)
    ensures
        ({
            let stuck = legal_moves_of(g.board).len() == 0;
            let mated = stuck && g.board.checkers != 0;
            let quiet = (stuck && g.board.checkers == 0) || (!stuck && g.board.halfmove_clock
                >= 100);
            let thrice = occurrences(g.keys, g.board.hash) >= 3;
            let verdict = verdict_of(g, max_plies);
            &&& mated && g.board.side_to_move == Color::White ==> verdict == Some(
                (Outcome::BlackWin, Termination::Checkmate),
            )
            &&& mated && g.board.side_to_move == Color::Black ==> verdict == Some(
                (Outcome::WhiteWin, Termination::Checkmate),
            )
            &&& quiet ==> verdict == Some((Outcome::Draw, Termination::RulesDraw))
            &&& !mated && !quiet && thrice ==> verdict == Some(
                (Outcome::Draw, Termination::Repetition),
            )
            &&& !mated && !quiet && !thrice && g.plies == max_plies ==> verdict == Some(
                (Outcome::Draw, Termination::MaxPlies),
            )
            &&& !mated && !quiet && !thrice && g.plies != max_plies ==> verdict is None
        }),
{
}

/// A position is kept only after the first plies, outside check, with more than
/// the two kings, a score that is not extreme, a move that neither captures nor
/// promotes, and once; and every such position is kept, with its FEN and its
/// score for White.
pub proof fn kept_positions_are_quiet(g: Match, c: Selfplay, mv: Move, score: int)
    requires
        g.board.wf(),
        0 <= mv.from < 64,
        0 <= mv.to < 64,
    ensures
        ({
            let captures = g.board.man_at(mv.to as int) is Some || (g.board.piece_at(
                mv.from as int,
            ) == Some(Piece::Pawn) && mv.from % 8 != mv.to % 8);
            let kept = g.plies >= c.warmup_plies && g.board.checkers == 0 && men(g.board) > 2
                && -10_000 <= score && score <= 10_000 && !captures && mv.promotion is None
                && !g.emitted.contains(g.board.hash);
            let n = noted(g, c, mv, score);
            &&& !kept ==> n.records == g.records && n.emitted == g.emitted
            &&& kept ==> n.records.len() == g.records.len() + 1 && n.records.drop_last()
                == g.records && n.records.last().fen == fen_text(g.board)
                && n.records.last().white_score == seen_by_white(g.board, score)
            &&& kept ==> n.emitted == g.emitted.insert(g.board.hash)
            &&& n.board == g.board && n.keys == g.keys && n.plies == g.plies
        }),
{
    crate::laws::evaluation::lemma_men_counted(g.board);
    assert(g.board.piece_at(mv.to as int) is Some <==> g.board.color_at(mv.to as int) is Some);
    let n = noted(g, c, mv, score);
    assert(n.records.len() == g.records.len() + 1 ==> n.records.drop_last() =~= g.records);
}

/// A game that was stopped for its length leaves nothing, and every other all
/// that was kept of it; each is written with the result for White.
pub proof fn results_are_written_for_white(g: Match, outcome: Outcome, termination: Termination)
    ensures
        finished(g, outcome, termination).records == if termination == Termination::MaxPlies {
            Seq::empty()
        } else {
            g.records
        },
        finished(g, outcome, termination).plies == g.plies,
        outcome_text(Outcome::WhiteWin) == "1.0"@,
        outcome_text(Outcome::Draw) == "0.5"@,
        outcome_text(Outcome::BlackWin) == "0.0"@,
        forall|i: int|
            0 <= i < g.records.len() ==> #[trigger] lines_of(
                finished(g, outcome, Termination::Checkmate),
                g.records.len(),
            )[i] == g.records[i].fen + " | "@ + signed_decimal(g.records[i].white_score) + " | "@
                + outcome_text(outcome),
{
}

/// No more lines are taken of a game than are still wanted, and all that are.
pub proof fn no_more_is_written_than_wanted(game: Finished, remaining: int)
    requires
        remaining >= 0,
    ensures
        wanted(game, remaining) <= remaining,
        wanted(game, remaining) <= game.records.len(),
        wanted(game, remaining) == remaining || wanted(game, remaining) == game.records.len(),
{
}

/// Each game is counted under its own winner and its own end.
pub proof fn each_game_is_counted_where_it_belongs(t: Tally, game: Finished)
    requires
        t.games < u64::MAX,
        t.white_wins < u64::MAX,
        t.draws < u64::MAX,
        t.black_wins < u64::MAX,
        t.checkmates < u64::MAX,
        t.rules_draws < u64::MAX,
        t.repetitions < u64::MAX,
        t.max_plies < u64::MAX,
        t.score_adjudications < u64::MAX,
        0 <= game.plies,
        t.plies + game.plies <= u64::MAX,
        t.candidates + game.records.len() <= u64::MAX,
    ensures
        ({
            let after = tallied(t, game);
            &&& after.plies == t.plies + game.plies
            &&& after.candidates == t.candidates + game.records.len()
            &&& after.games == t.games + 1
            &&& game.outcome == Outcome::WhiteWin ==> after.white_wins == t.white_wins + 1
                && after.draws == t.draws && after.black_wins == t.black_wins
            &&& game.outcome == Outcome::BlackWin ==> after.black_wins == t.black_wins + 1
                && after.draws == t.draws && after.white_wins == t.white_wins
            &&& game.outcome == Outcome::Draw ==> after.draws == t.draws + 1 && after.white_wins
                == t.white_wins && after.black_wins == t.black_wins
            &&& after.checkmates - t.checkmates == if game.termination == Termination::Checkmate {
                1int
            } else {
                0int
            }
            &&& after.rules_draws - t.rules_draws == if game.termination == Termination::RulesDraw {
                1int
            } else {
                0int
            }
            &&& after.repetitions - t.repetitions == if game.termination == Termination::Repetition {
                1int
            } else {
                0int
            }
            &&& after.max_plies - t.max_plies == if game.termination == Termination::MaxPlies {
                1int
            } else {
                0int
            }
            &&& after.score_adjudications - t.score_adjudications == if game.termination
                == Termination::ScoreAdjudication {
                1int
            } else {
                0int
            }
        }),
{
}

/// A game has a ply for each choice, and a key for each position that came up, the
/// last for the one on the board; each choice is played on the board before it.
pub proof fn each_choice_is_a_ply(c: Selfplay, board: Position, line: Seq<Choice>)
    ensures
        ({
            let g = after_line(c, opened(board), line);
            &&& g.plies == line.len()
            &&& g.keys.len() == line.len() + 1
            &&& g.keys.last() == g.board.hash
            &&& line.len() == 0 ==> g.board == board
            &&& line.len() > 0 ==> {
                let before = after_line(c, opened(board), line.drop_last());
                &&& g.board == crate::rules::played(before.board, line.last().mv)
                &&& g.keys.drop_last() == before.keys
            }
        }),
    decreases line.len(),
{
    if line.len() > 0 {
        each_choice_is_a_ply(c, board, line.drop_last());
        let before = after_line(c, opened(board), line.drop_last());
        let g = after_line(c, opened(board), line);
        assert(g.keys.drop_last() =~= before.keys);
    }
}

/// A game that is not over goes on by the best move of a search of its position, with
/// all that came before, within the nodes that are allowed, and by what was learned so
/// far. It ends without a result only where no move is found.
pub proof fn a_game_goes_on_by_the_best_move(engine: Engine, m: Memory, c: Selfplay, g: Match)
    requires
        g.plies <= c.max_plies,
        verdict_of(g, c.max_plies as int) is None,
    ensures
        ({
            let p = probed(engine, m, root(g.board, g.keys), c.nodes);
            let all = game_from(engine, m, c, g);
            match p.found {
                None => all == (p.memory, None::<Finished>),
                Some((mv, score)) => {
                    let n = noted(g, c, mv, score);
                    match adjudged(n, c.win_plies as int) {
                        Some(outcome) => all.0 == p.memory && (all.1 matches Some(end)
                            && end.outcome == outcome && end.termination
                            == Termination::ScoreAdjudication && end.plies == g.plies
                            && end.records == n.records),
                        None => g.plies < c.max_plies ==> all == game_from(
                            engine,
                            p.memory,
                            c,
                            moved(n, mv),
                        ),
                    }
                },
            }
        }),
{
}

/// A game that is over ends as the rules say, and searches no more.
pub proof fn a_game_ends_as_the_rules_say(
    engine: Engine,
    m: Memory,
    c: Selfplay,
    g: Match,
    outcome: Outcome,
    termination: Termination,
)
    requires
        g.plies <= c.max_plies,
        verdict_of(g, c.max_plies as int) == Some((outcome, termination)),
    ensures
        ({
            let all = game_from(engine, m, c, g);
            &&& all.0 == m
            &&& all.1 matches Some(end) && end.outcome == outcome && end.termination == termination
                && end.plies == g.plies && (end.records == g.records <==> termination
                != Termination::MaxPlies || g.records.len() == 0)
        }),
{
    assert(g.records.len() == 0 ==> g.records =~= Seq::empty());
}

} // verus!
