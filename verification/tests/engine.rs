//! The search: move generation and ordering, quiescence, pruning, deepening.

use chessbot::chess::{Move, Piece, Position};
use chessbot::deepening::SearchReport;
use chessbot::engine::{Engine, Reductions};
use chessbot::history::{
    history_bonus, update_history, CaptureHistory, ContinuationHistory, CorrectionHistory,
    PawnHistory, QuietHistory, MAX_CORRECTION_HISTORY, MAX_QUIET_HISTORY,
};
use chessbot::limits::{
    time_budget_ms, Poll, SearchContext, SearchLimits, SearchRequest,
};
use chessbot::model::{NodeType, MATE_SCORE, MATE_THRESHOLD};
use chessbot::moves::EngineMove;
use chessbot::nnue::{Network, NnueState};
use chessbot::picker::MovePicker;
use chessbot::probe::{next_probe, probe, NextProbe};
use chessbot::search::{
    is_repetition, score_from_tt, score_to_tt, terminal_score, SearchBounds,
};
use chessbot::transposition::{TTNodeType, Table, TableEntry};
use std::sync::atomic::AtomicBool;
use std::sync::Arc;

const A1: u8 = 0;
const H1: u8 = 7;
const A2: u8 = 8;
const D2: u8 = 11;
const E2: u8 = 12;
const D4: u8 = 27;
const E4: u8 = 28;
const E5: u8 = 36;
const D6: u8 = 43;
const A7: u8 = 48;
const A8: u8 = 56;

/// A network that counts material, with a little for where the men stand.
fn network() -> Network {
    let worth = [4i16, 12, 13, 20, 36, 0];
    let mut feature_weights = vec![0i16; 3_932_160];
    for feature in 0..7680usize {
        let inside = feature % 768;
        let own = inside < 384;
        let piece = inside % 384 / 64;
        let square = inside % 64;
        let base = feature * 512;
        feature_weights[base + usize::from(!own)] = worth[piece];
        let center = [0i16, 1, 2, 3, 3, 2, 1, 0];
        let placed = center[square % 8] + center[square / 8];
        feature_weights[base + 2 + usize::from(!own)] = placed;
    }
    let mut output_weights = vec![0i16; 8192];
    for bucket in 0..8usize {
        output_weights[bucket * 1024] = 800;
        output_weights[bucket * 1024 + 1] = -800;
        output_weights[bucket * 1024 + 2] = 60;
        output_weights[bucket * 1024 + 3] = -60;
    }
    Network {
        feature_weights,
        feature_bias: vec![0i16; 512],
        output_weights,
        output_bias: vec![0i16; 8],
    }
}

fn reduction(depth: i32, number: i32) -> i32 {
    let scaled = (1024.0 * (0.99 + (depth as f32).ln() * (number as f32).ln() / 3.14)) as i32;
    scaled.max(0) / 1024
}

fn reductions() -> Reductions {
    let mut thresholds = vec![Vec::new(), Vec::new()];
    for number in 2..256i32 {
        let mut row = Vec::new();
        let most = reduction(i32::MAX, number);
        for amount in 1..=most {
            let (mut low, mut high) = (2i32, i32::MAX);
            while low < high {
                let middle = low + (high - low) / 2;
                if reduction(middle, number) >= amount {
                    high = middle;
                } else {
                    low = middle + 1;
                }
            }
            row.push(low);
        }
        thresholds.push(row);
    }
    Reductions { thresholds }
}

fn new_engine() -> Engine {
    Engine::new(Arc::new(network()), Arc::new(reductions()))
}

fn board(fen: &str) -> Position {
    Position::from_fen(fen, false).unwrap()
}

fn unlimited() -> SearchLimits {
    let mut limits = SearchLimits::default();
    limits.infinite = true;
    limits
}

fn flag(set: bool) -> Arc<AtomicBool> {
    Arc::new(AtomicBool::new(set))
}

fn run_quiesce(board: &Position) -> (i32, u64) {
    let mut engine = new_engine();
    engine.tt = Table::new(1);
    engine.nnue = NnueState::from_board(&engine.network, board);
    let mut context = SearchContext::new(board, vec![board.hash], &unlimited(), flag(false));
    let bounds = SearchBounds { alpha: -1_000_000_000, beta: 1_000_000_000 };
    let score = engine.quiesce(board, 0, bounds, &mut context).unwrap();
    (score, context.nodes)
}

fn search(engine: &mut Engine, board: Position, limits: SearchLimits) -> SearchReport {
    let request =
        SearchRequest { board, history: vec![board.hash], limits, stop: flag(false) };
    engine.search(&request)
}

#[test]
fn qsearch_generates_captures_but_not_quiet_moves() {
    let board = board("7k/8/8/8/8/8/p7/R6K w - - 0 1");
    let engine = new_engine();
    let mut empty = true;
    let moves = engine.generate_qsearch_moves(&board, &mut empty);

    assert!(!empty);
    assert_eq!(moves.len(), 1);
    assert_eq!(moves.get(0).mv, Move { from: A1, to: A2, promotion: None });
    assert!(moves.get(0).is_capture);
    let after = board.try_play(moves.get(0).mv).unwrap();
    let network = network();
    let capture_score =
        -NnueState::from_board(&network, &after).evaluate(&network, after.side_to_move);
    let stand_pat =
        NnueState::from_board(&network, &board).evaluate(&network, board.side_to_move);
    assert_eq!(run_quiesce(&board).0, stand_pat.max(capture_score));
}

#[test]
fn qsearch_generates_en_passant() {
    let board = board("7k/8/8/3pP3/8/8/8/7K w - d6 0 1");
    let engine = new_engine();
    let mut empty = true;
    let moves = engine.generate_qsearch_moves(&board, &mut empty);

    assert!(!empty);
    assert_eq!(moves.len(), 1);
    assert_eq!(moves.get(0).mv, Move { from: E5, to: D6, promotion: None });
    assert!(moves.get(0).is_ep);
}

#[test]
fn qsearch_generates_all_quiet_promotions() {
    let board = board("7k/P7/8/8/8/8/8/7K w - - 0 1");
    let engine = new_engine();
    let mut empty = true;
    let moves = engine.generate_qsearch_moves(&board, &mut empty);
    let promotions: Vec<Piece> =
        moves.iter().iter().map(|mv| mv.mv.promotion.unwrap()).collect();

    assert!(!empty);
    assert_eq!(moves.len(), 4);
    assert!(moves.iter().iter().all(|mv| mv.mv.from == A7 && mv.mv.to == A8 && mv.promotion));
    assert_eq!(promotions, vec![Piece::Knight, Piece::Bishop, Piece::Rook, Piece::Queen]);
}

#[test]
fn qsearch_searches_quiet_evasions_while_in_check() {
    let board = board("k3r3/8/8/8/8/8/8/4K3 w - - 0 1");
    let moves = board.moves();

    assert!(board.checkers != 0);
    assert!(moves.iter().all(|mv| board.piece_on(mv.to).is_none()));

    let (score, nodes) = run_quiesce(&board);
    assert!(score > -MATE_THRESHOLD);
    assert_eq!(nodes, 1 + moves.len() as u64);
}

#[test]
fn qsearch_scores_checkmate_and_stalemate() {
    let checkmate = board("7k/6Q1/5K2/8/8/8/8/8 b - - 0 1");
    let stalemate = board("7k/5K2/6Q1/8/8/8/8/8 b - - 0 1");

    assert_eq!(run_quiesce(&checkmate).0, -100_000);
    assert_eq!(run_quiesce(&stalemate).0, 0);
}

#[test]
fn mate_scores_prefer_shorter_mates_and_round_trip_through_tt() {
    let checkmate = board("7k/6Q1/5K2/8/8/8/8/8 b - - 0 1");
    let score = terminal_score(&checkmate, 3);

    assert_eq!(score, -99_997);
    assert_eq!(score_from_tt(score_to_tt(score, 3), 3), score);
    assert!(MATE_SCORE - 3 > MATE_SCORE - 5);
    assert!(-MATE_SCORE + 5 > -MATE_SCORE + 3);
}

#[test]
fn repetition_requires_three_matching_positions() {
    let board = board("7k/8/8/8/8/8/8/K7 w - - 8 5");
    let key = board.hash;

    assert!(!is_repetition(&board, &[key, key]));
    assert!(is_repetition(&board, &[key, key, key]));
}

#[test]
fn history_bonus_scales_with_depth_without_an_early_cap() {
    assert_eq!(history_bonus(1), 1);
    assert_eq!(history_bonus(8), 64);
    assert_eq!(history_bonus(16), 256);
    assert!(history_bonus(16) > history_bonus(8));
    assert_eq!(history_bonus(i32::MAX), i32::MAX);
}

#[test]
fn history_update_applies_gravity_and_stays_bounded() {
    let max = MAX_QUIET_HISTORY;
    let mut value = 0i16;
    update_history(&mut value, max / 2, max);
    assert_eq!(value as i32, max / 2);

    update_history(&mut value, max / 2, max);
    assert_eq!(value as i32, max * 3 / 4);

    update_history(&mut value, i32::MAX, max);
    assert_eq!(value as i32, max);

    let mut negative = 0i16;
    update_history(&mut negative, i32::MIN, max);
    assert_eq!(negative as i32, -max);
}

#[test]
fn history_orders_quiets_for_the_side_to_move() {
    let board = Position::startpos();
    let mut engine = new_engine();
    let preferred = Move { from: E2, to: E4, promotion: None };

    engine.quiet_history.update(0, E2, E4, 1);
    engine.quiet_history.update(1, D2, D4, MAX_QUIET_HISTORY);

    let moves = engine.generate_moves(&board, None);
    let mut picker = MovePicker::new(moves);
    let first = picker.next().unwrap();
    assert_eq!(first.mv, preferred);
}

#[test]
fn quiet_promotions_are_ordered_before_maximum_history_quiets() {
    let board = board("7k/P7/8/8/8/8/8/7K w - - 0 1");
    let mut engine = new_engine();
    for from in 0..64u8 {
        for to in 0..64u8 {
            engine.quiet_history.update(0, from, to, MAX_QUIET_HISTORY);
            assert_eq!(engine.quiet_history.get(0, from, to), MAX_QUIET_HISTORY);
        }
    }

    let moves = engine.generate_moves(&board, None);
    let mut picker = MovePicker::new(moves);
    let mut picked = Vec::new();
    while let Some(mv) = picker.next() {
        picked.push(mv);
    }

    assert!(picked[..4].iter().all(|mv| mv.promotion));
    assert_eq!(picked[0].mv.promotion, Some(Piece::Queen));
    assert!(picked[4..].iter().all(|mv| !mv.promotion));
}

#[test]
fn a_new_search_resets_history() {
    let board = Position::startpos();
    let mut engine = new_engine();
    engine.quiet_history = QuietHistory { history: vec![123; 2 * 64 * 64] };
    let mut limits = SearchLimits::default();
    limits.depth = Some(1);
    search(&mut engine, board, limits);

    assert!(engine.quiet_history.history.iter().all(|&value| value == 0));
}

#[test]
fn interrupted_pvs_probe_restores_search_state() {
    let board = Position::startpos();
    let mut engine = new_engine();
    engine.nnue = NnueState::from_board(&engine.network, &board);
    let initial_nnue = engine.nnue;
    let initial_history = vec![board.hash];
    let mut context =
        SearchContext::new(&board, initial_history.clone(), &unlimited(), flag(true));
    let mv = Move { from: E2, to: E4, promotion: None };
    let engine_move = EngineMove::new(&board, mv, Piece::Pawn, false);

    let result = engine.search_move(
        &board,
        engine_move,
        1,
        1,
        NodeType::PV,
        SearchBounds { alpha: -100, beta: 100 },
        false,
        false,
        &mut context,
    );

    assert_eq!(result, None);
    assert_eq!(engine.nnue, initial_nnue);
    assert_eq!(context.history, initial_history);
}

#[test]
fn root_pvs_matches_full_window_root_search() {
    let board = board("r3k2r/p1ppqpb1/bn2pnp1/2pP4/1p2P3/2N2N2/PPQBBPPP/R3K2R w KQkq - 0 1");
    let depth = 4;
    let wide = SearchBounds { alpha: -1_000_000_000, beta: 1_000_000_000 };

    let mut pvs_engine = new_engine();
    pvs_engine.nnue = NnueState::from_board(&pvs_engine.network, &board);
    let root_moves = pvs_engine.generate_moves(&board, None);
    let mut pvs_context =
        SearchContext::new(&board, vec![board.hash], &unlimited(), flag(false));
    let pvs_result = pvs_engine
        .root_search(&board, depth, &root_moves, wide, &mut pvs_context)
        .unwrap();

    let mut full_engine = new_engine();
    let full_moves = full_engine.generate_moves(&board, None);
    let mut full_context =
        SearchContext::new(&board, vec![board.hash], &unlimited(), flag(false));
    let mut bounds = wide;
    let mut full_result: Option<(Move, i32)> = None;
    full_engine.nnue = NnueState::from_board(&full_engine.network, &board);

    for mv in full_moves.iter() {
        let score = full_engine
            .search_move(
                &board,
                mv,
                depth - 1,
                1,
                NodeType::PV,
                bounds,
                true,
                true,
                &mut full_context,
            )
            .unwrap();

        if full_result.is_none_or(|(_, best_score)| score > best_score) {
            full_result = Some((mv.mv, score));
            bounds.alpha = score;
        }
    }

    assert_eq!(pvs_result, full_result.unwrap());
}

#[test]
fn search_finds_a_mate_in_one() {
    let board = board("6k1/5ppp/8/8/8/8/8/R6K w - - 0 1");
    let mut limits = SearchLimits::default();
    limits.depth = Some(2);
    let report = search(&mut new_engine(), board, limits);

    assert_eq!(report.result.best_move, Some(Move { from: A1, to: A8, promotion: None }));
    assert!(!report.cut_short);
    let last = report.infos.last().unwrap();
    assert_eq!(last.depth, 2);
    assert_eq!(last.score, MATE_SCORE - 1);
    assert_eq!(last.pv, vec![Move { from: A1, to: A8, promotion: None }]);
}

#[test]
fn search_without_legal_moves_has_no_best_move() {
    let mated = board("7k/6Q1/5K2/8/8/8/8/8 b - - 0 1");
    let report = search(&mut new_engine(), mated, SearchLimits::default());

    assert_eq!(report.result.best_move, None);
    assert!(report.infos.is_empty());
}

#[test]
fn stopped_search_still_has_a_legal_move() {
    let board = Position::startpos();
    let request = SearchRequest {
        board,
        history: vec![board.hash],
        limits: unlimited(),
        stop: flag(true),
    };
    let report = new_engine().search(&request);

    assert!(report.infos.is_empty());
    assert!(report.cut_short);
    assert!(board.moves().contains(&report.result.best_move.unwrap()));
}

#[test]
fn stopped_search_plays_the_first_root_move() {
    let board = Position::startpos();
    let mut engine = new_engine();
    let known = Move { from: A2, to: 16, promotion: None };
    let entry = TableEntry {
        key: board.hash,
        score: 1,
        depth: 1,
        node_type: TTNodeType::EXACT,
        best_move: Some(known),
    };
    engine.tt.insert(board.hash, entry);
    let request = SearchRequest {
        board,
        history: vec![board.hash],
        limits: unlimited(),
        stop: flag(true),
    };
    let first = engine.generate_moves(&board, Some(known)).get(0).mv;
    assert_eq!(engine.search(&request).result.best_move, Some(first));

    let capture = Position::from_fen("3r2k1/8/1p1p4/p3p3/3Q4/8/8/K7 w - - 0 1", false).unwrap();
    let request = SearchRequest {
        board: capture,
        history: vec![capture.hash],
        limits: unlimited(),
        stop: flag(true),
    };
    let mut engine = new_engine();
    let quiet = Move { from: A1, to: A2, promotion: None };
    let entry = TableEntry { key: capture.hash, best_move: Some(quiet), ..entry };
    engine.tt.insert(capture.hash, entry);
    let moves = engine.generate_moves(&capture, Some(quiet));
    assert_ne!(moves.get(0).mv, quiet);
    assert_eq!(engine.search(&request).result.best_move, Some(moves.get(0).mv));
}

#[test]
fn depths_are_concluded_as_they_went() {
    let board = Position::startpos();
    let mut limits = SearchLimits::default();
    limits.depth = Some(3);
    let stop = flag(false);
    let request =
        SearchRequest { board, history: vec![board.hash], limits, stop: stop.clone() };
    let mut engine = new_engine();
    let found = Some((Move { from: E2, to: E4, promotion: None }, 17));

    let mut search = engine.begin(&request).unwrap();
    assert!(Arc::ptr_eq(&search.context.stop, &stop));
    assert_eq!(search.completed, None);
    let info = search.conclude_depth(found, false, false, 5).unwrap();
    assert_eq!((info.depth, info.score, info.elapsed), (1, 17, 5));
    assert_eq!(info.pv, vec![found.unwrap().0]);
    assert_eq!((search.depth, search.done, search.cut_short), (2, false, false));
    assert_eq!(search.previous_score, 17);

    assert!(search.conclude_depth(Some((info.pv[0], 99)), true, false, 9).is_none());
    assert_eq!((search.depth, search.done, search.cut_short), (2, true, true));
    assert_eq!((search.completed, search.previous_score), (Some(info.pv[0]), 17));

    let mut late = engine.begin(&request).unwrap();
    assert!(late.conclude_depth(found, false, true, 5).is_some());
    assert_eq!((late.depth, late.done, late.cut_short), (1, true, true));

    let mut last = engine.begin(&request).unwrap();
    last.depth = 3;
    assert!(last.conclude_depth(None, false, true, 5).is_none());
    assert_eq!((last.depth, last.done, last.cut_short), (3, true, false));
    assert_eq!(last.result().best_move, Some(last.fallback));
    last.finish();
    assert!(last.done && !last.cut_short);
}

#[test]
fn search_without_other_limits_completes_every_depth() {
    for fen in ["8/8/8/3k4/8/3K4/3P4/8 w - - 0 1", "3r2k1/8/1p1p4/p3p3/3Q4/8/8/K7 w - - 0 1"] {
        let mut limits = SearchLimits::default();
        limits.depth = Some(6);
        let report = search(&mut new_engine(), board(fen), limits);
        let depths: Vec<i32> = report.infos.iter().map(|info| info.depth).collect();

        assert_eq!(depths, vec![1, 2, 3, 4, 5, 6]);
        assert!(!report.cut_short);
        assert_eq!(report.nodes, report.infos[5].nodes);
    }
}

#[test]
fn limited_searches_complete_their_depths_without_a_gap() {
    let board = board("r3k2r/p1ppqpb1/bn2pnp1/3PN3/1p2P3/2N2Q1p/PPPBBPPP/R3K2R w KQkq - 0 1");
    let mut limits = SearchLimits::default();
    limits.nodes = Some(900);
    limits.searchmoves = vec![Move { from: A2, to: 16, promotion: None }];
    let report = search(&mut new_engine(), board, limits);
    let depths: Vec<i32> = report.infos.iter().map(|info| info.depth).collect();
    assert!(!depths.is_empty());
    assert_eq!(depths, (1..=depths.len() as i32).collect::<Vec<i32>>());

    let mut limits = SearchLimits::default();
    limits.depth = Some(3);
    limits.searchmoves = vec![Move { from: A2, to: A8, promotion: None }];
    let report = search(&mut new_engine(), board, limits);
    assert!(report.infos.is_empty());
    assert!(report.result.best_move.is_some());
}

#[test]
fn interrupted_search_leaves_what_its_nodes_leave() {
    let board = board("r3k2r/p1ppqpb1/bn2pnp1/3PN3/1p2P3/2N2Q1p/PPPBBPPP/R3K2R w KQkq - 0 1");
    let summary = |report: &SearchReport| {
        report
            .infos
            .iter()
            .map(|info| (info.depth, info.score, info.nodes, info.pv.clone()))
            .collect::<Vec<_>>()
    };
    let mut engine = new_engine();
    engine.set_hash_size_mb(1);
    let mut limits = SearchLimits::default();
    limits.movetime = Some(45);
    let cut = search(&mut engine, board, limits);
    assert!(cut.cut_short);

    let mut other = new_engine();
    other.set_hash_size_mb(1);
    let mut limits = SearchLimits::default();
    if cut.interrupted {
        limits.nodes = Some(cut.nodes);
    } else {
        limits.depth = Some(cut.depth);
    }
    let whole = search(&mut other, board, limits);
    assert_eq!(summary(&cut), summary(&whole));
    assert_eq!(cut.result.best_move, whole.result.best_move);
    for (mine, its) in engine.tt.buckets.iter().zip(&other.tt.buckets) {
        assert_eq!((mine.epoch, mine.len, mine.slots), (its.epoch, its.len, its.slots));
    }
    assert_eq!(engine.quiet_history.history, other.quiet_history.history);
    assert_eq!(engine.pawn_history.history, other.pawn_history.history);
    assert_eq!(engine.capture_history.history, other.capture_history.history);
    assert_eq!(engine.continuation_history.history, other.continuation_history.history);
}

#[test]
fn search_starts_with_the_deadlines_of_its_limits() {
    let board = Position::startpos();
    let mut limits = SearchLimits::default();
    limits.movetime = Some(1_000);
    let request =
        SearchRequest { board, history: vec![board.hash], limits, stop: flag(false) };
    let search = new_engine().begin(&request).unwrap();

    assert_eq!(search.context.soft_deadline, Some(796));
    assert_eq!(search.context.hard_deadline, Some(995));
}

#[test]
fn picker_gives_each_group_by_falling_ratings() {
    let board = board("r3k2r/p1ppqpb1/bn2pnp1/3PN3/1p2P3/2N2Q1p/PPPBBPPP/R3K2R w KQkq - 0 1");
    let mut engine = new_engine();
    engine.quiet_history.update(0, E2, D4, 900);
    let wanted = Move { from: A2, to: 16, promotion: None };
    let moves = engine.generate_moves(&board, Some(wanted));
    let (good, quiets) = (moves.good_captures.len(), moves.quiets.len());
    let all = moves.len();
    let mut picker = MovePicker::new(moves);
    let mut given = Vec::new();
    while let Some(mv) = picker.next() {
        given.push(mv);
    }

    assert_eq!(given.len(), all);
    assert_eq!(given[0].mv, wanted);
    let falls = |part: &[EngineMove], key: fn(&EngineMove) -> i32| {
        part.windows(2).all(|pair| key(&pair[0]) >= key(&pair[1]))
    };
    assert!(falls(&given[1..good], |mv| i32::from(mv.see_score)));
    assert!(falls(&given[good..good + quiets], |mv| mv.history));
    assert!(falls(&given[good + quiets..], |mv| i32::from(mv.see_score)));
    assert!(picker.next().is_none() && picker.next().is_none());
}

#[test]
fn search_moves_restrict_the_root() {
    let board = Position::startpos();
    let only = Move { from: A2, to: 16, promotion: None };
    let mut limits = SearchLimits::default();
    limits.depth = Some(2);
    limits.searchmoves = vec![only];
    let report = search(&mut new_engine(), board, limits);

    assert_eq!(report.result.best_move, Some(only));
}

#[test]
fn node_limit_ends_a_search() {
    let board = Position::startpos();
    let mut limits = SearchLimits::default();
    limits.nodes = Some(3_000);
    let report = search(&mut new_engine(), board, limits);

    assert!(!report.infos.is_empty());
    assert!(report.infos.iter().all(|info| info.nodes < 3_000));
    let depths: Vec<i32> = report.infos.iter().map(|info| info.depth).collect();
    assert_eq!(depths, (1..=depths.len() as i32).collect::<Vec<i32>>());
}

#[test]
fn same_search_gives_the_same_report() {
    let board = board("r1bqkbnr/pppp1ppp/2n5/4p3/2B1P3/5N2/PPPP1PPP/RNBQK2R b KQkq - 3 3");
    let run = || {
        let mut limits = SearchLimits::default();
        limits.depth = Some(5);
        let report = search(&mut new_engine(), board, limits);
        report
            .infos
            .iter()
            .map(|info| (info.depth, info.score, info.nodes, info.pv.clone()))
            .collect::<Vec<_>>()
    };
    let first = run();

    assert_eq!(first.len(), 5);
    assert_eq!(first, run());
}

#[test]
fn third_occurrence_at_the_root_is_worth_nothing() {
    let board = board("7k/8/8/8/8/8/8/KQ6 w - - 8 5");
    let mut engine = new_engine();
    engine.nnue = NnueState::from_board(&engine.network, &board);
    let key = board.hash;
    let bounds = SearchBounds { alpha: -1_000_000_000, beta: 1_000_000_000 };
    let mut fresh = SearchContext::new(&board, vec![key], &unlimited(), flag(false));
    assert!(engine.quiesce(&board, 0, bounds, &mut fresh).unwrap() > 0);
    let mut third =
        SearchContext::new(&board, vec![key, key, key], &unlimited(), flag(false));
    assert_eq!(engine.quiesce(&board, 0, bounds, &mut third), Some(0));
}

#[test]
fn fifty_move_rule_comes_before_the_evaluation() {
    let drawn = board("7k/8/8/8/8/8/8/KQ6 w - - 100 90");
    assert_eq!(run_quiesce(&drawn), (0, 1));
    let mated = board("7k/6Q1/5K2/8/8/8/8/8 b - - 100 90");
    assert_eq!(run_quiesce(&mated), (-100_000, 1));
}

#[test]
fn negated_bounds_are_those_of_the_other_side() {
    let bounds = SearchBounds { alpha: -7, beta: 30 };
    assert_eq!(bounds.negated(), SearchBounds { alpha: -30, beta: 7 });
    assert_eq!(bounds.negated().negated(), bounds);
}

#[test]
fn mate_scores_are_stored_from_the_position() {
    assert_eq!(score_to_tt(99_990, 4), 99_994);
    assert_eq!(score_to_tt(-99_990, 4), -99_994);
    assert_eq!(score_to_tt(500, 4), 500);
    assert_eq!(score_from_tt(99_994, 4), 99_990);
    assert_eq!(score_from_tt(98_999, 4), 98_999);
}

#[test]
fn table_move_is_tried_first() {
    let board = Position::startpos();
    let engine = new_engine();
    let wanted = Move { from: A2, to: 16, promotion: None };
    let moves = engine.generate_moves(&board, Some(wanted));
    let mut picker = MovePicker::new(moves);
    let first = picker.next().unwrap();

    assert_eq!(first.mv, wanted);
    assert!(first.is_tt);
    let mut count = 1;
    while let Some(mv) = picker.next() {
        assert!(!mv.is_tt);
        count += 1;
    }
    assert_eq!(count, 20);
}

#[test]
fn picker_goes_from_good_captures_to_quiets_to_bad_captures() {
    let board = board("3r2k1/8/1p1p4/p3p3/3Q4/8/8/K7 w - - 0 1");
    let engine = new_engine();
    let mut picker = MovePicker::new(engine.generate_moves(&board, None));
    let mut picked = Vec::new();
    while let Some(mv) = picker.next() {
        picked.push(mv);
    }
    let first_quiet = picked.iter().position(|mv| !mv.is_capture).unwrap();
    let last_quiet = picked.iter().rposition(|mv| !mv.is_capture).unwrap();

    assert!(picked[..first_quiet].iter().all(|mv| mv.see_score >= 0));
    assert!(picked[first_quiet..=last_quiet].iter().all(|mv| !mv.is_capture));
    assert!(picked[last_quiet + 1..].iter().all(|mv| mv.see_score < 0));
    assert!(last_quiet + 1 < picked.len());
    assert_eq!(picked.len(), board.moves().len());
    assert_eq!(picker.tried_quiets().len(), last_quiet + 1 - first_quiet);
}

#[test]
fn skipping_leaves_only_bad_captures() {
    let board = board("3r2k1/8/1p1p4/p3p3/3Q4/8/8/K7 w - - 0 1");
    let engine = new_engine();
    let mut picker = MovePicker::new(engine.generate_moves(&board, None));
    picker.skip_to_bad_captures();
    let mut rest = Vec::new();
    while let Some(mv) = picker.next() {
        rest.push(mv);
    }

    assert!(!rest.is_empty());
    assert!(rest.iter().all(|mv| mv.is_capture && mv.see_score < 0));
}

#[test]
fn move_list_is_indexed_in_its_order() {
    let board = board("3r2k1/8/1p1p4/p3p3/3Q4/8/8/K7 w - - 0 1");
    let moves = new_engine().generate_moves(&board, None);
    let all = moves.iter();

    assert!(!moves.is_empty());
    assert_eq!(all.len(), moves.len());
    for (index, mv) in all.iter().enumerate() {
        assert_eq!(moves.get(index), *mv);
    }
    let copy = moves.copy();
    assert_eq!(copy.iter(), all);
}

#[test]
fn engine_move_knows_what_it_takes() {
    let start = board("1r5k/P7/8/8/8/8/8/7K w - - 0 1");
    let mv = Move { from: A7, to: 57, promotion: Some(Piece::Queen) };
    let facts = EngineMove::new(&start, mv, Piece::Pawn, true);

    assert!(facts.is_capture && facts.promotion && facts.is_tt && !facts.is_ep);
    assert_eq!(facts.material_value, 900 - 100 + 500);
    assert_eq!(facts.target_type, Some(Piece::Rook));

    let castle = board("r3k2r/8/8/8/8/8/8/R3K2R w KQkq - 0 1");
    let mv = Move { from: 4, to: H1, promotion: None };
    let facts = EngineMove::new(&castle, mv, Piece::King, false);
    assert!(facts.is_castle && !facts.is_capture);
    assert_eq!(facts.material_value, 0);
    assert_eq!(facts.target_type, None);
}

#[test]
fn reductions_follow_the_thresholds() {
    let rows = Reductions { thresholds: vec![vec![], vec![3, 5, 9]] };
    assert_eq!(rows.reduction(9, 0), 0);
    assert_eq!(rows.reduction(2, 1), 0);
    assert_eq!(rows.reduction(4, 1), 1);
    assert_eq!(rows.reduction(5, 7), 2);
    assert_eq!(rows.reduction(100, 100), 3);
}

#[test]
fn reductions_of_the_rows_are_those_of_the_formula() {
    let rows = reductions();
    for depth in 2..60 {
        for number in 2..100 {
            assert_eq!(rows.reduction(depth, number), reduction(depth, number));
        }
    }
}

#[test]
fn correction_is_not_used() {
    let board = Position::startpos();
    let mut engine = new_engine();
    engine.correct(&board, 2_000);
    assert_eq!(engine.get_correction_value(&board), 0);
    let key = engine.piece_keys.pawns(&board);
    assert_ne!(engine.pawn_correction_history.get(0, key), 0);
}

#[test]
fn new_game_forgets_and_keeps_the_table_size() {
    let board = Position::startpos();
    let mut engine = new_engine();
    engine.set_hash_size_mb(1);
    assert_eq!(engine.tt.buckets.len(), 16_384);
    let entry = TableEntry {
        key: board.hash,
        score: 1,
        depth: 1,
        node_type: TTNodeType::EXACT,
        best_move: None,
    };
    engine.tt.insert(board.hash, entry);
    engine.correct(&board, 2_000);
    engine.continuation_history.update(0, 0, E4, Piece::Pawn, E5, Piece::Pawn, 100);
    engine.pawn_history.update(0, 5, E4, Piece::Pawn, 100);
    engine.nnue = NnueState::from_board(&engine.network, &board);
    let nnue = engine.nnue;
    engine.new_game();

    assert_eq!(engine.nnue, nnue);
    assert_eq!(engine.tt.get(board.hash), None);
    assert_eq!(engine.tt.buckets.len(), 16_384);
    assert!(engine.pawn_correction_history.history.iter().all(|&v| v == 0));
    assert!(engine.minor_correction_history.history.iter().all(|&v| v == 0));
    assert!(engine.major_correction_history.history.iter().all(|&v| v == 0));
    assert!(engine.stm_non_pawn_correction_history.history.iter().all(|&v| v == 0));
    assert!(engine.nstm_non_pawn_correction_history.history.iter().all(|&v| v == 0));
    assert!(engine.continuation_history.history.iter().all(|&v| v == 0));
    assert!(engine.pawn_history.history.iter().all(|&v| v == 0));
}

#[test]
fn each_history_changes_one_number() {
    let mut quiet = QuietHistory::new();
    quiet.update(1, E2, E4, 64);
    assert_eq!(quiet.get(1, E2, E4), 64);
    assert_eq!(quiet.history.iter().filter(|&&v| v != 0).count(), 1);
    quiet.clear();
    assert_eq!(quiet.get(1, E2, E4), 0);

    let mut answers = ContinuationHistory::new();
    answers.update(0, 1, E4, Piece::Knight, E5, Piece::Queen, -64);
    assert_eq!(answers.get(0, 1, E4, Piece::Knight, E5, Piece::Queen), -64);
    assert_eq!(answers.get(0, 1, E4, Piece::Queen, E5, Piece::Knight), 0);
    assert_eq!(answers.history.iter().filter(|&&v| v != 0).count(), 1);
    answers.clear();
    assert_eq!(answers.get(0, 1, E4, Piece::Knight, E5, Piece::Queen), 0);

    let mut captures = CaptureHistory::new();
    captures.update(0, E4, Piece::Pawn, Piece::Queen, 9);
    assert_eq!(captures.get(0, E4, Piece::Pawn, Piece::Queen), 9);
    assert_eq!(captures.get(0, E4, Piece::Queen, Piece::Pawn), 0);
    captures.clear();
    assert_eq!(captures.get(0, E4, Piece::Pawn, Piece::Queen), 0);

    let mut corrections = CorrectionHistory::new();
    corrections.update(0, 8_192 + 5, 1_000_000);
    assert_eq!(corrections.get(0, 5), MAX_CORRECTION_HISTORY / 4);
    assert_eq!(corrections.get(1, 5), 0);
    corrections.clear();
    assert_eq!(corrections.get(0, 5), 0);

    let mut pawns = PawnHistory::new();
    pawns.update(0, 4_096 * 3 + 7, E4, Piece::Rook, 25);
    assert_eq!(pawns.get(0, 7, E4, Piece::Rook), 25);
    assert_eq!(pawns.get(0, 8, E4, Piece::Rook), 0);
    pawns.clear();
    assert_eq!(pawns.get(0, 7, E4, Piece::Rook), 0);
}

#[test]
fn cutoffs_reward_the_move_and_punish_those_before_it() {
    let board = Position::startpos();
    let mut engine = new_engine();
    let mut picker = MovePicker::new(engine.generate_moves(&board, None));
    let first = picker.next().unwrap();
    let second = picker.next().unwrap();
    engine.reward(&board, &second, 4, &picker);

    assert_eq!(engine.quiet_history.get(0, second.mv.from, second.mv.to), 16);
    assert_eq!(engine.quiet_history.get(0, first.mv.from, first.mv.to), -16);
    let pawns = engine.piece_keys.pawns(&board);
    assert_eq!(engine.pawn_history.get(0, pawns, second.mv.to, second.piece_type), 16);
}

#[test]
fn time_budgets_follow_the_clock() {
    let board = Position::startpos();
    let mut limits = SearchLimits::default();
    assert_eq!(time_budget_ms(&board, &limits), None);

    limits.movetime = Some(1_000);
    assert_eq!(time_budget_ms(&board, &limits), Some((796, 995)));
    limits.movetime = Some(3);
    assert_eq!(time_budget_ms(&board, &limits), Some((1, 1)));

    limits.movetime = None;
    limits.wtime = Some(30_100);
    limits.winc = Some(100);
    limits.btime = Some(1);
    assert_eq!(time_budget_ms(&board, &limits), Some((854, 1_068)));
    limits.movestogo = Some(1);
    assert_eq!(time_budget_ms(&board, &limits), Some((23_839, 29_799)));
    limits.wtime = Some(100);
    assert_eq!(time_budget_ms(&board, &limits), Some((76, 95)));
    limits.infinite = true;
    assert_eq!(time_budget_ms(&board, &limits), None);
}

#[test]
fn clock_is_asked_at_the_first_node_and_every_1024th() {
    let board = Position::startpos();
    let mut limits = SearchLimits::default();
    limits.movetime = Some(1_000);
    limits.nodes = Some(2_000);
    let mut context = SearchContext::new(&board, vec![board.hash], &limits, flag(false));
    for node in 1..2_000u64 {
        let expected =
            if node == 1 || node == 1_024 { Poll::AskClock } else { Poll::GoOn };
        assert_eq!(context.count_node(false), expected);
    }
    assert_eq!(context.count_node(false), Poll::Stop);
    assert!(!context.interrupted);
    assert!(!context.hear_clock(994));
    assert!(context.hear_clock(995));
    assert!(context.interrupted);
    assert_eq!(context.nodes, 2_000);
    assert_eq!(context.count_node(true), Poll::Stop);
    assert_eq!(context.nodes, 2_001);
}

#[test]
fn soft_deadline_is_reached_at_its_time() {
    let board = Position::startpos();
    let mut limits = SearchLimits::default();
    let open = SearchContext::new(&board, vec![board.hash], &limits, flag(false));
    assert!(!open.soft_passed(u64::MAX));
    assert!(!open.soft_expired());
    limits.movetime = Some(1_000);
    let mut context = SearchContext::new(&board, vec![board.hash], &limits, flag(false));
    assert!(!context.soft_passed(795));
    assert!(context.soft_passed(796));
    context.soft_deadline = Some(0);
    assert!(context.soft_expired());
}

#[test]
fn hard_deadline_interrupts_a_real_search() {
    let board = Position::startpos();
    let mut limits = SearchLimits::default();
    limits.movetime = Some(60);
    let report = search(&mut new_engine(), board, limits);

    assert!(report.cut_short);
    assert!(report.infos.iter().all(|info| info.elapsed < 10_000));
    assert!(report.result.best_move.is_some());
}

#[test]
fn searching_a_position_again_uses_what_was_learnt() {
    let board = board("r1bqkbnr/pppp1ppp/2n5/4p3/2B1P3/5N2/PPPP1PPP/RNBQK2R b KQkq - 3 3");
    let mut engine = new_engine();
    let limits = || {
        let mut limits = SearchLimits::default();
        limits.depth = Some(4);
        limits
    };
    let first = search(&mut engine, board, limits());
    let second = search(&mut engine, board, limits());
    let nodes = |report: &SearchReport| report.infos.last().unwrap().nodes;

    assert!(nodes(&second) < nodes(&first));
    assert_eq!(first.result.best_move, second.result.best_move);
}

#[test]
fn probes_are_repeated_only_without_a_move() {
    assert_eq!(next_probe(true, false), NextProbe::Done);
    assert_eq!(next_probe(true, true), NextProbe::Done);
    assert_eq!(next_probe(false, true), NextProbe::Stop);
    assert_eq!(next_probe(false, false), NextProbe::Retry);

    let board = Position::startpos();
    let small = probe(&mut new_engine(), &board, vec![board.hash], 3, &flag(false));
    assert!(small.retried && small.found.is_some());
    let large = probe(&mut new_engine(), &board, vec![board.hash], 500, &flag(false));
    assert!(!large.retried && large.found.is_some());
    let stopped = probe(&mut new_engine(), &board, vec![board.hash], 3, &flag(true));
    assert!(!stopped.retried && stopped.found.is_none() && stopped.cut_short);
}
