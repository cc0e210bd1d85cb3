//! The text protocol.

use chessbot::chess::{Color, Move, Piece, Position};
use chessbot::coordinator::{Action, Coordinator};
use chessbot::limits::{SearchInfo, SearchResult};
use chessbot::text::{
    eq_ignore_ascii_case, join, parse_i32, parse_unsigned, push_decimal, push_signed,
    split_whitespace,
};
use chessbot::uci::{
    format_best_move, format_info, format_uci_move, parse_go, parse_hash_option, parse_position,
};

const E2E4: Move = Move { from: 12, to: 28, promotion: None };

#[test]
fn parse_go_collects_multiple_limits() {
    let board = Position::startpos();
    let limits = parse_go(
        "go depth 8 nodes 100000 wtime 5000 btime 6000 winc 100 binc 200 movestogo 30",
        &board,
    );

    assert_eq!(limits.depth, Some(8));
    assert_eq!(limits.nodes, Some(100_000));
    assert_eq!(limits.wtime, Some(5_000));
    assert_eq!(limits.btime, Some(6_000));
    assert_eq!(limits.winc, Some(100));
    assert_eq!(limits.binc, Some(200));
    assert_eq!(limits.movestogo, Some(30));
}

#[test]
fn parse_position_applies_the_complete_move_history() {
    let mut board = Position::startpos();
    let mut history = vec![board.hash];
    parse_position("position startpos moves e2e4 e7e5", &mut board, &mut history);

    assert_eq!(board.side_to_move, Color::White);
    assert_eq!(history.len(), 3);
    assert_eq!(history[2], board.hash);
    assert_eq!(board.piece_on(28), Some(Piece::Pawn));
    assert_eq!(board.piece_on(36), Some(Piece::Pawn));
}

#[test]
fn invalid_position_does_not_replace_the_current_board() {
    let mut board = Position::startpos();
    let mut history = vec![board.hash];
    parse_position("position startpos moves e2e5", &mut board, &mut history);

    assert_eq!(board.side_to_move, Color::White);
    assert_eq!(board, Position::startpos());
    assert_eq!(history, vec![board.hash]);
}

#[test]
fn position_takes_a_fen_with_moves() {
    let mut board = Position::startpos();
    let mut history = Vec::new();
    parse_position(
        "position fen 7k/8/8/8/8/8/P7/K7 w - - 0 1 moves a2a4 h8g8",
        &mut board,
        &mut history,
    );
    assert_eq!(board.fen(), "6k1/8/8/8/P7/8/8/K7 w - - 1 2");
    assert_eq!(history.len(), 3);

    let before = board;
    parse_position("position fen nonsense", &mut board, &mut history);
    parse_position("position", &mut board, &mut history);
    parse_position("position other", &mut board, &mut history);
    assert_eq!(board, before);
}

#[test]
fn go_takes_search_moves_to_the_end() {
    let board = Position::startpos();
    let limits = parse_go("go infinite movetime 7 searchmoves e2e4 zz depth g1f3", &board);

    assert!(limits.infinite);
    assert_eq!(limits.movetime, Some(7));
    assert_eq!(limits.depth, None);
    let knight = Move { from: 6, to: 21, promotion: None };
    assert_eq!(limits.searchmoves, vec![E2E4, knight]);
}

#[test]
fn go_drops_numbers_that_are_none() {
    let board = Position::startpos();
    let limits = parse_go("go depth x nodes -1 wtime", &board);

    assert_eq!(limits.depth, None);
    assert_eq!(limits.nodes, None);
    assert_eq!(limits.wtime, None);
    assert_eq!(parse_go("go depth -3", &board).depth, Some(-3));
}

#[test]
fn hash_option_is_held_within_its_range() {
    assert_eq!(parse_hash_option("setoption name Hash value 64"), Some(64));
    assert_eq!(parse_hash_option("setoption name hash value 0"), Some(1));
    assert_eq!(parse_hash_option("setoption name HASH value 99999999"), Some(65_536));
    assert_eq!(parse_hash_option("setoption name Threads value 4"), None);
    assert_eq!(parse_hash_option("setoption name Hash value"), None);
    assert_eq!(parse_hash_option("setoption name Hash value x"), None);
    assert_eq!(parse_hash_option("setoption Hash"), None);
}

#[test]
fn castling_is_written_by_the_squares_of_the_king() {
    let board = Position::from_fen("r3k2r/8/8/8/8/8/8/R3K2R w KQkq - 0 1", false).unwrap();
    let short = Move { from: 4, to: 7, promotion: None };
    assert_eq!(format_uci_move(&board, short), "e1g1");
    assert_eq!(format_uci_move(&Position::startpos(), E2E4), "e2e4");
    let promotion = Move { from: 48, to: 56, promotion: Some(Piece::Queen) };
    assert_eq!(format_uci_move(&Position::startpos(), promotion), "a7a8q");
}

#[test]
fn info_line_has_speed_and_move() {
    let board = Position::startpos();
    let info = SearchInfo { depth: 3, score: -12, nodes: 500, elapsed: 250, pv: vec![E2E4] };
    assert_eq!(
        format_info(&board, &info),
        "info depth 3 score cp -12 nodes 500 time 250 nps 2000 pv e2e4"
    );
    let instant = SearchInfo { depth: 1, score: 0, nodes: 41, elapsed: 0, pv: vec![E2E4] };
    assert_eq!(
        format_info(&board, &instant),
        "info depth 1 score cp 0 nodes 41 time 0 nps 0 pv e2e4"
    );
    let long =
        SearchInfo { depth: 1, score: 0, nodes: u64::MAX, elapsed: 1, pv: vec![E2E4] };
    assert!(format_info(&board, &long).contains("nps 18446744073709551615 "));
}

#[test]
fn best_move_line_has_a_null_move_without_one() {
    let board = Position::startpos();
    let found = SearchResult { best_move: Some(E2E4) };
    assert_eq!(format_best_move(&board, &found), "bestmove e2e4");
    let none = SearchResult { best_move: None };
    assert_eq!(format_best_move(&board, &none), "bestmove 0000");
}

fn printed(actions: &[Action]) -> Vec<String> {
    actions
        .iter()
        .filter_map(|action| match action {
            Action::Print(line) => Some(line.clone()),
            _ => None,
        })
        .collect()
}

#[test]
fn uci_and_isready_are_answered() {
    let mut coordinator = Coordinator::new();
    assert_eq!(
        printed(&coordinator.hear("uci")),
        vec![
            "id name chessbot",
            "id author me",
            "option name Hash type spin default 16 min 1 max 65536",
            "uciok",
        ]
    );
    assert_eq!(printed(&coordinator.hear("  isready ")), vec!["readyok"]);
    assert!(coordinator.hear("").is_empty());
    assert!(coordinator.hear("unknown").is_empty());
}

#[test]
fn a_second_go_stops_the_first() {
    let mut coordinator = Coordinator::new();
    let first = coordinator.hear("go depth 3");
    assert_eq!(first.len(), 1);
    assert!(matches!(first[0], Action::Go { id: 0, .. }));

    let second = coordinator.hear("go depth 4");
    assert_eq!(second.len(), 2);
    assert!(matches!(second[0], Action::Stop(0)));
    assert!(matches!(second[1], Action::Go { id: 1, .. }));

    let board = coordinator.board;
    let info = SearchInfo { depth: 1, score: 0, nodes: 1, elapsed: 0, pv: vec![E2E4] };
    assert!(coordinator.report(0, &board, &info).is_none());
    assert!(coordinator.report(1, &board, &info).is_some());

    let result = SearchResult { best_move: Some(E2E4) };
    assert_eq!(coordinator.conclude(0, &board, &result), "bestmove e2e4");
    assert_eq!(coordinator.active, Some(1));
    assert_eq!(coordinator.conclude(1, &board, &result), "bestmove e2e4");
    assert_eq!(coordinator.active, None);
    assert!(coordinator.hear("stop").is_empty());
}

#[test]
fn every_go_gets_one_best_move() {
    let mut coordinator = Coordinator::new();
    let mut started = Vec::new();
    let mut written = 0;
    for line in ["go depth 1", "isready", "go infinite", "stop", "uci", "go nodes 5", "quit"] {
        for action in coordinator.hear(line) {
            match action {
                Action::Go { id, board, .. } => started.push((id, board)),
                Action::Print(line) => written += usize::from(line.starts_with("bestmove ")),
                _ => {}
            }
        }
    }
    assert_eq!(started.iter().map(|search| search.0).collect::<Vec<u64>>(), vec![0, 1, 2]);
    assert_eq!(written, 0);

    let result = SearchResult { best_move: Some(E2E4) };
    for (id, board) in started {
        let line = coordinator.conclude(id, &board, &result);
        written += usize::from(line.starts_with("bestmove "));
    }
    assert_eq!(written, 3);
    assert_eq!(coordinator.active, None);
}

#[test]
fn only_the_position_command_moves_the_board() {
    let mut coordinator = Coordinator::new();
    coordinator.hear("position startpos moves e2e4");
    let board = coordinator.board;
    assert_eq!(board.side_to_move, Color::Black);
    assert_eq!(coordinator.history.len(), 2);
    for line in ["go", "stop", "uci", "setoption name Hash value 8", "ucinewgame", "quit"] {
        coordinator.hear(line);
        assert_eq!(coordinator.board, board);
    }
    assert_eq!(coordinator.history, vec![board.hash]);
}

#[test]
fn new_game_options_and_quit_reach_the_worker() {
    let mut coordinator = Coordinator::new();
    coordinator.hear("go infinite");
    let option = coordinator.hear("setoption name Hash value 8");
    assert!(matches!(option[0], Action::Stop(0)));
    assert!(matches!(option[1], Action::SetHash(8)));
    assert!(coordinator.hear("setoption name Other value 8").is_empty());
    let game = coordinator.hear("ucinewgame");
    assert!(matches!(game[1], Action::NewGame));
    assert!(!coordinator.quitting);
    let quit = coordinator.hear("quit");
    assert!(matches!(quit[0], Action::Stop(0)));
    assert!(matches!(quit[1], Action::Quit));
    assert!(coordinator.quitting);

    let mut other = Coordinator::new();
    assert!(matches!(other.hang_up()[0], Action::Quit));
    assert!(other.quitting);
}

#[test]
fn go_hands_over_the_position_and_the_game() {
    let mut coordinator = Coordinator::new();
    coordinator.hear("position startpos moves e2e4 e7e5");
    let mut actions = coordinator.hear("go nodes 5");
    match actions.pop() {
        Some(Action::Go { id, board, history, limits }) => {
            assert_eq!(id, 0);
            assert_eq!(board, coordinator.board);
            assert_eq!(history, coordinator.history);
            assert_eq!(limits.nodes, Some(5));
        }
        _ => panic!("no search"),
    }
}

#[test]
fn words_are_split_at_any_space() {
    assert_eq!(split_whitespace(" a\tbc \u{3000}d\n"), vec!["a", "bc", "d"]);
    assert!(split_whitespace(" \r\n").is_empty());
    let list = split_whitespace("a b c");
    assert_eq!(join(&list, 0, 3), "a b c");
    assert_eq!(join(&list, 1, 1), "");
    assert!(eq_ignore_ascii_case("HaSh", "hAsH"));
    assert!(!eq_ignore_ascii_case("hash", "has"));
}

#[test]
fn written_numbers_are_read() {
    for n in [0u64, 9, 10, 12_345, u64::MAX] {
        let mut text = String::new();
        push_decimal(&mut text, n);
        assert_eq!(text, n.to_string());
        assert_eq!(parse_unsigned(&text, u64::MAX), Some(n));
    }
    for n in [0i32, -1, 77, i32::MIN, i32::MAX] {
        let mut text = String::new();
        push_signed(&mut text, n as i64);
        assert_eq!(text, n.to_string());
        assert_eq!(parse_i32(&text), Some(n));
    }
    assert_eq!(parse_unsigned("+7", 10), Some(7));
    assert_eq!(parse_unsigned("11", 10), None);
    assert_eq!(parse_unsigned("18446744073709551616", u64::MAX), None);
    assert_eq!(parse_unsigned("", 10), None);
    assert_eq!(parse_unsigned("-0", 10), None);
    assert_eq!(parse_i32("2147483648"), None);
    assert_eq!(parse_i32("1x"), None);
}
