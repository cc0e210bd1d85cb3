//! Training data: self-play, bulk evaluation and opening positions.

use chessbot::bulk;
use chessbot::bulk::{
    chunk_size, conclude_item, evaluate_item, format_record, format_seconds, is_quiet,
    read_binpack_chunk, search_score, white_result, white_score, Admission, BulkEvent, ChunkError,
    Entry, Evaluated, Intake, WorkItem, MAX_BULLET_SCORE,
};
use chessbot::chess::{Color, Move, Piece, Position};
use chessbot::engine::{Engine, Reductions};
use chessbot::game::{play_game, Game, GameResult, Outcome, PositionRecord, Termination};
use chessbot::genfens::{
    format_fen, normalize_book_line, parse_command, parse_positive, parse_random_plies,
    random_position, BookSampler,
};
use chessbot::nnue::Network;
use chessbot::options::{partial_path, paths_equal, replaces_file};
use chessbot::rng::{is_quiet_move, randomize_opening, shuffle, SplitMix64};
use chessbot::selfplay;
use chessbot::selfplay::{
    choose_opening, format_clock, load_openings, parse_opening, search_failure, Event,
    SelfplayConfig, Tally, DEFAULT_RANDOM_PLIES, DEFAULT_WIN_PLIES, DEFAULT_WIN_SCORE,
};
use chessbot::uci::parse_uci_move;
use std::sync::atomic::AtomicBool;
use std::sync::Arc;

/// A network that counts material, with a little for where the men stand.
fn network() -> Network {
    let worth = [4i16, 12, 13, 20, 36, 0];
    let center = [0i16, 1, 2, 3, 3, 2, 1, 0];
    let mut feature_weights = vec![0i16; 3_932_160];
    for feature in 0..7680usize {
        let inside = feature % 768;
        let own = inside < 384;
        let square = inside % 64;
        let base = feature * 512;
        feature_weights[base + usize::from(!own)] = worth[inside % 384 / 64];
        feature_weights[base + 2 + usize::from(!own)] = center[square % 8] + center[square / 8];
    }
    let mut output_weights = vec![0i16; 8192];
    for bucket in 0..8usize {
        output_weights[bucket * 1024] = 800;
        output_weights[bucket * 1024 + 1] = -800;
        output_weights[bucket * 1024 + 2] = 60;
        output_weights[bucket * 1024 + 3] = -60;
    }
    Network {
        feature_weights,
        feature_bias: vec![0i16; 512],
        output_weights,
        output_bias: vec![0i16; 8],
    }
}

fn new_engine() -> Engine {
    let reductions = Reductions { thresholds: vec![vec![], vec![], vec![2, 20], vec![2, 10]] };
    Engine::new(Arc::new(network()), Arc::new(reductions))
}

fn flag(set: bool) -> Arc<AtomicBool> {
    Arc::new(AtomicBool::new(set))
}

fn args(list: &[&str]) -> Vec<Option<String>> {
    list.iter().map(|text| Some(text.to_string())).collect()
}

fn board(fen: &str) -> Position {
    Position::from_fen(fen, false).unwrap()
}

fn config(max_plies: usize) -> SelfplayConfig {
    SelfplayConfig {
        output: String::new(),
        openings: String::new(),
        positions: 1,
        nodes: 100,
        threads: 1,
        hash_mb: 1,
        max_plies,
        warmup_plies: 0,
        random_plies: 0,
        win_score: DEFAULT_WIN_SCORE,
        win_plies: DEFAULT_WIN_PLIES,
        seed: 1,
        overwrite: false,
    }
}

#[test]
fn parses_bulk_options_and_defaults() {
    let config = bulk::parse_args(
        &args(&[
            "--positions",
            "123",
            "--nodes",
            "456",
            "--threads",
            "3",
            "--hash-mb",
            "2",
            "--input",
            "input.tar.zst",
            "--output",
            "output.txt",
            "--include-tactical",
            "--overwrite",
        ]),
        1,
    )
    .unwrap()
    .unwrap();

    assert_eq!(config.positions, 123);
    assert_eq!(config.nodes, 456);
    assert_eq!(config.threads, 3);
    assert_eq!(config.hash_mb, 2);
    assert_eq!(config.input, "input.tar.zst");
    assert_eq!(config.output, "output.txt");
    assert!(config.include_tactical);
    assert!(config.overwrite);
}

#[test]
fn test_bulk_requires_a_positive_position_count() {
    assert!(bulk::parse_args(&args(&[]), 1).is_err());
    assert!(bulk::parse_args(&args(&["--positions", "0"]), 1).is_err());
}

#[test]
fn converts_scores_and_results_to_white_perspective() {
    assert_eq!(white_score(125, true), 125);
    assert_eq!(white_score(125, false), -125);
    assert_eq!(white_score(100_000, true), MAX_BULLET_SCORE);
    assert_eq!(white_score(-100_000, false), MAX_BULLET_SCORE);

    assert_eq!(white_result(1, true).unwrap(), "1.0");
    assert_eq!(white_result(-1, true).unwrap(), "0.0");
    assert_eq!(white_result(1, false).unwrap(), "0.0");
    assert_eq!(white_result(-1, false).unwrap(), "1.0");
    assert_eq!(white_result(0, false).unwrap(), "0.5");
}

#[test]
fn formats_the_bullet_text_record() {
    let fen = "8/8/8/8/8/8/4K3/7k w - - 0 1";
    assert_eq!(format_record(fen, -42, "0.5"), "8/8/8/8/8/8/4K3/7k w - - 0 1 | -42 | 0.5");
}

#[test]
fn reads_streaming_binpack_chunks() {
    let mut data = b"BINP".to_vec();
    data.extend_from_slice(&3u32.to_le_bytes());
    data.extend_from_slice(&[7, 8, 9]);
    let mut at = 0;
    let mut chunk = Vec::new();

    assert!(read_binpack_chunk(&data, &mut at, &mut chunk).unwrap());
    assert_eq!(chunk, [7, 8, 9]);
    assert!(!read_binpack_chunk(&data, &mut at, &mut chunk).unwrap());
}

#[test]
fn retries_depth_one_when_the_node_limit_is_too_small() {
    let board = board("r2qk2r/pp3p2/2p1p2b/3PPb1p/1P1PB1p1/2N1P2P/P5P1/2RQ1RK1 w kq - 2 20");
    let mut engine = new_engine();

    let scored = search_score(&mut engine, &board, 100, &flag(false));

    assert!(scored.retried);
    assert!(scored.score.is_some());
}

#[test]
fn parses_selfplay_options_and_defaults() {
    let config = selfplay::parse_args(
        &args(&[
            "--positions",
            "100",
            "--nodes",
            "2000",
            "--threads",
            "3",
            "--warmup-plies",
            "0",
        ]),
        1,
    )
    .unwrap()
    .unwrap();

    assert_eq!(config.positions, 100);
    assert_eq!(config.nodes, 2_000);
    assert_eq!(config.threads, 3);
    assert_eq!(config.warmup_plies, 0);
    assert_eq!(config.random_plies, DEFAULT_RANDOM_PLIES);
}

#[test]
fn test_selfplay_requires_a_positive_position_count() {
    assert!(selfplay::parse_args(&args(&[]), 1).is_err());
    assert!(selfplay::parse_args(&args(&["--positions", "0"]), 1).is_err());
}

#[test]
fn quiet_filter_rejects_captures_en_passant_and_promotions() {
    let start = Position::startpos();
    assert!(is_quiet_move(&start, parse_uci_move(&start, "e2e4").unwrap()));

    let capture = board("7k/8/8/3p4/4P3/8/8/K7 w - - 0 1");
    assert!(!is_quiet_move(&capture, parse_uci_move(&capture, "e4d5").unwrap()));

    let en_passant = board("7k/8/8/3pP3/8/8/8/7K w - d6 0 1");
    assert!(!is_quiet_move(&en_passant, parse_uci_move(&en_passant, "e5d6").unwrap()));

    let promotion = board("7k/P7/8/8/8/8/8/7K w - - 0 1");
    assert!(!is_quiet_move(&promotion, parse_uci_move(&promotion, "a7a8q").unwrap()));
}

#[test]
fn random_opening_moves_are_reproducible_and_legal() {
    let mut first = Position::startpos();
    let mut second = Position::startpos();
    randomize_opening(&mut first, 8, &mut SplitMix64::new(42));
    randomize_opening(&mut second, 8, &mut SplitMix64::new(42));

    assert_eq!(first, second);
    assert_ne!(first, Position::startpos());
    assert!(first.piece_on(4).is_some());
}

#[test]
fn nnue_selfplay_produces_valid_bullet_records() {
    let mut engine = new_engine();
    let config = config(24);
    let game = play_game(&mut engine, Position::startpos(), &config, &flag(false)).game.unwrap();

    assert!(game.plies <= config.max_plies);
    for position in game.positions {
        let board = Position::from_fen(&position.fen, false).unwrap();
        assert!(board.occupied().count_ones() > 2);
        assert!(position.white_score.abs() <= MAX_BULLET_SCORE);
    }
}

#[test]
fn normalizes_four_field_epd_to_full_fen() {
    assert_eq!(
        normalize_book_line("rnbqkbnr/pppppppp/8/8/8/8/PPPPPPPP/RNBQKBNR w KQkq -"),
        Some("rnbqkbnr/pppppppp/8/8/8/8/PPPPPPPP/RNBQKBNR w KQkq - 0 1".to_string())
    );
}

#[test]
fn normalizes_epd_clock_operations() {
    assert_eq!(
        normalize_book_line("8/8/8/8/8/8/8/K6k w - - hmvc 12; fmvn 34;"),
        Some("8/8/8/8/8/8/8/K6k w - - 12 34".to_string())
    );
}

#[test]
fn random_positions_are_valid_full_fens() {
    let mut rng = SplitMix64::new(123);
    for _ in 0..32 {
        assert!(Position::parse(&random_position(&mut rng, 6)).is_some());
    }
}

#[test]
fn parses_random_plies_options() {
    let list = |texts: &[&str]| texts.iter().map(|text| text.to_string()).collect::<Vec<_>>();
    assert_eq!(parse_random_plies(&list(&[])).unwrap(), 6);
    assert_eq!(parse_random_plies(&list(&["--random-plies", "9"])).unwrap(), 9);
    assert_eq!(parse_random_plies(&list(&["--plies=3"])).unwrap(), 3);
}

#[test]
fn random_plies_options_can_be_wrong() {
    let list = |texts: &[&str]| texts.iter().map(|text| text.to_string()).collect::<Vec<_>>();
    assert_eq!(
        parse_random_plies(&list(&["--plies"])).unwrap_err(),
        "random plies option requires a value"
    );
    assert_eq!(
        parse_random_plies(&list(&["other", "plies=", "x"])).unwrap_err(),
        "invalid random plies value"
    );
    assert_eq!(parse_random_plies(&list(&["plies=", "4", "plies", "5"])).unwrap(), 5);
    assert_eq!(
        parse_random_plies(&list(&["plies=4=5"])).unwrap_err(),
        "invalid random plies value"
    );
}

#[test]
fn genfens_commands_are_read() {
    let command = parse_command("genfens 3 seed 17 book None --plies 2").unwrap();
    assert_eq!((command.count, command.seed, command.random_plies), (3, 17, 2));
    assert_eq!(command.book, None);
    let command = parse_command("genfens 1 seed 0 book noob.epd").unwrap();
    assert_eq!(command.book, Some("noob.epd".to_string()));
    assert_eq!(command.random_plies, 6);
}

#[test]
fn genfens_commands_can_be_wrong() {
    let error = |line: &str| parse_command(line).err().unwrap();
    assert_eq!(error("fens 3"), "genfens command must start with genfens");
    assert_eq!(error("genfens"), "genfens requires an opening count");
    assert_eq!(error("genfens x"), "invalid opening count");
    assert_eq!(error("genfens 0"), "opening count must be positive");
    assert_eq!(error("genfens 3 sead 1"), "genfens requires seed <u64>");
    assert_eq!(error("genfens 3 seed"), "genfens requires a seed");
    assert_eq!(error("genfens 3 seed -1"), "invalid genfens seed");
    assert_eq!(error("genfens 3 seed 1"), "genfens requires book <path|None>");
    assert_eq!(error("genfens 3 seed 1 book"), "genfens requires book <path|None>");
    assert_eq!(
        error("genfens 3 seed 1 book none plies"),
        "random plies option requires a value"
    );
    assert_eq!(parse_positive(Some("12"), "opening count"), Ok(12));
    assert_eq!(format_fen("x y"), "info string genfens x y");
}

#[test]
fn book_lines_without_a_position_are_passed_over() {
    assert_eq!(normalize_book_line("a b c"), None);
    assert_eq!(normalize_book_line("8/8 w - -"), None);
    assert_eq!(
        normalize_book_line("7k/8/8/8/8/8/8/K7 w - - 300 7"),
        Some("7k/8/8/8/8/8/8/K7 w - - 0 7".to_string())
    );
    assert_eq!(
        normalize_book_line("7k/8/8/8/8/8/8/K7 b - - bm a; FMVN 9;;"),
        Some("7k/8/8/8/8/8/8/K7 b - - 0 9".to_string())
    );
}

#[test]
fn book_sampler_asks_at_random_places_for_a_while() {
    assert_eq!(BookSampler::open("book", 0).err().unwrap(), "book is empty: book");
    let mut sampler = BookSampler::open("book", 10).unwrap();
    let mut rng = SplitMix64::new(5);
    let mut same = SplitMix64::new(5);
    for _ in 0..128 {
        assert_eq!(sampler.next_offset(&mut rng).unwrap(), same.next_u64() % 10);
    }
    assert_eq!(
        sampler.next_offset(&mut rng).err().unwrap(),
        "unable to sample a valid FEN from the opening book"
    );
    sampler.start();
    assert!(sampler.next_offset(&mut rng).is_ok());
}

#[test]
fn sampled_lines_become_positions() {
    let mut rng = SplitMix64::new(5);
    assert!(BookSampler::sample_board("nothing", &mut rng, 2).unwrap().is_none());
    assert_eq!(rng.state, 5);
    let line = "rnbqkbnr/pppppppp/8/8/8/8/PPPPPPPP/RNBQKBNR w KQkq -";
    let plain = BookSampler::sample_board(line, &mut rng, 0).unwrap().unwrap();
    assert_eq!(plain, Position::startpos());
    let mut same = SplitMix64::new(5);
    let moved = BookSampler::sample_board(line, &mut rng, 3).unwrap().unwrap();
    assert_eq!(moved.fen(), random_position(&mut same, 3));
}

#[test]
fn generator_gives_known_numbers() {
    let mut rng = SplitMix64::new(1_234_567);
    let drawn: Vec<u64> = (0..3).map(|_| rng.next_u64()).collect();
    assert_eq!(
        drawn,
        vec![6_457_827_717_110_365_317, 3_203_168_211_198_807_973, 9_817_491_932_198_370_423]
    );
}

#[test]
fn shuffling_keeps_the_numbers() {
    let mut first: Vec<u32> = (0..50).collect();
    let mut second: Vec<u32> = (0..50).collect();
    shuffle(&mut first, 9);
    shuffle(&mut second, 9);
    assert_eq!(first, second);
    assert_ne!(first, (0..50).collect::<Vec<u32>>());
    first.sort();
    assert_eq!(first, (0..50).collect::<Vec<u32>>());
    let mut one = vec![1u8];
    shuffle(&mut one, 9);
    assert_eq!(one, vec![1]);
}

#[test]
fn option_errors_name_the_option() {
    let bulk_error = |list: &[&str]| bulk::parse_args(&args(list), 1).err().unwrap();
    let play_error = |list: &[&str]| selfplay::parse_args(&args(list), 1).err().unwrap();
    assert_eq!(bulk_error(&["--nodes"]), "missing value for --nodes");
    assert_eq!(bulk_error(&["--nodes", "x"]), "invalid value for --nodes: x");
    assert_eq!(bulk_error(&["--threads", "0"]), "--threads must be positive");
    assert!(bulk_error(&["--other"]).starts_with("unknown option: --other\n\nUsage: chessbot"));
    assert_eq!(
        bulk_error(&["--positions", "1", "--input", "x/a", "--output", "x//a/."]),
        "input and output paths must differ"
    );
    assert!(bulk_error(&[]).starts_with("--positions is required and must be positive\n\nUsage"));
    assert_eq!(play_error(&["--win-score", "0"]), "--win-score must be positive");
    assert_eq!(play_error(&["--win-score", "1.5"]), "invalid value for --win-score: 1.5");
    assert_eq!(play_error(&["--seed", "x"]), "invalid --seed");
    assert_eq!(play_error(&["--random-plies", "-1"]), "invalid value for --random-plies: -1");
    let mut broken = args(&["--positions"]);
    broken.push(None);
    assert_eq!(
        selfplay::parse_args(&broken, 1).err().unwrap(),
        "value for --positions must be valid UTF-8"
    );
    assert_eq!(
        selfplay::parse_args(&vec![None], 1).err().unwrap(),
        "arguments must be valid UTF-8"
    );
    assert!(selfplay::parse_args(&args(&["--help"]), 1).unwrap().is_none());
    assert!(bulk::parse_args(&args(&["-h"]), 1).unwrap().is_none());
}

#[test]
fn all_selfplay_options_are_taken() {
    let list = [
        "--output", "o", "--openings", "b", "--positions", "5", "--nodes", "6", "--threads", "7",
        "--hash-mb", "8", "--max-plies", "9", "--warmup-plies", "10", "--random-plies", "11",
        "--win-score", "-12", "--win-plies", "13", "--seed", "14", "--overwrite",
    ];
    let c = selfplay::parse_args(&args(&list), 1).unwrap().unwrap();
    assert_eq!((c.output.as_str(), c.openings.as_str()), ("o", "b"));
    assert_eq!((c.positions, c.nodes, c.threads, c.hash_mb), (5, 6, 7, 8));
    assert_eq!((c.max_plies, c.warmup_plies, c.random_plies), (9, 10, 11));
    assert_eq!((c.win_score, c.win_plies, c.seed, c.overwrite), (-12, 13, 14, true));
}

#[test]
fn paths_are_compared_by_their_parts() {
    assert!(paths_equal("a/b", "a//b/"));
    assert!(paths_equal("a/./b", "a/b"));
    assert!(!paths_equal("/a/b", "a/b"));
    assert!(!paths_equal("./a", "a"));
    assert!(!paths_equal("a/b", "a/c"));
    assert_eq!(partial_path("out.txt"), "out.txt.part");
    assert_eq!(replaces_file("x", false, false), Ok(false));
    assert_eq!(replaces_file("x", true, true), Ok(true));
    assert_eq!(
        replaces_file("x", true, false),
        Err("output already exists: x; use --overwrite".to_string())
    );
}

#[test]
fn chunks_are_read_one_after_the_other() {
    let mut data = Vec::new();
    let chunks = [vec![1u8; 300], vec![], vec![9u8, 8]];
    for chunk in &chunks {
        data.extend_from_slice(b"BINP");
        data.extend_from_slice(&(chunk.len() as u32).to_le_bytes());
        data.extend_from_slice(chunk);
    }
    let mut at = 0;
    let mut read = Vec::new();
    for chunk in &chunks {
        assert_eq!(read_binpack_chunk(&data, &mut at, &mut read), Ok(true));
        assert_eq!(&read, chunk);
    }
    assert_eq!(at, data.len());
    assert_eq!(read_binpack_chunk(&data, &mut at, &mut read), Ok(false));
}

#[test]
fn broken_chunks_are_told_apart() {
    let mut chunk = vec![1u8];
    let mut at = 0;
    assert_eq!(read_binpack_chunk(b"BIN", &mut at, &mut chunk), Err(ChunkError::Truncated));
    assert_eq!(
        read_binpack_chunk(b"BINQ\x01\0\0\0\x05", &mut at, &mut chunk),
        Err(ChunkError::Header)
    );
    assert_eq!(
        read_binpack_chunk(b"BINP\x02\0\0\0\x05", &mut at, &mut chunk),
        Err(ChunkError::Truncated)
    );
    assert_eq!(
        read_binpack_chunk(b"BINP\x01\0\x40\x06", &mut at, &mut chunk),
        Err(ChunkError::Size(104_857_601))
    );
    assert_eq!((at, chunk), (0, vec![1]));
    assert_eq!(chunk_size(b"BINP\0\0\x40\x06", 0), Ok(104_857_600));
}

#[test]
fn invalid_results_are_refused() {
    assert_eq!(white_result(2, true).unwrap_err(), "invalid binpack game result: 2");
    assert_eq!(
        white_result(i16::MIN, false).unwrap_err(),
        "invalid binpack game result: -32768"
    );
    assert_eq!(white_score(i32::MIN, false), MAX_BULLET_SCORE);
}

fn entry(fen: &str) -> Entry {
    Entry {
        fen: Some(fen.to_string()),
        white_to_move: true,
        ply: 16,
        in_check: false,
        score: 10_000,
        normal_move: true,
        target_empty: true,
        result: -1,
    }
}

#[test]
fn only_quiet_entries_are_calm() {
    let fen = "7k/8/8/8/8/8/8/K7 w - - 0 1";
    assert!(is_quiet(&entry(fen)));
    assert!(!is_quiet(&Entry { ply: 15, ..entry(fen) }));
    assert!(!is_quiet(&Entry { in_check: true, ..entry(fen) }));
    assert!(!is_quiet(&Entry { score: -10_001, ..entry(fen) }));
    assert!(!is_quiet(&Entry { normal_move: false, ..entry(fen) }));
    assert!(!is_quiet(&Entry { target_empty: false, ..entry(fen) }));
}

#[test]
fn intake_sorts_entries_out() {
    let fen = "7k/8/8/8/8/8/8/K7 w - - 0 1";
    let mut intake = Intake::new(1, false);
    assert!(matches!(
        intake.consider(Entry { ply: 3, ..entry(fen) }),
        Ok(Admission::Filtered)
    ));
    assert!(matches!(intake.consider(Entry { fen: None, ..entry(fen) }), Ok(Admission::Invalid)));
    assert!(matches!(intake.consider(entry("x")), Ok(Admission::Invalid)));
    assert!(intake.consider(Entry { result: 7, ..entry(fen) }).is_err());
    assert_eq!(
        intake.finish(false).unwrap_err(),
        "archive contained only 0 usable positions; requested 1"
    );
    assert_eq!(intake.finish(true), Ok(0));
    match intake.consider(entry(fen)) {
        Ok(Admission::Work(item)) => {
            assert_eq!(item.fen, fen);
            assert_eq!(item.result, "0.0");
            assert_eq!(item.board, board(fen));
        }
        _ => panic!("no work"),
    }
    assert!(!intake.is_full());
    intake.hand_out();
    assert!(intake.is_full());
    assert_eq!(intake.finish(false), Ok(1));
    assert_eq!((intake.scanned, intake.filtered, intake.invalid), (5, 1, 2));
    let mut tactical = Intake::new(1, true);
    assert!(matches!(
        tactical.consider(Entry { ply: 3, ..entry(fen) }),
        Ok(Admission::Work(_))
    ));
}

#[test]
fn evaluated_positions_become_lines() {
    let fen = "7k/8/8/8/8/8/8/KQ6 b - - 0 1";
    let item =
        WorkItem { fen: fen.to_string(), board: board(fen), result: "1.0".to_string() };
    match conclude_item(2, &item, Some(-40), false) {
        Evaluated::Line(line) => assert_eq!(line, format!("{fen} | 40 | 1.0")),
        _ => panic!("no line"),
    }
    match conclude_item(2, &item, None, false) {
        Evaluated::Failed(error) => {
            assert_eq!(error, format!("worker 2 did not complete depth 1 for FEN {fen}"))
        }
        _ => panic!("no failure"),
    }
    assert!(matches!(conclude_item(2, &item, None, true), Evaluated::Cancelled));
    let mut engine = new_engine();
    let searched = evaluate_item(&mut engine, 0, &item, 200, &flag(false));
    assert!(!searched.cut_short);
    let score = search_score(&mut new_engine(), &item.board, 200, &flag(false)).score.unwrap();
    match searched.evaluated {
        Evaluated::Line(line) => assert_eq!(line, format!("{fen} | {} | 1.0", -score)),
        _ => panic!("no line"),
    }
    let stopped = evaluate_item(&mut engine, 0, &item, 200, &flag(true));
    assert!(stopped.cut_short);
    assert!(matches!(stopped.evaluated, Evaluated::Cancelled));
}

#[test]
fn bulk_collector_counts_lines_and_keeps_the_first_error() {
    let mut collector = bulk::Collector::new(2, 1);
    assert!(collector.is_running());
    let reaction = collector.take(BulkEvent::Evaluated("a".to_string()));
    assert_eq!(reaction.write, Some("a".to_string()));
    assert!(!reaction.progress && !reaction.cancel);
    assert!(collector.take(BulkEvent::Evaluated("b".to_string())).progress);
    assert!(!collector.take(BulkEvent::ReaderDone(Ok(2))).cancel);
    assert!(collector.is_running());
    collector.take(BulkEvent::WorkerDone);
    assert!(!collector.is_running());
    assert_eq!(collector.finish(), Ok(2));

    let mut failing = bulk::Collector::new(2, 1);
    assert!(failing.take(BulkEvent::WorkerError("first".to_string())).cancel);
    assert!(failing.take(BulkEvent::ReaderDone(Err("second".to_string()))).cancel);
    assert_eq!(failing.finish(), Err("first".to_string()));

    let short = bulk::Collector::new(2, 1);
    assert_eq!(short.finish(), Err("expected 2 positions but evaluated 0".to_string()));
}

fn game_result(positions: usize, outcome: Outcome, termination: Termination) -> GameResult {
    let record =
        |i: usize| PositionRecord { fen: format!("fen{i}"), white_score: i as i32 - 1 };
    GameResult { positions: (0..positions).map(record).collect(), outcome, termination, plies: 9 }
}

#[test]
fn selfplay_collector_takes_what_is_wanted() {
    let mut collector = selfplay::Collector::new(3, 1);
    let game = game_result(2, Outcome::WhiteWin, Termination::Checkmate);
    let first = collector.take(Event::Game(game));
    assert_eq!(first.lines, vec!["fen0 | -1 | 1.0", "fen1 | 0 | 1.0"]);
    assert!(!first.cancel && !first.progress);
    let game = game_result(2, Outcome::Draw, Termination::RulesDraw);
    let second = collector.take(Event::Game(game));
    assert_eq!(second.lines, vec!["fen0 | -1 | 0.5"]);
    assert!(second.cancel && second.progress);
    let game = game_result(2, Outcome::BlackWin, Termination::Checkmate);
    assert!(collector.take(Event::Game(game)).lines.is_empty());
    collector.take(Event::WorkerDone);
    assert!(!collector.is_running());
    assert_eq!(collector.finish(), Ok(3));

    let mut failing = selfplay::Collector::new(3, 1);
    assert!(failing.take(Event::Error("a".to_string())).cancel);
    failing.take(Event::Error("b".to_string()));
    assert_eq!(failing.finish(), Err("a".to_string()));
    let short = selfplay::Collector::new(3, 1);
    assert_eq!(short.finish(), Err("expected 3 positions but wrote 0".to_string()));
}

#[test]
fn games_are_tallied_once() {
    let mut tally = Tally::new();
    tally.count_game(&game_result(2, Outcome::WhiteWin, Termination::Checkmate));
    tally.count_game(&game_result(0, Outcome::Draw, Termination::MaxPlies));
    tally.count_game(&game_result(1, Outcome::BlackWin, Termination::ScoreAdjudication));
    tally.count_game(&game_result(1, Outcome::Draw, Termination::Repetition));
    tally.count_game(&game_result(1, Outcome::Draw, Termination::RulesDraw));
    assert_eq!((tally.games, tally.plies, tally.candidates), (5, 45, 5));
    assert_eq!((tally.white_wins, tally.draws, tally.black_wins), (1, 3, 1));
    assert_eq!((tally.checkmates, tally.rules_draws, tally.repetitions), (1, 1, 1));
    assert_eq!((tally.max_plies, tally.score_adjudications), (1, 1));
}

#[test]
fn openings_are_read_line_by_line() {
    let start = Position::startpos();
    let line = "rnbqkbnr/pppppppp/8/8/8/8/PPPPPPPP/RNBQKBNR w KQkq - hmvc 5;";
    assert_eq!(parse_opening(line), Some(start));
    assert_eq!(parse_opening("a b c"), None);
    let lines = vec!["".to_string(), line.to_string(), "x y z w".to_string()];
    assert_eq!(load_openings("book", &lines).unwrap(), vec![start]);
    assert_eq!(
        load_openings("book", &vec!["x".to_string()]).err().unwrap(),
        "opening file contained no valid positions: book"
    );
    let other = board("7k/8/8/8/8/8/8/K7 w - - 0 1");
    let openings = vec![start, other];
    assert_eq!(choose_opening(&openings, 1, 0, 4), start);
    assert_eq!(choose_opening(&openings, 1, 0, 5), other);
    let mut expected = other;
    let mut rng = SplitMix64::new(77 ^ 5u64.wrapping_mul(0x9e37_79b9_7f4a_7c15));
    randomize_opening(&mut expected, 3, &mut rng);
    assert_eq!(choose_opening(&openings, 77, 3, 5), expected);
    assert_eq!(search_failure(4), "worker 4 could not complete a depth-one search");
}

#[test]
fn games_end_by_the_rules() {
    let mated = Game::new(board("7k/6Q1/5K2/8/8/8/8/8 b - - 0 1"));
    assert_eq!(mated.verdict(10), Some((Outcome::WhiteWin, Termination::Checkmate)));
    let lost = Game::new(board("8/8/8/8/8/5k2/6q1/7K w - - 0 1"));
    assert_eq!(lost.verdict(10), Some((Outcome::BlackWin, Termination::Checkmate)));
    let drawn = Game::new(board("7k/5K2/6Q1/8/8/8/8/8 b - - 0 1"));
    assert_eq!(drawn.verdict(10), Some((Outcome::Draw, Termination::RulesDraw)));
    let start = Game::new(Position::startpos());
    assert_eq!(start.verdict(0), Some((Outcome::Draw, Termination::MaxPlies)));
    assert_eq!(start.verdict(1), None);
}

#[test]
fn third_occurrence_ends_a_game() {
    let mut game = Game::new(board("7k/8/8/8/8/8/8/KQ6 w - - 0 1"));
    let shuffle = ["b1b2", "h8g8", "b2b1", "g8h8"];
    for round in 0..2 {
        assert_eq!(game.verdict(100), None, "round {round}");
        for text in shuffle {
            let mv = parse_uci_move(&game.board, text).unwrap();
            assert!(game.board.moves().contains(&mv));
            game.advance(mv);
        }
    }
    assert_eq!(game.plies, 8);
    assert_eq!(game.verdict(100), Some((Outcome::Draw, Termination::Repetition)));
}

#[test]
fn positions_are_kept_once_and_only_when_quiet() {
    let mut config = config(100);
    config.warmup_plies = 0;
    let mut game = Game::new(board("7k/8/8/3p4/4P3/8/8/K7 b - - 0 1"));
    let quiet = Move { from: 63, to: 62, promotion: None };
    let capture = parse_uci_move(&game.board, "d5e4").unwrap();
    game.note(&config, capture, 10);
    assert!(game.positions.is_empty());
    game.note(&config, quiet, 10_001);
    assert!(game.positions.is_empty());
    game.note(&config, quiet, 25);
    assert_eq!(game.positions.len(), 1);
    assert_eq!(game.positions[0].fen, "7k/8/8/3p4/4P3/8/8/K7 b - - 0 1");
    assert_eq!(game.positions[0].white_score, -25);
    game.note(&config, quiet, 25);
    assert_eq!(game.positions.len(), 1);
    config.warmup_plies = 1;
    let mut early = Game::new(board("7k/8/8/3p4/4P3/8/8/K7 b - - 0 1"));
    early.note(&config, quiet, 25);
    assert!(early.positions.is_empty());
    let mut check = Game::new(board("7k/8/8/8/8/8/1Q6/K7 b - - 0 1"));
    config.warmup_plies = 0;
    check.note(&config, quiet, 25);
    assert!(check.positions.is_empty());
    assert_eq!(check.finish(Outcome::Draw, Termination::MaxPlies).positions.len(), 0);
}

#[test]
fn long_leads_are_adjudged() {
    let mut config = config(100);
    config.win_plies = 2;
    let quiet = Move { from: 12, to: 28, promotion: None };
    let mut game = Game::new(Position::startpos());
    assert_eq!(game.note(&config, quiet, 1_500), None);
    assert_eq!(game.note(&config, quiet, 1_499), None);
    assert_eq!(game.white_streak, 0);
    game.advance(quiet);
    let reply = Move { from: 52, to: 36, promotion: None };
    assert_eq!(game.note(&config, reply, 1_500), None);
    assert_eq!(game.black_streak, 1);
    game.advance(reply);
    let next = Move { from: 6, to: 21, promotion: None };
    assert_eq!(game.note(&config, next, -1_500), Some(Outcome::BlackWin));
    let kept = game.finish(Outcome::BlackWin, Termination::ScoreAdjudication);
    assert_eq!((kept.plies, kept.positions.len()), (2, 3));
    assert_eq!(kept.outcome.text(), "0.0");
    assert_eq!((Outcome::WhiteWin.text(), Outcome::Draw.text()), ("1.0", "0.5"));
}

#[test]
fn won_games_are_played_to_their_end() {
    let mut engine = new_engine();
    let mut config = config(60);
    config.nodes = 400;
    let start = board("6k1/5ppp/8/8/8/8/8/R6K w - - 0 1");
    let played = play_game(&mut engine, start, &config, &flag(false));
    assert!(!played.cut_short);
    let game = played.game.unwrap();
    assert_eq!((game.outcome, game.plies), (Outcome::WhiteWin, 1));
    assert_eq!(game.termination, Termination::Checkmate);
    let again = play_game(&mut engine, start, &config, &flag(false)).game.unwrap();
    assert_eq!((again.outcome, again.plies), (Outcome::WhiteWin, 1));
}

#[test]
fn cancelled_games_have_no_result() {
    let played = play_game(&mut new_engine(), Position::startpos(), &config(20), &flag(true));
    assert!(played.game.is_none() && played.cut_short);
}

#[test]
fn games_without_a_first_move_end_at_once() {
    let mated = board("7k/6Q1/5K2/8/8/8/8/8 b - - 0 1");
    let game = play_game(&mut new_engine(), mated, &config(20), &flag(false)).game.unwrap();
    assert_eq!((game.plies, game.outcome), (0, Outcome::WhiteWin));
    let scored = search_score(&mut new_engine(), &mated, 100, &flag(false));
    assert_eq!(scored.score, None);
    assert!(scored.retried);
}

#[test]
fn quiet_moves_are_found_by_file() {
    let position = board("6k1/8/8/3pP3/8/8/8/R3K2R w KQ d6 0 1");
    let castle = Move { from: 4, to: 7, promotion: None };
    assert!(!is_quiet_move(&position, castle));
    let rook = Move { from: 0, to: 1, promotion: None };
    assert!(is_quiet_move(&position, rook));
    assert_eq!(position.try_play(rook).unwrap().side_to_move, Color::Black);
    assert_eq!(position.piece_on(35), Some(Piece::Pawn));
}

#[test]
fn times_are_written_in_both_ways() {
    assert_eq!(format_seconds(0), "0s");
    assert_eq!(format_seconds(59), "59s");
    assert_eq!(format_seconds(61), "1m01s");
    assert_eq!(format_seconds(3_600 * 12 + 5 * 60), "12h05m");
    assert_eq!(format_clock(0), "00:00:00");
    assert_eq!(format_clock(3_600 * 101 + 62), "101:01:02");
}
