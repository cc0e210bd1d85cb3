//! The evaluation network and its incremental state.

use chessbot::chess::{Color, Piece, Position};
use chessbot::moves::EngineMove;
use chessbot::nnue::{
    divide, feature_index, king_bucket, output_bucket, perspective_xor, read_i16, Accumulator,
    Network, NetworkError, NnueState, MAX_EVAL,
};
use chessbot::uci::parse_uci_move;

const A2: u8 = 8;
const A7: u8 = 48;

/// A network with weights that look random. Both views count against each
/// other, so that only the bias is left where they are the same.
fn network() -> Network {
    let mut state = 0x1234_5678_9abc_def1u64;
    let mut next = move || {
        state ^= state << 13;
        state ^= state >> 7;
        state ^= state << 17;
        state
    };
    let feature_weights: Vec<i16> =
        (0..3_932_160).map(|_| (next() % 61) as i16 - 30).collect();
    let feature_bias: Vec<i16> = (0..512).map(|_| (next() % 101) as i16 - 20).collect();
    let mut output_weights = vec![0i16; 8192];
    for bucket in 0..8usize {
        for hidden in 0..512usize {
            let weight = (next() % 41) as i16 - 20;
            output_weights[bucket * 1024 + hidden] = weight;
            output_weights[bucket * 1024 + 512 + hidden] = -weight;
        }
    }
    Network { feature_weights, feature_bias, output_weights, output_bias: vec![1_796; 8] }
}

fn assert_incremental_move(fen: &str, move_text: &str) {
    let network = network();
    let board = Position::from_fen(fen, false).unwrap();
    let mv = parse_uci_move(&board, move_text).unwrap();
    let piece = board.piece_on(mv.from).unwrap();
    let engine_move = EngineMove::new(&board, mv, piece, false);
    let mut incremental = NnueState::from_board(&network, &board);

    let after = board.try_play(mv).unwrap();
    incremental.play_move(&network, &after, board.side_to_move, &engine_move);

    let rebuilt = NnueState::from_board(&network, &after);
    assert_eq!(incremental, rebuilt);
    assert_eq!(
        incremental.evaluate(&network, after.side_to_move),
        rebuilt.evaluate(&network, after.side_to_move)
    );
}

#[test]
fn chess768_features_match_bullet_perspectives() {
    let (white, black) = (0, 56);
    assert_eq!(feature_index(Color::White, Color::White, Piece::Pawn, A2, white), 8);
    assert_eq!(feature_index(Color::White, Color::Black, Piece::Pawn, A7, white), 432);
    assert_eq!(feature_index(Color::Black, Color::Black, Piece::Pawn, A7, black), 8);
    assert_eq!(feature_index(Color::Black, Color::White, Piece::Pawn, A2, black), 432);
}

#[test]
fn incrementally_updates_quiet_moves_and_captures() {
    assert_incremental_move(
        "rnbqkbnr/pppppppp/8/8/8/8/PPPPPPPP/RNBQKBNR w KQkq - 0 1",
        "e2e4",
    );
    assert_incremental_move("7k/8/8/3p4/4P3/8/8/K7 w - - 0 1", "e4d5");
}

#[test]
fn incrementally_updates_en_passant() {
    assert_incremental_move("7k/8/8/3pP3/8/8/8/7K w - d6 0 1", "e5d6");
    assert_incremental_move("7k/8/8/8/3Pp3/8/8/7K b - d3 0 1", "e4d3");
}

#[test]
fn incrementally_updates_promotions() {
    assert_incremental_move("7k/P7/8/8/8/8/8/7K w - - 0 1", "a7a8q");
    assert_incremental_move("7k/8/8/8/8/8/p7/7K b - - 0 1", "a2a1n");
    assert_incremental_move("1r5k/P7/8/8/8/8/8/7K w - - 0 1", "a7b8q");
}

#[test]
fn incrementally_updates_castling() {
    assert_incremental_move("r3k2r/8/8/8/8/8/8/R3K2R w KQkq - 0 1", "e1g1");
    assert_incremental_move("r3k2r/8/8/8/8/8/8/R3K2R w KQkq - 0 1", "e1c1");
    assert_incremental_move("r3k2r/8/8/8/8/8/8/R3K2R b KQkq - 0 1", "e8g8");
    assert_incremental_move("r3k2r/8/8/8/8/8/8/R3K2R b KQkq - 0 1", "e8c8");
}

#[test]
fn incremental_state_matches_recomputation_for_a_move_sequence() {
    let network = network();
    let mut board = Position::startpos();
    let mut state = NnueState::from_board(&network, &board);

    for move_text in [
        "e2e4", "c7c5", "g1f3", "d7d6", "d2d4", "c5d4", "f3d4", "g8f6", "b1c3", "a7a6", "c1e3",
        "e7e5", "d4b3", "c8e6", "f2f3", "b8d7", "d1d2", "b7b5", "e1c1",
    ] {
        let mv = parse_uci_move(&board, move_text).unwrap();
        let piece = board.piece_on(mv.from).unwrap();
        let engine_move = EngineMove::new(&board, mv, piece, false);
        let after = board.try_play(mv).unwrap();
        state.play_move(&network, &after, board.side_to_move, &engine_move);
        board = after;
        assert_eq!(state, NnueState::from_board(&network, &board), "after {move_text}");
    }
}

#[test]
fn state_keeps_a_distinct_accumulator_for_each_perspective() {
    let network = network();
    let board = Position::from_fen("7k/8/8/8/4P3/8/8/K7 w - - 0 1", false).unwrap();
    let state = NnueState::from_board(&network, &board);
    let bucket = state.output_bucket as usize;

    assert_ne!(state.accumulators[0], state.accumulators[1]);
    assert_eq!(
        state.evaluate(&network, Color::White),
        network.evaluate(&state.accumulators[0], &state.accumulators[1], bucket)
    );
    assert_eq!(
        state.evaluate(&network, Color::Black),
        network.evaluate(&state.accumulators[1], &state.accumulators[0], bucket)
    );
}

/// A network of three hidden values: own pawns, own knights, and the rooks of
/// the other side. Nothing but the hidden values counts.
fn counting() -> Network {
    let mut feature_weights = vec![0i16; 3_932_160];
    for bucket in 0..10usize {
        for square in 0..64usize {
            let feature = |own: bool, piece: usize| {
                (bucket * 768 + usize::from(!own) * 384 + piece * 64 + square) * 512
            };
            feature_weights[feature(true, 0)] = 4;
            feature_weights[feature(true, 1) + 1] = 5;
            feature_weights[feature(false, 3) + 2] = 6;
        }
    }
    let mut output_weights = vec![0i16; 8192];
    for bucket in 0..8usize {
        output_weights[bucket * 1024] = 300;
        output_weights[bucket * 1024 + 1] = 200;
        output_weights[bucket * 1024 + 2] = -100;
        output_weights[bucket * 1024 + 512] = 142;
    }
    Network {
        feature_weights,
        feature_bias: vec![0i16; 512],
        output_weights,
        output_bias: vec![0; 8],
    }
}

#[test]
fn startpos_evaluation_is_bit_stable() {
    let network = counting();
    let state = NnueState::from_board(&network, &Position::startpos());
    assert_eq!(state.evaluate(&network, Color::White), 44);
    assert_eq!(state.evaluate(&network, Color::Black), 44);
}

#[test]
fn evaluation_changes_with_what_is_on_the_board() {
    let network = counting();
    let value = |fen: &str, side: Color| {
        let board = Position::from_fen(fen, false).unwrap();
        NnueState::from_board(&network, &board).evaluate(&network, side)
    };
    let no_pawn = "rnbqkbnr/pppppppp/8/8/8/8/1PPPPPPP/RNBQKBNR w KQkq - 0 1";
    let sum: i32 = 28 * 28 * 300 + 10 * 10 * 200 - 12 * 12 * 100 + 32 * 32 * 142;
    assert_eq!(value(no_pawn, Color::White), sum / 255 * 400 / (255 * 64));
    let sum: i32 = 32 * 32 * 300 + 10 * 10 * 200 - 12 * 12 * 100 + 28 * 28 * 142;
    assert_eq!(value(no_pawn, Color::Black), sum / 255 * 400 / (255 * 64));
}

#[test]
fn evaluation_follows_the_formula() {
    let mut us = Accumulator { values: [0; 512] };
    let mut them = Accumulator { values: [0; 512] };
    us.values[0] = 100;
    us.values[1] = 300;
    us.values[2] = -50;
    them.values[511] = 7;
    let mut network = network();
    network.output_weights = vec![0; 8192];
    network.output_weights[3 * 1024] = 20;
    network.output_weights[3 * 1024 + 1] = -3;
    network.output_weights[3 * 1024 + 2] = 1_000;
    network.output_weights[3 * 1024 + 1023] = 11;
    network.output_bias = vec![0, 0, 0, 500, 0, 0, 0, 0];
    let sum: i32 = 100 * 100 * 20 - 255 * 255 * 3 + 7 * 7 * 11;
    assert_eq!(network.evaluate(&us, &them, 3), (sum / 255 + 500) * 400 / (255 * 64));
    assert_eq!(network.evaluate(&us, &them, 2), 0);
}

#[test]
fn evaluation_stays_within_its_bound() {
    let full = Accumulator { values: [i16::MAX; 512] };
    let empty = Accumulator { values: [0; 512] };
    let mut network = network();
    network.output_weights = vec![0; 8192];
    for hidden in 0..512 {
        network.output_weights[hidden] = 64;
        network.output_weights[512 + hidden] = -64;
    }
    network.output_bias = vec![i16::MAX; 8];
    let best = network.evaluate(&full, &empty, 0);
    assert_eq!(best as i64, (64 * 512 * 255 + i16::MAX as i64) * 400 / (255 * 64));
    assert!(best <= MAX_EVAL);
    network.output_bias = vec![i16::MIN; 8];
    let worst = network.evaluate(&empty, &full, 0);
    assert!(worst < 0 && worst >= -MAX_EVAL);
}

#[test]
fn features_turn_with_the_king() {
    let left = Position::from_fen("7k/8/8/8/8/8/8/K7 w - - 0 1", false).unwrap();
    assert_eq!(perspective_xor(&left, Color::White), 0);
    assert_eq!(perspective_xor(&left, Color::Black), 63);
    let right = Position::from_fen("k7/8/8/8/8/8/8/7K w - - 0 1", false).unwrap();
    assert_eq!(perspective_xor(&right, Color::White), 7);
    assert_eq!(perspective_xor(&right, Color::Black), 56);
}

#[test]
fn buckets_follow_king_and_piece_count() {
    let start = Position::startpos();
    assert_eq!(king_bucket(&start, Color::White), 3);
    assert_eq!(king_bucket(&start, Color::Black), 3);
    assert_eq!(output_bucket(&start), 7);
    let bare = Position::from_fen("8/8/8/k7/8/8/6K1/8 w - - 0 1", false).unwrap();
    assert_eq!(king_bucket(&bare, Color::White), 4);
    assert_eq!(king_bucket(&bare, Color::Black), 7);
    assert_eq!(output_bucket(&bare), 0);
}

#[test]
fn turning_the_king_rebuilds_its_view() {
    assert_incremental_move("7k/8/8/8/8/8/8/3K4 w - - 0 1", "d1e1");
    assert_incremental_move("7k/8/8/8/8/8/8/3K4 w - - 0 1", "d1d2");
    assert_incremental_move("3k4/8/8/8/8/8/8/3K4 b - - 0 1", "d8e8");
}

#[test]
fn state_does_not_depend_on_the_side_to_move() {
    let network = network();
    let white = Position::from_fen("7k/8/8/3p4/4P3/8/8/K7 w - - 0 1", false).unwrap();
    let black = Position::from_fen("7k/8/8/3p4/4P3/8/8/K7 b - - 0 1", false).unwrap();
    assert_eq!(
        NnueState::from_board(&network, &white),
        NnueState::from_board(&network, &black)
    );
}

#[test]
fn network_is_read_from_its_bytes() {
    let mut bytes = vec![0u8; 7_881_792];
    bytes[0] = 0xfe;
    bytes[1] = 0xff;
    bytes[7_864_320] = 5;
    bytes[7_865_344] = 7;
    bytes[7_881_728 + 14] = 1;
    bytes[7_881_728 + 15] = 1;
    let network = Network::from_bytes(&bytes).unwrap();
    assert_eq!(network.feature_weights.len(), 3_932_160);
    assert_eq!(network.feature_weights[0], -2);
    assert_eq!(network.feature_bias[0], 5);
    assert_eq!(network.output_weights[0], 7);
    assert_eq!(network.output_bias, vec![0, 0, 0, 0, 0, 0, 0, 257]);
    assert_eq!(read_i16(&bytes, 0), -2);
}

#[test]
fn network_of_another_size_is_refused() {
    assert!(matches!(Network::from_bytes(&[0; 10]), Err(NetworkError::Size)));
    assert!(matches!(Network::from_bytes(&vec![0; 7_881_793]), Err(NetworkError::Size)));
}

#[test]
fn network_with_too_large_weights_is_refused() {
    let mut bytes = vec![0u8; 7_881_792];
    for byte in &mut bytes[7_865_344..7_881_728] {
        *byte = 0x7f;
    }
    assert!(matches!(Network::from_bytes(&bytes), Err(NetworkError::Weights)));
}

#[test]
fn division_rounds_towards_zero() {
    assert_eq!(divide(7, 2), 3);
    assert_eq!(divide(-7, 2), -3);
    assert_eq!(divide(0, 5), 0);
}

#[test]
fn empty_state_is_the_bias() {
    let network = network();
    let state = NnueState::empty(&network);
    assert_eq!(state.accumulators[0].values.to_vec(), network.feature_bias);
    assert_eq!(state.accumulators[1].values.to_vec(), network.feature_bias);
}

/// A network whose two views do not count against each other.
fn lopsided() -> Network {
    let mut network = network();
    for bucket in 0..8usize {
        for hidden in 0..512usize {
            network.output_weights[bucket * 1024 + 512 + hidden] = (hidden % 13) as i16 - 7;
        }
    }
    network
}

#[test]
fn turned_positions_are_worth_the_same() {
    let network = lopsided();
    let value = |fen: &str, side: Color| {
        let board = Position::from_fen(fen, false).unwrap();
        NnueState::from_board(&network, &board).evaluate(&network, side)
    };
    let board = "r4rk1/pp3ppp/2n1b3/3q4/8/2P1BN2/P4PPP/R2QR1K1 w - - 0 1";
    let ends = "r2qr1k1/p4ppp/2p1bn2/8/3Q4/2N1B3/PP3PPP/R4RK1 b - - 0 1";
    let wings = "1kr4r/ppp3pp/3b1n2/4q3/8/2NB1P2/PPP4P/1K1RQ2R w - - 0 1";
    for side in [Color::White, Color::Black] {
        assert_eq!(value(board, side), value(ends, side.opposite()));
        assert_eq!(value(board, side), value(wings, side));
    }
    assert_ne!(value(board, Color::White), value(board, Color::Black));

    let start = "rnbqkbnr/pppppppp/8/8/8/8/PPPPPPPP/RNBQKBNR w KQkq - 0 1";
    assert_eq!(value(start, Color::White), value(start, Color::Black));
    assert_ne!(value(start, Color::White), value(board, Color::White));
}
