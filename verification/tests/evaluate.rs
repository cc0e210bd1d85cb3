//! What pieces and exchanges are worth.

use chessbot::chess::{Color, Piece, Position};
use chessbot::evaluate::{
    eval, see_bucket, static_exchange_evaluation, static_exchange_evaluation_ge, value,
    SEE_NEG_INF,
};
use chessbot::moves::EngineMove;
use chessbot::uci::parse_uci_move;

fn engine_move(fen: &str, move_text: &str) -> (Position, EngineMove) {
    let board = Position::from_fen(fen, false).unwrap();
    let mv = parse_uci_move(&board, move_text).unwrap();
    let piece = board.piece_on(mv.from).unwrap();
    (board, EngineMove::new(&board, mv, piece, false))
}

fn see(fen: &str, move_text: &str) -> i16 {
    let (board, mv) = engine_move(fen, move_text);
    static_exchange_evaluation(&board, &mv)
}

#[test]
fn test_eval() {
    let board = Position::startpos();
    assert_eq!(0, eval(&board));
}

#[test]
fn see_scores_undefended_and_defended_pawn_captures() {
    assert_eq!(see("7k/8/8/3p4/4P3/8/8/K7 w - - 0 1", "e4d5"), 100);
    assert_eq!(see("7k/8/2p5/3p4/4P3/8/8/K7 w - - 0 1", "e4d5"), 0);
}

#[test]
fn see_scores_a_losing_queen_capture() {
    assert_eq!(see("7k/8/2p5/3p4/4Q3/8/8/K7 w - - 0 1", "e4d5"), -800);
}

#[test]
fn see_reveals_sliding_attackers() {
    assert_eq!(see("3r3k/8/8/3p4/8/3R4/8/K2Q4 w - - 0 1", "d3d5"), 100);
}

#[test]
fn see_removes_the_captured_en_passant_pawn_from_occupancy() {
    assert_eq!(see("3r3k/8/8/3pP3/8/8/8/K2R4 w - d6 0 1", "e5d6"), 100);
}

#[test]
fn see_includes_initial_promotion_material() {
    assert_eq!(see("k6r/6P1/8/8/8/8/8/K7 w - - 0 1", "g7h8q"), 1300);
}

#[test]
fn see_tracks_a_recapturing_pawn_as_its_promoted_piece() {
    assert_eq!(see("Rr6/1Pn4k/8/8/8/8/8/K7 b - - 0 1", "b8a8"), 100);
}

#[test]
fn see_rejects_a_king_capture_on_a_defended_square() {
    assert_eq!(see("5k2/4p3/4Q3/8/1B6/8/8/K7 w - - 0 1", "e6e7"), 100);
}

#[test]
fn pieces_have_their_values() {
    let values: Vec<i32> = [
        Piece::Pawn,
        Piece::Knight,
        Piece::Bishop,
        Piece::Rook,
        Piece::Queen,
        Piece::King,
    ]
    .iter()
    .map(|&piece| value(piece))
    .collect();
    assert_eq!(values, vec![100, 300, 300, 500, 900, 20_000]);
}

#[test]
fn eval_is_seen_by_the_side_to_move() {
    let white = Position::from_fen("7k/8/8/8/8/8/8/KQ6 w - - 0 1", false).unwrap();
    let black = Position::from_fen("7k/8/8/8/8/8/8/KQ6 b - - 0 1", false).unwrap();
    assert_eq!(white.side_to_move, Color::White);
    assert_eq!(eval(&white), 900);
    assert_eq!(eval(&black), -900);
}

#[test]
fn eval_of_a_finished_game() {
    let mated = Position::from_fen("7k/6Q1/5K2/8/8/8/8/8 b - - 0 1", false).unwrap();
    let stalemate = Position::from_fen("7k/5K2/6Q1/8/8/8/8/8 b - - 0 1", false).unwrap();
    let long = Position::from_fen("7k/8/8/8/8/8/8/KQ6 w - - 100 90", false).unwrap();
    assert_eq!(eval(&mated), -100_000);
    assert_eq!(eval(&stalemate), 0);
    assert_eq!(eval(&long), 0);
}

const EXCHANGES: [(&str, &str); 9] = [
    ("7k/8/8/3p4/4P3/8/8/K7 w - - 0 1", "e4d5"),
    ("7k/8/2p5/3p4/4P3/8/8/K7 w - - 0 1", "e4d5"),
    ("7k/8/2p5/3p4/4Q3/8/8/K7 w - - 0 1", "e4d5"),
    ("3r3k/8/8/3p4/8/3R4/8/K2Q4 w - - 0 1", "d3d5"),
    ("3r3k/8/8/3pP3/8/8/8/K2R4 w - d6 0 1", "e5d6"),
    ("k6r/6P1/8/8/8/8/8/K7 w - - 0 1", "g7h8q"),
    ("Rr6/1Pn4k/8/8/8/8/8/K7 b - - 0 1", "b8a8"),
    ("5k2/4p3/4Q3/8/1B6/8/8/K7 w - - 0 1", "e6e7"),
    ("7k/8/2p5/3n4/8/2N5/8/K7 w - - 0 1", "c3d5"),
];

#[test]
fn thresholds_agree_with_the_exchange() {
    for (fen, text) in EXCHANGES {
        let (board, mv) = engine_move(fen, text);
        let won = static_exchange_evaluation(&board, &mv) as i32;
        for threshold in -1_000..1_500 {
            assert_eq!(
                static_exchange_evaluation_ge(&board, &mv, threshold),
                won >= threshold,
                "{fen} {threshold}"
            );
        }
    }
}

#[test]
fn buckets_agree_with_the_exchange() {
    for (fen, text) in EXCHANGES {
        let (board, mv) = engine_move(fen, text);
        let won = static_exchange_evaluation(&board, &mv);
        let expected = if won >= 0 {
            0
        } else if won >= -100 {
            -100
        } else {
            SEE_NEG_INF
        };
        assert_eq!(see_bucket(&board, &mv), expected, "{fen}");
    }
}

#[test]
fn pinned_defenders_do_not_recapture() {
    let free = see("7k/6b1/8/8/3p4/8/3R4/K7 w - - 0 1", "d2d4");
    let pinned = see("6k1/6b1/8/8/3p4/8/3R2R1/K7 w - - 0 1", "d2d4");
    assert_eq!(free, -400);
    assert_eq!(pinned, 100);
}
