//! The rules of chess and the geometry of the board, against what the
//! `cozy_chess` crate says itself.

use chessbot::attacks::pinned_for;
use chessbot::bits::{bit, contains, count, first};
use chessbot::chess::{Color, GameStatus, Move, Piece, Position};
use chessbot::evaluate::attackers;
use chessbot::rules::{has_moves, is_legal, START_FEN};
use chessbot::uci::{format_uci_move, parse_uci_move};
use chessbot::zobrist::PieceKeys;

const FENS: [&str; 8] = [
    START_FEN,
    "r3k2r/p1ppqpb1/bn2pnp1/3PN3/1p2P3/2N2Q1p/PPPBBPPP/R3K2R w KQkq - 0 1",
    "8/2p5/3p4/KP5r/1R3p1k/8/4P1P1/8 w - - 0 1",
    "r3k2r/Pppp1ppp/1b3nbN/nP6/BBP1P3/q4N2/Pp1P2PP/R2Q1RK1 w kq - 0 1",
    "rnbq1k1r/pp1Pbppp/2p5/8/2B5/8/PPP1NnPP/RNBQK2R w KQ - 1 8",
    "7k/8/8/3pP3/8/8/8/7K w - d6 0 1",
    "7k/6Q1/5K2/8/8/8/8/8 b - - 0 1",
    "7k/5K2/6Q1/8/8/8/8/8 b - - 99 70",
];

fn outside(fen: &str) -> cozy_chess::Board {
    cozy_chess::Board::from_fen(fen, false).unwrap()
}

fn outside_moves(board: &cozy_chess::Board) -> Vec<cozy_chess::Move> {
    let mut moves = Vec::new();
    board.generate_moves(|set| {
        moves.extend(set);
        false
    });
    moves
}

fn plain(mv: cozy_chess::Move) -> Move {
    Move {
        from: mv.from as u8,
        to: mv.to as u8,
        promotion: mv.promotion.map(|piece| Piece::from_index(piece as usize)),
    }
}

fn assert_same(position: &Position, board: &cozy_chess::Board) {
    assert_eq!(position.fen(), board.to_string());
    assert_eq!(position.hash, board.hash());
    assert_eq!(position.checkers, board.checkers().0);
    assert_eq!(position.halfmove_clock, board.halfmove_clock());
    assert_eq!(position.fullmove_number, board.fullmove_number());
    assert_eq!(position.side_to_move.index(), board.side_to_move() as usize);
    assert_eq!(position.en_passant, board.en_passant().map(|file| file as u8));
    for color in cozy_chess::Color::ALL {
        assert_eq!(position.colors[color as usize], board.colors(color).0);
        let rights = board.castle_rights(color);
        let own = position.castle_rights[color as usize];
        assert_eq!(own.short, rights.short.map(|file| file as u8));
        assert_eq!(own.long, rights.long.map(|file| file as u8));
    }
    for piece in cozy_chess::Piece::ALL {
        assert_eq!(position.pieces[piece as usize], board.pieces(piece).0);
    }
    for square in cozy_chess::Square::ALL {
        let man = board.piece_on(square).zip(board.color_on(square));
        let expected = man.map(|(piece, color)| {
            (Piece::from_index(piece as usize), Color::from_index(color as usize))
        });
        assert_eq!(position.man_on(square as u8), expected);
        assert_eq!(position.piece_on(square as u8), expected.map(|man| man.0));
        assert_eq!(position.color_on(square as u8), expected.map(|man| man.1));
    }
    assert_eq!(position.occupied(), board.occupied().0);
    assert_eq!(position.king(Color::White), board.king(cozy_chess::Color::White) as u8);
    assert_eq!(position.king(Color::Black), board.king(cozy_chess::Color::Black) as u8);
}

#[test]
fn positions_are_read_as_the_crate_reads_them() {
    for fen in FENS {
        let board = outside(fen);
        assert_same(&Position::from_fen(fen, false).unwrap(), &board);
        assert_same(&Position::parse(fen).unwrap(), &board);
    }
    assert_same(&Position::startpos(), &cozy_chess::Board::default());
    assert_eq!(Position::startpos().fen(), START_FEN);
}

#[test]
fn texts_that_are_no_position_are_refused() {
    for text in ["", "nonsense", "8/8/8/8/8/8/8/8 w - - 0 1", "7k/8/8/8/8/8/8/K7 w - - 0"] {
        assert!(Position::from_fen(text, false).is_none());
        assert!(Position::parse(text).is_none());
    }
}

#[test]
fn game_starts_with_every_piece_at_home() {
    let start = Position::startpos();
    assert_eq!(
        start.pieces,
        [
            0x00ff_0000_0000_ff00,
            0x4200_0000_0000_0042,
            0x2400_0000_0000_0024,
            0x8100_0000_0000_0081,
            0x0800_0000_0000_0008,
            0x1000_0000_0000_0010,
        ]
    );
    assert_eq!(start.colors, [0xffff, 0xffff_0000_0000_0000]);
    assert_eq!(start.side_to_move, Color::White);
}

#[test]
fn kings_do_not_stand_next_to_each_other() {
    for fen in ["8/8/8/8/8/8/8/Kk6 w - - 0 1", "8/8/8/3k4/4K3/8/8/8 b - - 0 1"] {
        assert!(Position::from_fen(fen, false).is_none());
        assert!(Position::parse(fen).is_none());
    }
    assert!(Position::from_fen("8/8/8/8/8/8/8/K1k5 w - - 0 1", false).is_some());
}

#[test]
fn shredder_fens_are_told_apart() {
    let shredder = "r3k2r/8/8/8/8/8/8/R3K2R w HAha - 0 1";
    let plain = "r3k2r/8/8/8/8/8/8/R3K2R w KQkq - 0 1";
    assert!(Position::from_fen(shredder, false).is_none());
    assert_eq!(Position::from_fen(shredder, true), Position::from_fen(plain, false));
    assert_eq!(Position::parse(shredder), Position::parse(plain));
}

#[test]
fn moves_lead_where_the_crate_leads() {
    for fen in FENS {
        let board = outside(fen);
        let position = Position::from_fen(fen, false).unwrap();
        let moves = outside_moves(&board);
        let expected: Vec<Move> = moves.iter().map(|&mv| plain(mv)).collect();
        assert_eq!(position.moves(), expected);
        assert_eq!(has_moves(&position), !moves.is_empty());
        for mv in moves {
            let mut after = board.clone();
            after.play_unchecked(mv);
            assert!(is_legal(&position, plain(mv)));
            let next = position.try_play(plain(mv)).unwrap();
            assert_same(&next, &after);
            for second in outside_moves(&after) {
                let mut last = after.clone();
                last.play_unchecked(second);
                assert_same(&next.try_play(plain(second)).unwrap(), &last);
            }
        }
    }
}

#[test]
fn pawns_go_forward_and_set_the_clock_back() {
    for fen in FENS {
        let position = Position::from_fen(fen, false).unwrap();
        for mv in position.moves() {
            let pawn = position.piece_on(mv.from) == Some(Piece::Pawn);
            let castles = position.color_on(mv.to) == Some(position.side_to_move);
            let captures = position.piece_on(mv.to).is_some() && !castles;
            let forward = match position.side_to_move {
                Color::White => mv.to / 8 > mv.from / 8,
                Color::Black => mv.to / 8 < mv.from / 8,
            };
            assert!(forward || !pawn);
            let clock = position.try_play(mv).unwrap().halfmove_clock;
            let expected =
                if pawn || captures { 0 } else { (position.halfmove_clock + 1).min(100) };
            assert_eq!(clock, expected);
        }
    }
}

#[test]
fn illegal_moves_are_not_legal() {
    let start = Position::startpos();
    assert!(!is_legal(&start, Move { from: 12, to: 36, promotion: None }));
    assert!(!is_legal(&start, Move { from: 12, to: 28, promotion: Some(Piece::Queen) }));
    let empty = Move { from: 30, to: 31, promotion: None };
    assert!(!is_legal(&start, empty));
    assert_eq!(start.try_play(empty), None);
}

#[test]
fn passing_hands_the_move_over() {
    for fen in FENS {
        let position = Position::from_fen(fen, false).unwrap();
        match outside(fen).null_move() {
            Some(mut board) => {
                board.set_halfmove_clock(board.halfmove_clock() - 1);
                assert_same(&position.pass().unwrap(), &board);
            }
            None => assert!(position.pass().is_none()),
        }
    }
    assert!(Position::from_fen(FENS[6], false).unwrap().pass().is_none());
    let full = Position::from_fen("7k/8/8/8/8/8/8/KQ6 w - - 100 90", false).unwrap();
    assert_eq!(full.pass().unwrap().halfmove_clock, 99);
}

#[test]
fn uci_moves_are_read_and_written() {
    let castle = Position::from_fen(FENS[1], false).unwrap();
    let short = Move { from: 4, to: 7, promotion: None };
    assert_eq!(parse_uci_move(&castle, "e1g1"), Some(short));
    assert_eq!(format_uci_move(&castle, short), "e1g1");
    let promotion = Move { from: 51, to: 58, promotion: Some(Piece::Knight) };
    assert_eq!(parse_uci_move(&castle, "d7c8n"), Some(promotion));
    assert_eq!(format_uci_move(&castle, promotion), "d7c8n");
    assert_eq!(parse_uci_move(&castle, "e9e1"), None);
    assert_eq!(parse_uci_move(&castle, ""), None);
}

#[test]
fn status_follows_the_rules() {
    let status = |fen: &str| Position::from_fen(fen, false).unwrap().status();
    assert_eq!(status(START_FEN), GameStatus::Ongoing);
    assert_eq!(status(FENS[6]), GameStatus::Won);
    assert_eq!(status(FENS[7]), GameStatus::Drawn);
    assert_eq!(status("7k/8/8/8/8/8/8/KQ6 w - - 100 90"), GameStatus::Drawn);
    for fen in FENS {
        let expected = match outside(fen).status() {
            cozy_chess::GameStatus::Won => GameStatus::Won,
            cozy_chess::GameStatus::Drawn => GameStatus::Drawn,
            cozy_chess::GameStatus::Ongoing => GameStatus::Ongoing,
        };
        assert_eq!(status(fen), expected);
    }
}

/// A board that is full of one kind of piece of one color.
fn full_of(color: Color, piece: Piece) -> Position {
    let mut board = Position::startpos();
    board.pieces = [0; 6];
    board.colors = [0; 2];
    board.pieces[piece.index()] = u64::MAX;
    board.colors[color.index()] = u64::MAX;
    board
}

#[test]
fn attackers_are_found_where_the_crate_finds_them() {
    let blockers = [
        0u64,
        0x00ff_0000_0000_ff00,
        0x8142_2418_1824_4281,
        u64::MAX,
        0x0000_1008_0402_0100,
    ];
    let white = |piece: Piece| full_of(Color::White, piece);
    for square in cozy_chess::Square::ALL {
        let s = square as u8;
        for set in blockers {
            let occupied = cozy_chess::BitBoard(set);
            let bishop = cozy_chess::get_bishop_moves(square, occupied).0;
            let rook = cozy_chess::get_rook_moves(square, occupied).0;
            let knight = cozy_chess::get_knight_moves(square).0;
            let king = cozy_chess::get_king_moves(square).0;
            assert_eq!(attackers(&white(Piece::Bishop), s, set), bishop & set);
            assert_eq!(attackers(&white(Piece::Rook), s, set), rook & set);
            assert_eq!(attackers(&white(Piece::Queen), s, set), (bishop | rook) & set);
            assert_eq!(attackers(&white(Piece::Knight), s, set), knight & set);
            assert_eq!(attackers(&white(Piece::King), s, set), king & set);
            for color in cozy_chess::Color::ALL {
                let pawns = full_of(Color::from_index(color as usize), Piece::Pawn);
                let expected = cozy_chess::get_pawn_attacks(square, !color).0;
                assert_eq!(attackers(&pawns, s, set), expected & set);
            }
        }
    }
}

#[test]
fn attackers_follow_the_geometry() {
    let all = u64::MAX;
    for a in 0..64u8 {
        let knights = attackers(&full_of(Color::White, Piece::Knight), a, all);
        let kings = attackers(&full_of(Color::White, Piece::King), a, all);
        let white = attackers(&full_of(Color::White, Piece::Pawn), a, all);
        let black = attackers(&full_of(Color::Black, Piece::Pawn), a, all);
        for b in 0..64u8 {
            let x = ((a % 8) as i32 - (b % 8) as i32).abs();
            let up = (a / 8) as i32 - (b / 8) as i32;
            let y = up.abs();
            assert_eq!(contains(knights, b), (x, y) == (1, 2) || (x, y) == (2, 1));
            assert_eq!(contains(kings, b), x.max(y) == 1);
            assert_eq!(contains(white, b), x == 1 && up == 1);
            assert_eq!(contains(black, b), x == 1 && up == -1);
            let only = bit(a) | bit(b);
            let rooks = attackers(&full_of(Color::White, Piece::Rook), a, only);
            let bishops = attackers(&full_of(Color::White, Piece::Bishop), a, only);
            assert_eq!(contains(rooks, b), a != b && (x == 0 || y == 0));
            assert_eq!(contains(bishops, b), a != b && x == y);
        }
    }
}

#[test]
fn pinned_pieces_are_found_for_both_sides() {
    let board = Position::from_fen("4k3/4r3/8/8/1b6/8/3NB3/4K2R w - - 0 1", false).unwrap();
    let pinned = pinned_for(&board, Color::White);
    assert!(contains(pinned, 11));
    assert!(contains(pinned, 12));
    assert_eq!(count(pinned), 2);
    assert_eq!(pinned_for(&board, Color::Black), 0);
}

#[test]
fn sets_of_squares_hold_what_they_hold() {
    assert_eq!(bit(63), 1 << 63);
    assert_eq!(first(0), None);
    assert_eq!(first(0b1010_0000), Some(5));
    assert_eq!(count(0), 0);
    assert_eq!(count(u64::MAX), 64);
    assert!(contains(bit(17), 17) && !contains(bit(17), 18));
}

#[test]
fn piece_hashes_see_their_own_pieces() {
    let keys = PieceKeys::new();
    assert_eq!(keys.keys.len(), 792);
    let hash = |fen: &str| {
        let board = Position::from_fen(fen, false).unwrap();
        (keys.pawns(&board), keys.minors(&board), keys.majors(&board))
    };
    let base = hash("7k/p7/8/8/8/8/P7/KNR5 w - - 0 1");
    let pawn = hash("7k/p7/8/8/8/P7/8/KNR5 w - - 0 1");
    let knight = hash("7k/p7/8/8/8/N7/P7/K1R5 w - - 0 1");
    let rook = hash("7k/p7/8/8/8/8/P7/KN1R4 w - - 0 1");
    assert!(pawn.0 != base.0 && pawn.1 == base.1 && pawn.2 == base.2);
    assert!(knight.0 == base.0 && knight.1 != base.1 && knight.2 == base.2);
    assert!(rook.0 == base.0 && rook.1 == base.1 && rook.2 != base.2);
    let black = hash("7k/p7/8/8/8/8/P7/KNR5 b - - 0 1");
    assert_eq!(black, base);
    let board = Position::from_fen("7k/p7/8/8/8/8/P7/KNR5 w - - 0 1", false).unwrap();
    assert_eq!(
        keys.pawn_hash(&board, Color::White) ^ keys.pawn_hash(&board, Color::Black),
        keys.pawns(&board)
    );
    assert_ne!(keys.non_pawn_hash(&board, Color::White), 0);
    assert_eq!(
        keys.minor_piece_hash(&board, Color::White) ^ keys.minor_piece_hash(&board, Color::Black),
        keys.minors(&board)
    );
    assert_eq!(
        keys.major_piece_hash(&board, Color::White) ^ keys.major_piece_hash(&board, Color::Black),
        keys.majors(&board)
    );
}

#[test]
fn piece_keys_are_those_of_the_position_hash() {
    let keys = PieceKeys::new();
    let position = |fen: &str| Position::from_fen(fen, false).unwrap();
    let bare = position("7k/8/8/8/8/8/8/K7 w - - 0 1");
    for (fen, color) in [
        ("7k/8/8/8/3P4/8/8/K7 w - - 0 1", Color::White),
        ("7k/8/8/8/3p4/8/8/K7 w - - 0 1", Color::Black),
        ("7k/8/8/5N2/8/8/8/K7 w - - 0 1", Color::White),
        ("7k/8/8/8/8/4b3/8/K7 w - - 0 1", Color::Black),
        ("7k/8/8/R7/8/8/8/K7 w - - 0 1", Color::White),
        ("7k/8/8/8/8/8/5q2/K7 w - - 0 1", Color::Black),
    ] {
        let board = position(fen);
        let parts = |b: &Position| keys.pawn_hash(b, color) ^ keys.non_pawn_hash(b, color);
        assert_eq!(board.hash ^ bare.hash, parts(&board) ^ parts(&bare), "{fen}");
    }
}
