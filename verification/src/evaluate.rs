//! What pieces are worth: the material of a position, and an exchange on one
//! square.

use crate::attacks::{
    bishop_moves, bishop_squares, king_moves, king_squares, knight_moves, knight_squares, line_rays,
    line_squares, pawn_attacks, pawn_squares, pinned_for, pinned_of, rook_moves, rook_squares,
};
use crate::bits::{
    bit, bit_of, count, count_of, first, holds, lemma_lowest, lemma_operators, lemma_without,
    lowest_of,
};
use crate::chess::{file, file_of, rank, rank_of, Color, GameStatus, Piece, Position};
use crate::moves::EngineMove;
use crate::rules::status_of;
use vstd::prelude::*;

verus! {

/// What a piece is worth in centipawns.
pub open spec fn value_of(piece: Piece) -> int {
    match piece {
        Piece::Pawn => 100,
        Piece::Knight => 300,
        Piece::Bishop => 300,
        Piece::Rook => 500,
        Piece::Queen => 900,
        Piece::King => 20000,
    }
}

/// What a piece is worth in centipawns.
pub fn value(piece: Piece) -> (r: i32)
    ensures
        r == value_of(piece),
        100 <= r <= 20000,
{
    match piece {
        Piece::Pawn => 100,
        Piece::Knight => 300,
        Piece::Bishop => 300,
        Piece::Rook => 500,
        Piece::Queen => 900,
        Piece::King => 20000,
    }
}

/// The pieces that attack a square along files and ranks.
pub open spec fn straight_attackers(board: Position, to: int, occupied: u64) -> u64 {
    rook_squares(to, occupied) & occupied & (board.pieces[3] | board.pieces[4])
}

/// The pieces that attack a square along diagonals, pawns and the king aside.
pub open spec fn diagonal_attackers(board: Position, to: int, occupied: u64) -> u64 {
    bishop_squares(to, occupied) & occupied & (board.pieces[2] | board.pieces[4])
}

/// The pieces of both sides that attack a square, of those that are left.
pub open spec fn attackers_of(board: Position, to: int, occupied: u64) -> u64 {
    (king_squares(to) & board.pieces[5] & occupied) | (knight_squares(to) & board.pieces[1]
        & occupied) | diagonal_attackers(board, to, occupied) | straight_attackers(
        board,
        to,
        occupied,
    ) | (pawn_squares(to, Color::Black) & occupied & board.spec_colored(Color::White, Piece::Pawn))
        | (pawn_squares(to, Color::White) & occupied & board.spec_colored(
        Color::Black,
        Piece::Pawn,
    ))
}

/// The attackers of one side that may take: a pinned piece only along the
/// line of its own king.
pub open spec fn takers(board: Position, to: int, color: Color, attackers: u64) -> u64 {
    attackers & board.colors[color.number()] & !(pinned_of(board, color) & !line_squares(
        board.king_of(color),
        to,
    ))
}

/// The cheapest piece among some that may take, from the piece with a given
/// number on. The king does not take what the other side defends.
pub open spec fn cheapest(board: Position, takers: u64, defended: bool, n: int) -> Option<
    (int, Piece),
>
    decreases 6 - n,
{
    if n >= 6 || (n == 5 && defended) {
        None
    } else if takers & board.pieces[n] != 0 {
        Some((lowest_of(takers & board.pieces[n]), Piece::numbered(n)))
    } else {
        cheapest(board, takers, defended, n + 1)
    }
}

/// The piece with which a side takes next on a square, and where it stands.
pub open spec fn next_taker(board: Position, to: int, color: Color, attackers: u64) -> Option<
    (int, Piece),
> {
    cheapest(
        board,
        takers(board, to, color, attackers),
        attackers & board.colors[color.other().number()] != 0,
        0,
    )
}

/// The attackers that are left once a piece has taken, with those that it
/// stood in the way of.
pub open spec fn attackers_behind(
    board: Position,
    to: int,
    occupied: u64,
    attackers: u64,
    piece: Piece,
) -> u64 {
    attackers | (if piece == Piece::Rook || piece == Piece::Queen {
        straight_attackers(board, to, occupied)
    } else {
        0
    }) | (if piece == Piece::Pawn || piece == Piece::Bishop || piece == Piece::Queen {
        diagonal_attackers(board, to, occupied)
    } else {
        0
    })
}

/// Whether a piece that takes on a square becomes a queen there.
pub open spec fn promotes(to: int, color: Color, piece: Piece) -> bool {
    piece == Piece::Pawn && match color {
        Color::White => rank_of(to) == 7,
        Color::Black => rank_of(to) == 0,
    }
}

/// What the side to take wins at best on a square: it may take with its
/// cheapest piece, winning the piece that stands there less what the other
/// side then wins, or leave it.
pub open spec fn best_capture(
    board: Position,
    to: int,
    color: Color,
    occupied: u64,
    attackers: u64,
    standing: Piece,
) -> int
    decreases occupied,
{
    let left = attackers & occupied;
    match next_taker(board, to, color, left) {
        None => 0,
        Some((from, piece)) => {
            proof {
                lemma_next_taker(board, to, color, left);
                lemma_operators(attackers, occupied, from);
                lemma_without(occupied, from);
            }
            let after = occupied ^ bit_of(from);
            let queens = promotes(to, color, piece);
            let won = value_of(standing) + (if queens {
                value_of(Piece::Queen) - value_of(Piece::Pawn)
            } else {
                0
            });
            let lost = best_capture(
                board,
                to,
                color.other(),
                after,
                attackers_behind(board, to, after, left, piece),
                if queens {
                    Piece::Queen
                } else {
                    piece
                },
            );
            if won > lost {
                won - lost
            } else {
                0
            }
        },
    }
}

/// A piece that takes next is among the attackers.
pub proof fn lemma_next_taker(board: Position, to: int, color: Color, attackers: u64)
    ensures
        next_taker(board, to, color, attackers) matches Some((from, piece)) ==> 0 <= from < 64
            && holds(attackers, from),
{
    let usable = takers(board, to, color, attackers);
    let defended = attackers & board.colors[color.other().number()] != 0;
    lemma_cheapest(board, usable, defended, 0);
    if let Some((from, piece)) = cheapest(board, usable, defended, 0) {
        let bad = pinned_of(board, color) & !line_squares(board.king_of(color), to);
        lemma_operators(attackers & board.colors[color.number()], !bad, from);
        lemma_operators(attackers, board.colors[color.number()], from);
    }
}

proof fn lemma_cheapest(board: Position, usable: u64, defended: bool, n: int)
    requires
        0 <= n <= 6,
    ensures
        cheapest(board, usable, defended, n) matches Some((from, piece)) ==> 0 <= from < 64
            && holds(usable, from),
    decreases 6 - n,
{
    if n >= 6 || (n == 5 && defended) {
    } else if usable & board.pieces[n] != 0 {
        let b = usable & board.pieces[n];
        lemma_lowest(b);
        lemma_operators(usable, board.pieces[n], lowest_of(b));
    } else {
        lemma_cheapest(board, usable, defended, n + 1);
    }
}

proof fn lemma_without_attacker(attackers: u64, occupied: u64, from: int)
    requires
        0 <= from < 64,
        holds(attackers & occupied, from),
    ensures
        (occupied ^ bit_of(from)) < occupied,
{
    lemma_operators(attackers, occupied, from);
    lemma_without(occupied, from);
}

/// The best capture wins nothing less than nothing, and no more than a king
/// and a promotion.
proof fn lemma_best_capture(
    board: Position,
    to: int,
    color: Color,
    occupied: u64,
    attackers: u64,
    standing: Piece,
)
    ensures
        0 <= best_capture(board, to, color, occupied, attackers, standing) <= value_of(standing)
            + 800,
        !(rank_of(to) == 0 || rank_of(to) == 7) ==> best_capture(
            board,
            to,
            color,
            occupied,
            attackers,
            standing,
        ) <= value_of(standing),
    decreases occupied,
{
    let left = attackers & occupied;
    if let Some((from, piece)) = next_taker(board, to, color, left) {
        lemma_next_taker(board, to, color, left);
        lemma_operators(attackers, occupied, from);
        lemma_without(occupied, from);
        let after = occupied ^ bit_of(from);
        lemma_best_capture(
            board,
            to,
            color.other(),
            after,
            attackers_behind(board, to, after, left, piece),
            if promotes(to, color, piece) {
                Piece::Queen
            } else {
                piece
            },
        );
    }
}

/// The squares that are still occupied once a move has taken its piece from
/// where it stood and what it captures off the board. The square it goes to
/// stays occupied where it captures there.
pub open spec fn squares_left(board: Position, mv: EngineMove) -> u64 {
    let lifted = board.spec_occupied() ^ bit_of(mv.mv.from as int);
    let landed = if mv.is_capture {
        lifted
    } else {
        lifted ^ bit_of(mv.mv.to as int)
    };
    if mv.is_ep {
        landed ^ bit_of(
            file_of(mv.mv.to as int) + match board.side_to_move {
                Color::White => 32int,
                Color::Black => 24int,
            },
        )
    } else {
        landed
    }
}

/// The piece that stands on a move's square after it.
pub open spec fn placed_piece(mv: EngineMove) -> Piece {
    match mv.mv.promotion {
        Some(piece) if mv.promotion => piece,
        _ => mv.piece_type,
    }
}

/// What the other side wins at best by taking back on a move's square.
pub open spec fn best_recapture(board: Position, mv: EngineMove) -> int {
    best_capture(
        board,
        mv.mv.to as int,
        board.side_to_move.other(),
        squares_left(board, mv),
        attackers_of(board, mv.mv.to as int, squares_left(board, mv)),
        placed_piece(mv),
    )
}

/// What a move wins on its square when both sides take there with their
/// cheapest piece for as long as it pays.
pub open spec fn exchange_value(board: Position, mv: EngineMove) -> int {
    mv.material_value - best_recapture(board, mv)
}

/// Moves whose exchange can be worked out.
pub open spec fn exchangeable(board: Position, mv: EngineMove) -> bool {
    &&& board.wf()
    &&& mv.mv.from < 64
    &&& mv.mv.to < 64
    &&& mv.promotion ==> mv.mv.promotion is Some
    &&& -10_000 <= mv.material_value <= 30_000
}

/// What a side keeps of a capture that it need not make.
pub open spec fn kept(x: int) -> int {
    if x > 0 {
        x
    } else {
        0
    }
}

/// What the first of some captures in turn wins, when `last` is what the one
/// after them wins.
pub open spec fn unwound(gains: Seq<i32>, last: int) -> int
    decreases gains.len(),
{
    if gains.len() == 0 {
        last
    } else {
        unwound(gains.drop_last(), kept(gains.last() - last))
    }
}

fn straight_sliders(board: &Position, to: u8, occupied: u64) -> (r: u64)
    requires
        to < 64,
    ensures
        r == straight_attackers(*board, to as int, occupied),
{
    rook_moves(to, occupied) & occupied & (board.pieces[3] | board.pieces[4])
}

fn diagonal_sliders(board: &Position, to: u8, occupied: u64) -> (r: u64)
    requires
        to < 64,
    ensures
        r == diagonal_attackers(*board, to as int, occupied),
{
    bishop_moves(to, occupied) & occupied & (board.pieces[2] | board.pieces[4])
}

/// The pieces of both sides that attack a square, of those that are left.
pub fn attackers(board: &Position, to: u8, occupied: u64) -> (r: u64)
    requires
        to < 64,
    ensures
        r == attackers_of(*board, to as int, occupied),
{
    (king_moves(to) & board.pieces[5] & occupied) | (knight_moves(to) & board.pieces[1] & occupied)
        | diagonal_sliders(board, to, occupied) | straight_sliders(board, to, occupied) | (
    pawn_attacks(to, Color::Black) & occupied & board.colored_pieces(Color::White, Piece::Pawn)) | (
    pawn_attacks(to, Color::White) & occupied & board.colored_pieces(Color::Black, Piece::Pawn))
}

/// The pinned pieces of a side that may not take on a square.
fn barred(board: &Position, to: u8, color: Color) -> (r: u64)
    requires
        board.wf(),
        to < 64,
    ensures
        r == pinned_of(*board, color) & !line_squares(board.king_of(color), to as int),
{
    let king: u8 = board.king(color);
    pinned_for(board, color) & !line_rays(king, to)
}

fn taker(board: &Position, to: u8, color: Color, attackers: u64, barred: u64) -> (r: Option<
    (u8, Piece),
>)
    requires
        board.wf(),
        to < 64,
        barred == pinned_of(*board, color) & !line_squares(board.king_of(color), to as int),
    ensures
        r matches Some((from, piece)) ==> from < 64 && holds(attackers, from as int)
            && next_taker(*board, to as int, color, attackers) == Some((from as int, piece)),
        r is None ==> next_taker(*board, to as int, color, attackers) is None,
{
    let usable: u64 = attackers & board.colors[color.index()] & !barred;
    let defended: bool = attackers & board.colors[color.opposite().index()] != 0;
    proof {
        lemma_next_taker(*board, to as int, color, attackers);
    }
    let mut n: usize = 0;
    while n < 6
        invariant
            n <= 6,
            next_taker(*board, to as int, color, attackers) == cheapest(
                *board,
                usable,
                defended,
                n as int,
            ),
            next_taker(*board, to as int, color, attackers) matches Some((from, piece)) ==> 0
                <= from < 64 && holds(attackers, from),
        decreases 6 - n,
    {
        if n == 5 && defended {
            return None;
        }
        if let Some(from) = first(usable & board.pieces[n]) {
            return Some((from, Piece::from_index(n)));
        }
        n = n + 1;
    }
    None
}

fn behind(board: &Position, to: u8, occupied: u64, attackers: u64, piece: Piece) -> (r: u64)
    requires
        to < 64,
    ensures
        r == attackers_behind(*board, to as int, occupied, attackers, piece),
{
    attackers | (if piece == Piece::Rook || piece == Piece::Queen {
        straight_sliders(board, to, occupied)
    } else {
        0
    }) | (if piece == Piece::Pawn || piece == Piece::Bishop || piece == Piece::Queen {
        diagonal_sliders(board, to, occupied)
    } else {
        0
    })
}

fn becomes_queen(to: u8, color: Color, piece: Piece) -> (r: bool)
    ensures
        r == promotes(to as int, color, piece),
{
    piece == Piece::Pawn && match color {
        Color::White => rank(to) == 7,
        Color::Black => rank(to) == 0,
    }
}

fn occupied_after(board: &Position, mv: &EngineMove) -> (r: u64)
    requires
        mv.mv.from < 64,
        mv.mv.to < 64,
    ensures
        r == squares_left(*board, *mv),
{
    let mut occupied: u64 = board.occupied() ^ bit(mv.mv.from);
    if !mv.is_capture {
        occupied = occupied ^ bit(mv.mv.to);
    }
    if mv.is_ep {
        let rank_start: u8 = match board.side_to_move {
            Color::White => 32,
            Color::Black => 24,
        };
        occupied = occupied ^ bit(file(mv.mv.to) + rank_start);
    }
    occupied
}

/// What a move wins on its square: both sides take there in turn, each with
/// the cheapest piece it has, and each stops when going on would cost it.
pub fn static_exchange_evaluation(board: &Position, mv: &EngineMove) -> (r: i16)
    requires
        exchangeable(*board, *mv),
    ensures
        r == exchange_value(*board, *mv),
{
    let to: u8 = mv.mv.to;
    let mut color: Color = board.side_to_move.opposite();
    let mut occupied: u64 = occupied_after(board, mv);
    let mut attacking: u64 = attackers(board, to, occupied);
    let mut standing: Piece = match mv.mv.promotion {
        Some(piece) => if mv.promotion {
            piece
        } else {
            mv.piece_type
        },
        None => mv.piece_type,
    };
    let barred_white: u64 = barred(board, to, Color::White);
    let barred_black: u64 = barred(board, to, Color::Black);
    let ghost whole = best_recapture(*board, *mv);
    proof {
        lemma_best_capture(*board, to as int, color, occupied, attacking, standing);
    }
    let mut gains: Vec<i32> = Vec::new();
    loop
        invariant_except_break
            whole == unwound(
                gains@,
                best_capture(*board, to as int, color, occupied, attacking, standing),
            ),
        invariant
            board.wf(),
            to < 64,
            barred_white == pinned_of(*board, Color::White) & !line_squares(
                board.king_of(Color::White),
                to as int,
            ),
            barred_black == pinned_of(*board, Color::Black) & !line_squares(
                board.king_of(Color::Black),
                to as int,
            ),
            forall|i: int| 0 <= i < gains@.len() ==> 100 <= #[trigger] gains@[i] <= 20_800,
        ensures
            whole == unwound(gains@, 0),
        decreases occupied,
    {
        let left: u64 = attacking & occupied;
        let barred: u64 = match color {
            Color::White => barred_white,
            Color::Black => barred_black,
        };
        match taker(board, to, color, left, barred) {
            None => {
                break;
            },
            Some((from, piece)) => {
                let queens: bool = becomes_queen(to, color, piece);
                let gain: i32 = value(standing) + if queens {
                    800
                } else {
                    0
                };
                proof {
                    lemma_without_attacker(attacking, occupied, from as int);
                }
                let ghost gains_before = gains@;
                gains.push(gain);
                occupied = occupied ^ bit(from);
                attacking = behind(board, to, occupied, left, piece);
                standing = if queens {
                    Piece::Queen
                } else {
                    piece
                };
                color = color.opposite();
                proof {
                    assert(gains@.drop_last() =~= gains_before);
                }
            },
        }
    }
    let mut best: i32 = 0;
    while gains.len() > 0
        invariant
            whole == unwound(gains@, best as int),
            0 <= best <= 20_800,
            forall|i: int| 0 <= i < gains@.len() ==> 100 <= #[trigger] gains@[i] <= 20_800,
        decreases gains@.len(),
    {
        let ghost gains_before = gains@;
        if let Some(gain) = gains.pop() {
            assert(gain == gains_before.last());
            best = if gain > best {
                gain - best
            } else {
                0
            };
        }
    }
    (mv.material_value - best) as i16
}

/// Moves for which only the whole exchange tells what they win: those that
/// capture in passing or promote, and those to a rank where a pawn that takes
/// back promotes.
pub open spec fn needs_whole_exchange(mv: EngineMove) -> bool {
    mv.is_ep || mv.promotion || rank_of(mv.mv.to as int) == 0 || rank_of(mv.mv.to as int) == 7
}

fn whole_exchange(mv: &EngineMove) -> (r: bool)
    ensures
        r == needs_whole_exchange(*mv),
{
    mv.is_ep || mv.promotion || rank(mv.mv.to) == 0 || rank(mv.mv.to) == 7
}

/// How a question about an exchange stands before a side takes, when `best`
/// is what it can win and `standing` what the piece on the square is worth.
/// With `result` the answer is yes unless the side wins more than
/// `standing - swap`; without, it is yes only if it wins as much as that.
pub open spec fn undecided(
    result: bool,
    swap: int,
    standing: int,
    best: int,
    answer: bool,
) -> bool {
    if result {
        0 < swap <= standing && answer == (best <= standing - swap)
    } else {
        0 <= swap < standing && answer == (best >= standing - swap)
    }
}

/// A side that can still take, and what its capture does to the question.
proof fn lemma_undecided(
    result: bool,
    swap: int,
    standing: int,
    best: int,
    answer: bool,
    next: int,
    reply: int,
)
    requires
        undecided(result, swap, standing, best, answer),
        best == kept(standing - reply),
        0 <= reply <= next,
    ensures
        next - swap < (if result {
            0int
        } else {
            1int
        }) ==> answer == !result,
        next - swap >= (if result {
            0int
        } else {
            1int
        }) ==> undecided(!result, next - swap, next, reply, answer),
{
}

/// Whether what a move wins on its square reaches a threshold.
pub fn static_exchange_evaluation_ge(board: &Position, mv: &EngineMove, threshold: i32) -> (r: bool)
    requires
        exchangeable(*board, *mv),
        needs_whole_exchange(*mv) || i32::MIN <= mv.material_value - threshold <= i32::MAX,
    ensures
        r == (exchange_value(*board, *mv) >= threshold),
{
    let to: u8 = mv.mv.to;
    if whole_exchange(mv) {
        return static_exchange_evaluation(board, mv) as i32 >= threshold;
    }
    let mut color: Color = board.side_to_move.opposite();
    let mut occupied: u64 = occupied_after(board, mv);
    let mut attacking: u64 = attackers(board, to, occupied);
    let ghost mut standing = mv.piece_type;
    let ghost answer = exchange_value(*board, *mv) >= threshold;
    proof {
        lemma_best_capture(*board, to as int, color, occupied, attacking, standing);
    }
    let mut swap: i32 = mv.material_value - threshold;
    if swap < 0 {
        return false;
    }
    swap = value(mv.piece_type) - swap;
    if swap <= 0 {
        return true;
    }
    let barred_white: u64 = barred(board, to, Color::White);
    let barred_black: u64 = barred(board, to, Color::Black);
    let mut result: bool = true;
    loop
        invariant_except_break
            undecided(
                result,
                swap as int,
                value_of(standing),
                best_capture(*board, to as int, color, occupied, attacking, standing),
                answer,
            ),
        invariant
            board.wf(),
            to < 64,
            rank_of(to as int) != 0 && rank_of(to as int) != 7,
            barred_white == pinned_of(*board, Color::White) & !line_squares(
                board.king_of(Color::White),
                to as int,
            ),
            barred_black == pinned_of(*board, Color::Black) & !line_squares(
                board.king_of(Color::Black),
                to as int,
            ),
        ensures
            result == answer,
        decreases occupied,
    {
        let left: u64 = attacking & occupied;
        let barred: u64 = match color {
            Color::White => barred_white,
            Color::Black => barred_black,
        };
        match taker(board, to, color, left, barred) {
            None => {
                break;
            },
            Some((from, piece)) => {
                let after: u64 = occupied ^ bit(from);
                let next: u64 = behind(board, to, after, left, piece);
                proof {
                    lemma_without_attacker(attacking, occupied, from as int);
                    lemma_best_capture(*board, to as int, color.other(), after, next, piece);
                    lemma_undecided(
                        result,
                        swap as int,
                        value_of(standing),
                        best_capture(*board, to as int, color, occupied, attacking, standing),
                        answer,
                        value_of(piece),
                        best_capture(*board, to as int, color.other(), after, next, piece),
                    );
                    standing = piece;
                }
                result = !result;
                swap = value(piece) - swap;
                if swap < (if result {
                    1
                } else {
                    0
                }) {
                    break;
                }
                occupied = after;
                attacking = next;
                color = color.opposite();
            },
        }
    }
    result
}

/// Below every exchange: the move loses more than a pawn.
pub const SEE_NEG_INF: i32 = -1_000_000;

/// The bucket of what a move wins on its square.
pub open spec fn bucket_of(won: int) -> int {
    if won >= 0 {
        0
    } else if won >= -100 {
        -100
    } else {
        SEE_NEG_INF as int
    }
}

/// A question about an exchange that is answered, or open.
pub open spec fn asked(
    reply: Option<bool>,
    result: bool,
    swap: int,
    standing: int,
    best: int,
    answer: bool,
) -> bool {
    match reply {
        Some(r) => r == answer,
        None => undecided(result, swap, standing, best, answer),
    }
}

/// Whether a move loses nothing on its square, at most a pawn, or more.
pub fn see_bucket(board: &Position, mv: &EngineMove) -> (r: i32)
    requires
        exchangeable(*board, *mv),
        needs_whole_exchange(*mv) || mv.material_value >= 0,
    ensures
        r == bucket_of(exchange_value(*board, *mv)),
{
    let to: u8 = mv.mv.to;
    if whole_exchange(mv) {
        let won: i16 = static_exchange_evaluation(board, mv);
        return if won >= 0 {
            0
        } else if won >= -100 {
            -100
        } else {
            SEE_NEG_INF
        };
    }
    let mut color: Color = board.side_to_move.opposite();
    let mut occupied: u64 = occupied_after(board, mv);
    let mut attacking: u64 = attackers(board, to, occupied);
    let ghost mut standing = mv.piece_type;
    let ghost loses_nothing = exchange_value(*board, *mv) >= 0;
    let ghost loses_a_pawn = exchange_value(*board, *mv) >= -100;
    proof {
        lemma_best_capture(*board, to as int, color, occupied, attacking, standing);
    }
    let moved_value: i32 = value(mv.piece_type);
    let mut swap_0: i32 = moved_value - mv.material_value;
    let mut swap_100: i32 = moved_value - (mv.material_value + 100);
    if swap_0 <= 0 {
        return 0;
    }
    let mut zero_result: Option<bool> = None;
    let mut minus_100_result: Option<bool> = if swap_100 <= 0 {
        Some(true)
    } else {
        None
    };
    let barred_white: u64 = barred(board, to, Color::White);
    let barred_black: u64 = barred(board, to, Color::Black);
    let mut result: bool = true;
    loop
        invariant_except_break
            asked(
                zero_result,
                result,
                swap_0 as int,
                value_of(standing),
                best_capture(*board, to as int, color, occupied, attacking, standing),
                loses_nothing,
            ),
            asked(
                minus_100_result,
                result,
                swap_100 as int,
                value_of(standing),
                best_capture(*board, to as int, color, occupied, attacking, standing),
                loses_a_pawn,
            ),
        invariant
            board.wf(),
            to < 64,
            rank_of(to as int) != 0 && rank_of(to as int) != 7,
            loses_nothing == (exchange_value(*board, *mv) >= 0),
            loses_a_pawn == (exchange_value(*board, *mv) >= -100),
            barred_white == pinned_of(*board, Color::White) & !line_squares(
                board.king_of(Color::White),
                to as int,
            ),
            barred_black == pinned_of(*board, Color::Black) & !line_squares(
                board.king_of(Color::Black),
                to as int,
            ),
        ensures
            zero_result == Some(loses_nothing),
            minus_100_result == Some(loses_a_pawn),
        decreases occupied,
    {
        let left: u64 = attacking & occupied;
        let barred: u64 = match color {
            Color::White => barred_white,
            Color::Black => barred_black,
        };
        match taker(board, to, color, left, barred) {
            None => {
                if zero_result.is_none() {
                    zero_result = Some(result);
                }
                if minus_100_result.is_none() {
                    minus_100_result = Some(result);
                }
                break;
            },
            Some((from, piece)) => {
                let after: u64 = occupied ^ bit(from);
                let next: u64 = behind(board, to, after, left, piece);
                let attacker_value: i32 = value(piece);
                proof {
                    let best = best_capture(
                        *board,
                        to as int,
                        color,
                        occupied,
                        attacking,
                        standing,
                    );
                    let reply = best_capture(
                        *board,
                        to as int,
                        color.other(),
                        after,
                        next,
                        piece,
                    );
                    lemma_without_attacker(attacking, occupied, from as int);
                    lemma_best_capture(*board, to as int, color.other(), after, next, piece);
                    if zero_result is None {
                        lemma_undecided(
                            result,
                            swap_0 as int,
                            value_of(standing),
                            best,
                            loses_nothing,
                            value_of(piece),
                            reply,
                        );
                    }
                    if minus_100_result is None {
                        lemma_undecided(
                            result,
                            swap_100 as int,
                            value_of(standing),
                            best,
                            loses_a_pawn,
                            value_of(piece),
                            reply,
                        );
                    }
                    standing = piece;
                }
                result = !result;
                let least: i32 = if result {
                    1
                } else {
                    0
                };
                if zero_result.is_none() {
                    swap_0 = attacker_value - swap_0;
                    if swap_0 < least {
                        zero_result = Some(result);
                    }
                }
                if minus_100_result.is_none() {
                    swap_100 = attacker_value - swap_100;
                    if swap_100 < least {
                        minus_100_result = Some(result);
                    }
                }
                if zero_result == Some(true) {
                    return 0;
                }
                if minus_100_result == Some(false) {
                    return SEE_NEG_INF;
                }
                if zero_result == Some(false) && minus_100_result == Some(true) {
                    return -100;
                }
                occupied = after;
                attacking = next;
                color = color.opposite();
            },
        }
    }
    if zero_result == Some(true) {
        0
    } else if minus_100_result == Some(true) {
        -100
    } else {
        SEE_NEG_INF
    }
}

/// What all pieces of a side are worth.
pub open spec fn material_of(board: Position, color: Color) -> int {
    value_of(Piece::Pawn) * count_of(board.spec_colored(color, Piece::Pawn)) + value_of(
        Piece::Knight,
    ) * count_of(board.spec_colored(color, Piece::Knight)) + value_of(Piece::Bishop) * count_of(
        board.spec_colored(color, Piece::Bishop),
    ) + value_of(Piece::Rook) * count_of(board.spec_colored(color, Piece::Rook)) + value_of(
        Piece::Queen,
    ) * count_of(board.spec_colored(color, Piece::Queen)) + value_of(Piece::King) * count_of(
        board.spec_colored(color, Piece::King),
    )
}

/// What a position is worth to the side to move by its material alone.
pub open spec fn material_score(board: Position) -> int {
    match status_of(board) {
        GameStatus::Drawn => 0,
        GameStatus::Won => -100_000,
        GameStatus::Ongoing => material_of(board, board.side_to_move) - material_of(
            board,
            board.side_to_move.other(),
        ),
    }
}

fn worth(board: &Position, color: Color, piece: Piece) -> (r: i32)
    ensures
        r == value_of(piece) * count_of(board.spec_colored(color, piece)),
        0 <= r <= 1_280_000,
{
    let n: i32 = count(board.colored_pieces(color, piece)) as i32;
    let each: i32 = value(piece);
    assert(0 <= each * n <= 1_280_000) by (nonlinear_arith)
        requires
            0 <= n <= 64,
            100 <= each <= 20_000,
    ;
    each * n
}

fn material(board: &Position, color: Color) -> (r: i32)
    ensures
        r == material_of(*board, color),
        0 <= r <= 7_680_000,
{
    worth(board, color, Piece::Pawn) + worth(board, color, Piece::Knight) + worth(
        board,
        color,
        Piece::Bishop,
    ) + worth(board, color, Piece::Rook) + worth(board, color, Piece::Queen) + worth(
        board,
        color,
        Piece::King,
    )
}

/// What a position is worth to the side to move by its material alone.
pub fn eval(board: &Position) -> (r: i32)
    requires
        board.valid(),
    ensures
        r == material_score(*board),
{
    match board.status() {
        GameStatus::Drawn => 0,
        GameStatus::Won => -100_000,
        GameStatus::Ongoing => material(board, board.side_to_move) - material(
            board,
            board.side_to_move.opposite(),
        ),
    }
}

} // verus!
