//! What is won and lost where men take each other on one square.

use crate::attacks::{
    between, diagonal, distance, files_apart, line_squares, on_line, open_line, pinned_of,
    ranks_apart, selects, squares, straight,
};
use crate::bits::{
    bit_of, holds, lemma_bit_of, lemma_lowest, lemma_operators, lemma_same_squares, lowest_of,
};
use crate::chess::{file_of, rank_of, Color, Move, Piece, Position};
use crate::evaluate::{
    attackers_behind, attackers_of, best_capture, bucket_of, cheapest, diagonal_attackers,
    exchange_value, next_taker, placed_piece, squares_left, straight_attackers, takers,
};
use crate::laws::evaluation::points;
use crate::moves::{material_gain, move_facts, victim_of, EngineMove};
use crate::rules::{
    castled_king, castled_rook, castles, in_passing, man_after, passed_square, plausible,
};
use crate::totals::{lemma_total_replaced, lemma_total_same, replaced, total};
use vstd::prelude::*;

verus! {

spec fn built(test: spec_fn(int) -> bool, n: nat) -> u64
    decreases n,
{
    if n == 0 {
        0
    } else {
        built(test, (n - 1) as nat) | if test(n - 1) {
            bit_of(n - 1)
        } else {
            0
        }
    }
}

proof fn lemma_built(test: spec_fn(int) -> bool, n: nat, s: int)
    requires
        n <= 64,
        0 <= s < 64,
    ensures
        holds(built(test, n), s) == (s < n && test(s)),
    decreases n,
{
    if n > 0 {
        lemma_built(test, (n - 1) as nat, s);
        let last: u64 = if test(n - 1) {
            bit_of(n - 1)
        } else {
            0
        };
        lemma_operators(built(test, (n - 1) as nat), last, s);
        lemma_bit_of(n - 1, s);
    }
    lemma_operators(0, 0, s);
}

/// For every test there is a set of the squares that pass it.
pub proof fn lemma_every_test_selects()
    ensures
        forall|test: spec_fn(int) -> bool, s: int|
            0 <= s < 64 ==> #[trigger] holds(squares(test), s) == test(s),
{
    assert forall|test: spec_fn(int) -> bool, s: int| 0 <= s < 64 implies #[trigger] holds(
        squares(test),
        s,
    ) == test(s) by {
        let b = built(test, 64);
        assert forall|s: int| 0 <= s < 64 implies holds(b, s) == #[trigger] test(s) by {
            lemma_built(test, 64, s);
        }
        assert(selects(b, test));
        assert(selects(squares(test), test));
    }
}

/// Whether the man on a square could take on another, with the given squares in
/// the way.
pub open spec fn strikes(board: Position, s: int, to: int, occupied: u64) -> bool {
    let files = distance(file_of(s), file_of(to));
    let ranks = distance(rank_of(s), rank_of(to));
    match board.man_at(s) {
        None => false,
        Some((Piece::Pawn, Color::White)) => files == 1 && rank_of(to) - rank_of(s) == 1,
        Some((Piece::Pawn, Color::Black)) => files == 1 && rank_of(s) - rank_of(to) == 1,
        Some((Piece::Knight, _)) => (files == 1 && ranks == 2) || (files == 2 && ranks == 1),
        Some((Piece::Bishop, _)) => diagonal(to, s) && open_line(to, s, occupied),
        Some((Piece::Rook, _)) => straight(to, s) && open_line(to, s, occupied),
        Some((Piece::Queen, _)) => (diagonal(to, s) || straight(to, s)) && open_line(
            to,
            s,
            occupied,
        ),
        Some((Piece::King, _)) => s != to && files <= 1 && ranks <= 1,
    }
}

proof fn lemma_sets(board: Position, s: int)
    requires
        board.wf(),
        0 <= s < 64,
    ensures
        holds(board.pieces[0], s) == (board.piece_at(s) == Some(Piece::Pawn)),
        holds(board.pieces[1], s) == (board.piece_at(s) == Some(Piece::Knight)),
        holds(board.pieces[2], s) == (board.piece_at(s) == Some(Piece::Bishop)),
        holds(board.pieces[3], s) == (board.piece_at(s) == Some(Piece::Rook)),
        holds(board.pieces[4], s) == (board.piece_at(s) == Some(Piece::Queen)),
        holds(board.pieces[5], s) == (board.piece_at(s) == Some(Piece::King)),
        holds(board.colors[0], s) == (board.color_at(s) == Some(Color::White)),
        holds(board.colors[1], s) == (board.color_at(s) == Some(Color::Black)),
        board.piece_at(s) is Some <==> board.color_at(s) is Some,
{
    assert(board.piece_at(s) is Some <==> board.color_at(s) is Some);
    assert(holds(board.pieces[0], s) == (board.piece_at(s) == Some(Piece::numbered(0))));
    assert(holds(board.pieces[1], s) == (board.piece_at(s) == Some(Piece::numbered(1))));
    assert(holds(board.pieces[2], s) == (board.piece_at(s) == Some(Piece::numbered(2))));
    assert(holds(board.pieces[3], s) == (board.piece_at(s) == Some(Piece::numbered(3))));
    assert(holds(board.pieces[4], s) == (board.piece_at(s) == Some(Piece::numbered(4))));
    assert(holds(board.pieces[5], s) == (board.piece_at(s) == Some(Piece::numbered(5))));
}

proof fn lemma_straight(board: Position, to: int, occupied: u64, s: int)
    requires
        board.wf(),
        0 <= s < 64,
        0 <= to < 64,
    ensures
        holds(straight_attackers(board, to, occupied), s) == (holds(occupied, s) && straight(to, s)
            && open_line(to, s, occupied) && (board.piece_at(s) == Some(Piece::Rook)
            || board.piece_at(s) == Some(Piece::Queen))),
{
    lemma_every_test_selects();
    lemma_sets(board, s);
    let lines = crate::attacks::rook_squares(to, occupied);
    lemma_operators(lines, occupied, s);
    lemma_operators(lines & occupied, board.pieces[3] | board.pieces[4], s);
    lemma_operators(board.pieces[3], board.pieces[4], s);
    assert(holds(lines, s) == (straight(to, s) && open_line(to, s, occupied)));
}

proof fn lemma_diagonal(board: Position, to: int, occupied: u64, s: int)
    requires
        board.wf(),
        0 <= s < 64,
        0 <= to < 64,
    ensures
        holds(diagonal_attackers(board, to, occupied), s) == (holds(occupied, s) && diagonal(to, s)
            && open_line(to, s, occupied) && (board.piece_at(s) == Some(Piece::Bishop)
            || board.piece_at(s) == Some(Piece::Queen))),
{
    lemma_every_test_selects();
    lemma_sets(board, s);
    let lines = crate::attacks::bishop_squares(to, occupied);
    lemma_operators(lines, occupied, s);
    lemma_operators(lines & occupied, board.pieces[2] | board.pieces[4], s);
    lemma_operators(board.pieces[2], board.pieces[4], s);
    assert(holds(lines, s) == (diagonal(to, s) && open_line(to, s, occupied)));
}

/// The attackers of a square are the men that could take on it, as each kind
/// moves: no man is left out and none is there that could not.
pub proof fn attackers_are_the_men_that_strike(
    board: Position,
    to: int,
    occupied: u64,
    s: int,
)
    requires
        board.wf(),
        0 <= to < 64,
        0 <= s < 64,
    ensures
        holds(attackers_of(board, to, occupied), s) == (holds(occupied, s) && strikes(
            board,
            s,
            to,
            occupied,
        )),
{
    lemma_every_test_selects();
    lemma_sets(board, s);
    lemma_straight(board, to, occupied, s);
    lemma_diagonal(board, to, occupied, s);
    let ks = crate::attacks::king_squares(to);
    let ns = crate::attacks::knight_squares(to);
    let ws = crate::attacks::pawn_squares(to, Color::Black);
    let bs = crate::attacks::pawn_squares(to, Color::White);
    let k = ks & board.pieces[5] & occupied;
    let n = ns & board.pieces[1] & occupied;
    let d = diagonal_attackers(board, to, occupied);
    let r = straight_attackers(board, to, occupied);
    let wp = board.spec_colored(Color::White, Piece::Pawn);
    let bp = board.spec_colored(Color::Black, Piece::Pawn);
    let w = ws & occupied & wp;
    let b = bs & occupied & bp;
    lemma_operators(ks, board.pieces[5], s);
    lemma_operators(ks & board.pieces[5], occupied, s);
    lemma_operators(ns, board.pieces[1], s);
    lemma_operators(ns & board.pieces[1], occupied, s);
    lemma_operators(ws, occupied, s);
    lemma_operators(ws & occupied, wp, s);
    lemma_operators(board.colors[0], board.pieces[0], s);
    lemma_operators(bs, occupied, s);
    lemma_operators(bs & occupied, bp, s);
    lemma_operators(board.colors[1], board.pieces[0], s);
    lemma_operators(k, n, s);
    lemma_operators(k | n, d, s);
    lemma_operators(k | n | d, r, s);
    lemma_operators(k | n | d | r, w, s);
    lemma_operators(k | n | d | r | w, b, s);
    assert(holds(ks, s) == (s != to && files_apart(to, s) <= 1 && ranks_apart(to, s) <= 1));
    assert(holds(ns, s) == (files_apart(to, s) + ranks_apart(to, s) == 3 && files_apart(to, s) != 0
        && ranks_apart(to, s) != 0));
    assert(holds(ws, s) == (files_apart(to, s) == 1 && rank_of(s) == rank_of(to) - 1));
    assert(holds(bs, s) == (files_apart(to, s) == 1 && rank_of(s) == rank_of(to) + 1));
    assert(k | n | d | r | w | b == attackers_of(board, to, occupied));
}

proof fn lemma_between_keeps_the_line(a: int, b: int, c: int)
    requires
        0 <= a < 64,
        0 <= b < 64,
        0 <= c < 64,
        between(a, b, c),
    ensures
        straight(a, b) ==> straight(a, c) && !diagonal(a, c),
        diagonal(a, b) ==> diagonal(a, c) && !straight(a, c),
{
    let x = file_of(c) - file_of(a);
    let y = rank_of(c) - rank_of(a);
    let u = file_of(b) - file_of(a);
    let v = rank_of(b) - rank_of(a);
    assert(x * v == y * u);
    if u == v && u != 0 {
        assert(x == y) by (nonlinear_arith)
            requires
                x * v == y * u,
                u == v,
                u != 0,
        ;
    }
    if u == -v && u != 0 {
        assert(x == -y) by (nonlinear_arith)
            requires
                x * v == y * u,
                u == -v,
                u != 0,
        ;
    }
}

/// Once a man other than a king has left to take on a square, the attackers of
/// the square are the ones that were there without it and those that it stood in
/// front of: just the men that strike the square now.
pub proof fn attackers_come_from_behind(
    board: Position,
    to: int,
    occupied: u64,
    from: int,
    piece: Piece,
)
    requires
        board.wf(),
        0 <= to < 64,
        0 <= from < 64,
        board.piece_at(from) == Some(piece),
        piece != Piece::King,
        holds(attackers_of(board, to, occupied), from),
    ensures
        ({
            let after = occupied ^ bit_of(from);
            let left = attackers_of(board, to, occupied) & occupied;
            attackers_behind(board, to, after, left, piece) & after == attackers_of(
                board,
                to,
                after,
            )
        }),
{
    let after = occupied ^ bit_of(from);
    let all = attackers_of(board, to, occupied);
    let left = all & occupied;
    let got = attackers_behind(board, to, after, left, piece) & after;
    attackers_are_the_men_that_strike(board, to, occupied, from);
    assert forall|s: int| 0 <= s < 64 implies holds(got, s) == holds(
        attackers_of(board, to, after),
        s,
    ) by {
        attackers_are_the_men_that_strike(board, to, occupied, s);
        attackers_are_the_men_that_strike(board, to, after, s);
        lemma_straight(board, to, after, s);
        lemma_diagonal(board, to, after, s);
        lemma_sets(board, s);
        lemma_sets(board, from);
        lemma_bit_of(from, s);
        lemma_operators(occupied, bit_of(from), s);
        lemma_operators(all, occupied, s);
        let lines: u64 = if piece == Piece::Rook || piece == Piece::Queen {
            straight_attackers(board, to, after)
        } else {
            0
        };
        let diagonals: u64 = if piece == Piece::Pawn || piece == Piece::Bishop || piece
            == Piece::Queen {
            diagonal_attackers(board, to, after)
        } else {
            0
        };
        lemma_operators(left, lines, s);
        lemma_operators(left | lines, diagonals, s);
        lemma_operators(left | lines | diagonals, after, s);
        if straight(to, s) || diagonal(to, s) {
            assert(open_line(to, s, occupied) ==> open_line(to, s, after)) by {
                assert forall|c: int| 0 <= c < 64 && #[trigger] between(to, s, c) && open_line(
                    to,
                    s,
                    occupied,
                ) implies !holds(after, c) by {
                    lemma_operators(occupied, bit_of(from), c);
                    lemma_bit_of(from, c);
                }
            }
            if !between(to, s, from) {
                assert forall|c: int| 0 <= c < 64 && #[trigger] between(to, s, c) && open_line(
                    to,
                    s,
                    after,
                ) implies !holds(occupied, c) by {
                    lemma_operators(occupied, bit_of(from), c);
                    lemma_bit_of(from, c);
                }
                assert(open_line(to, s, after) ==> open_line(to, s, occupied));
            } else {
                lemma_between_keeps_the_line(to, s, from);
            }
        }
    }
    lemma_same_squares(got, attackers_of(board, to, after));
}

proof fn lemma_cheapest_is_least(board: Position, usable: u64, defended: bool, n: int, s: int)
    requires
        board.wf(),
        0 <= n <= 6,
        0 <= s < 64,
        holds(usable, s),
        board.piece_at(s) matches Some(piece) && piece.number() >= n,
    ensures
        match cheapest(board, usable, defended, n) {
            Some((from, piece)) => points(piece) <= points(board.piece_at(s)->0) && board.piece_at(
                from,
            ) == Some(piece),
            None => board.piece_at(s) == Some(Piece::King) && defended,
        },
    decreases 6 - n,
{
    lemma_sets(board, s);
    if n >= 6 || (n == 5 && defended) {
    } else {
        let b = usable & board.pieces[n];
        lemma_operators(usable, board.pieces[n], s);
        lemma_lowest(b);
        if b != 0 {
            lemma_sets(board, lowest_of(b));
            lemma_operators(usable, board.pieces[n], lowest_of(b));
        } else {
            lemma_operators(0, 0, s);
            lemma_cheapest_is_least(board, usable, defended, n + 1, s);
        }
    }
}

proof fn lemma_cheapest_may(board: Position, usable: u64, defended: bool, n: int)
    requires
        board.wf(),
        0 <= n <= 6,
    ensures
        cheapest(board, usable, defended, n) matches Some((from, piece)) ==> 0 <= from < 64
            && holds(usable, from) && board.piece_at(from) == Some(piece) && (piece == Piece::King
            ==> !defended),
    decreases 6 - n,
{
    if n >= 6 || (n == 5 && defended) {
    } else {
        let b = usable & board.pieces[n];
        lemma_lowest(b);
        if b != 0 {
            lemma_sets(board, lowest_of(b));
            lemma_operators(usable, board.pieces[n], lowest_of(b));
        } else {
            lemma_cheapest_may(board, usable, defended, n + 1);
        }
    }
}

/// Whether a man of a side may take on a square: it attacks it, and if it is
/// pinned it stays on the line through its king.
pub open spec fn may_take(board: Position, s: int, to: int, color: Color, attackers: u64) -> bool {
    &&& holds(attackers, s)
    &&& board.color_at(s) == Some(color)
    &&& holds(pinned_of(board, color), s) ==> on_line(board.king_of(color), to, s)
}

proof fn lemma_takers(board: Position, to: int, color: Color, attackers: u64, s: int)
    requires
        board.wf(),
        0 <= s < 64,
    ensures
        holds(takers(board, to, color, attackers), s) == may_take(board, s, to, color, attackers),
{
    lemma_every_test_selects();
    lemma_sets(board, s);
    let line = line_squares(board.king_of(color), to);
    let pinned = pinned_of(board, color);
    let own = board.colors[color.number()];
    lemma_operators(attackers, own, s);
    lemma_operators(line, line, s);
    lemma_operators(pinned, !line, s);
    lemma_operators(pinned & !line, 0, s);
    lemma_operators(attackers & own, !(pinned & !line), s);
    assert(holds(line, s) == on_line(board.king_of(color), to, s));
}

/// The man that takes next is the cheapest of its side that may. A king takes
/// only where nothing defends, and nothing takes only where nothing may or just
/// a king that must not.
pub proof fn the_cheapest_man_takes(
    board: Position,
    to: int,
    color: Color,
    attackers: u64,
    s: int,
)
    requires
        board.wf(),
        0 <= s < 64,
    ensures
        ({
            let may = may_take(board, s, to, color, attackers);
            let defended = exists|d: int|
                0 <= d < 64 && #[trigger] holds(attackers, d) && board.color_at(d) == Some(
                    color.other(),
                );
            match next_taker(board, to, color, attackers) {
                Some((from, piece)) => {
                    &&& 0 <= from < 64
                    &&& board.piece_at(from) == Some(piece)
                    &&& may_take(board, from, to, color, attackers)
                    &&& may ==> points(piece) <= points(board.piece_at(s)->0)
                    &&& piece == Piece::King ==> !defended
                },
                None => may ==> board.piece_at(s) == Some(Piece::King) && defended,
            }
        }),
{
    let usable = takers(board, to, color, attackers);
    let theirs = board.colors[color.other().number()];
    let defended = attackers & theirs != 0;
    lemma_sets(board, s);
    lemma_takers(board, to, color, attackers, s);
    lemma_cheapest_may(board, usable, defended, 0);
    if may_take(board, s, to, color, attackers) {
        lemma_cheapest_is_least(board, usable, defended, 0, s);
    }
    if let Some((from, piece)) = next_taker(board, to, color, attackers) {
        lemma_takers(board, to, color, attackers, from);
    }
    lemma_lowest(attackers & theirs);
    if defended {
        let d = lowest_of(attackers & theirs);
        lemma_operators(attackers, theirs, d);
        lemma_sets(board, d);
        assert(holds(attackers, d) && board.color_at(d) == Some(color.other()));
    } else {
        assert forall|d: int| 0 <= d < 64 && #[trigger] holds(attackers, d) implies board.color_at(
            d,
        ) != Some(color.other()) by {
            lemma_operators(attackers, theirs, d);
            lemma_operators(0, 0, d);
            lemma_sets(board, d);
        }
    }
}

/// What a square can cost that stands on it: the man, and a queen for a pawn
/// where pawns promote.
pub open spec fn at_stake(to: int, standing: Piece) -> int {
    points(standing) + if rank_of(to) == 0 || rank_of(to) == 7 {
        800int
    } else {
        0int
    }
}

/// Nobody has to take, and no more is won than stands on the square. Who takes
/// loses at most the man that takes; who takes where nobody takes back wins all.
pub proof fn taking_is_never_forced(
    board: Position,
    to: int,
    color: Color,
    occupied: u64,
    attackers: u64,
    standing: Piece,
)
    requires
        0 <= to < 64,
    ensures
        ({
            let best = best_capture(board, to, color, occupied, attackers, standing);
            let left = attackers & occupied;
            &&& 0 <= best <= at_stake(to, standing)
            &&& match next_taker(board, to, color, left) {
                Some((from, piece)) => {
                    let after = occupied ^ bit_of(from);
                    let behind = attackers_behind(board, to, after, left, piece);
                    let answer = next_taker(board, to, color.other(), behind & after);
                    let queens = piece == Piece::Pawn && rank_of(to) == (if color == Color::White {
                        7int
                    } else {
                        0int
                    });
                    &&& !queens ==> points(standing) - at_stake(to, piece) <= best
                    &&& !queens ==> best <= points(standing)
                    &&& !queens && answer is None ==> best == points(standing)
                    &&& queens ==> points(standing) + 800 - at_stake(to, Piece::Queen) <= best
                    &&& queens && answer is None ==> best == points(standing) + 800
                },
                None => best == 0,
            }
        }),
    decreases occupied,
{
    let left = attackers & occupied;
    if let Some((from, piece)) = next_taker(board, to, color, left) {
        crate::evaluate::lemma_next_taker(board, to, color, left);
        lemma_operators(attackers, occupied, from);
        crate::bits::lemma_without(occupied, from);
        let after = occupied ^ bit_of(from);
        let behind = attackers_behind(board, to, after, left, piece);
        let queens = crate::evaluate::promotes(to, color, piece);
        taking_is_never_forced(
            board,
            to,
            color.other(),
            after,
            behind,
            if queens {
                Piece::Queen
            } else {
                piece
            },
        );
    }
}

/// Whether a man that takes on a square becomes a queen.
pub open spec fn becomes_queen(to: int, color: Color, piece: Piece) -> bool {
    piece == Piece::Pawn && rank_of(to) == match color {
        Color::White => 7int,
        Color::Black => 0int,
    }
}

/// Where one man takes and is taken back, and that is all, the taker wins what the
/// first man was worth above the second, or leaves it. A pawn that promotes in taking
/// wins a queen for a pawn, and is lost as a queen.
pub proof fn one_taking_back_costs_the_taker(
    board: Position,
    to: int,
    color: Color,
    occupied: u64,
    attackers: u64,
    standing: Piece,
    first: (int, Piece),
    second: (int, Piece),
)
    requires
        0 <= to < 64,
        next_taker(board, to, color, attackers & occupied) == Some(first),
        ({
            let after = occupied ^ bit_of(first.0);
            let behind = attackers_behind(board, to, after, attackers & occupied, first.1);
            let later = after ^ bit_of(second.0);
            &&& next_taker(board, to, color.other(), behind & after) == Some(second)
            &&& next_taker(
                board,
                to,
                color,
                attackers_behind(board, to, later, behind & after, second.1) & later,
            ) is None
        }),
    ensures
        ({
            let best = best_capture(board, to, color, occupied, attackers, standing);
            let queens = becomes_queen(to, color, first.1);
            let won = points(standing) + if queens {
                800int
            } else {
                0int
            };
            let lost = (if queens {
                900int
            } else {
                points(first.1)
            }) + if becomes_queen(to, color.other(), second.1) {
                800int
            } else {
                0int
            };
            &&& won >= lost ==> best == won - lost
            &&& won <= lost ==> best == 0
        }),
{
    let after = occupied ^ bit_of(first.0);
    let left = attackers & occupied;
    let behind = attackers_behind(board, to, after, left, first.1);
    let other = color.other();
    assert(other.other() == color);
    let now = if becomes_queen(to, color, first.1) {
        Piece::Queen
    } else {
        first.1
    };
    taking_is_never_forced(board, to, other, after, behind, now);
    crate::evaluate::lemma_next_taker(board, to, color, left);
    lemma_operators(attackers, occupied, first.0);
    crate::bits::lemma_without(occupied, first.0);
}

/// A move wins what it takes and no more, and loses at most the man that it
/// places. Where nothing of the other side attacks that man, nothing is lost.
pub proof fn an_exchange_costs_at_most_the_man(board: Position, mv: EngineMove)
    requires
        board.wf(),
        mv.mv.from < 64,
        mv.mv.to < 64,
    ensures
        ({
            let to = mv.mv.to as int;
            let left = squares_left(board, mv);
            let attackers = attackers_of(board, to, left);
            &&& exchange_value(board, mv) <= mv.material_value
            &&& exchange_value(board, mv) >= mv.material_value - at_stake(to, placed_piece(mv))
            &&& (forall|s: int|
                0 <= s < 64 && #[trigger] board.color_at(s) == Some(board.side_to_move.other())
                    && holds(left, s) ==> !strikes(board, s, to, left)) ==> exchange_value(
                board,
                mv,
            ) == mv.material_value
        }),
{
    let to = mv.mv.to as int;
    let them = board.side_to_move.other();
    let left = squares_left(board, mv);
    let attackers = attackers_of(board, to, left);
    taking_is_never_forced(board, to, them, left, attackers, placed_piece(mv));
    if let Some((from, piece)) = next_taker(board, to, them, attackers & left) {
        the_cheapest_man_takes(board, to, them, attackers & left, 0);
        lemma_operators(attackers, left, from);
        attackers_are_the_men_that_strike(board, to, left, from);
        assert(board.color_at(from) == Some(them));
    }
}

/// An exchange is good, costs a pawn at most, or is bad.
pub proof fn exchanges_are_sorted_by_a_pawn(won: int)
    ensures
        bucket_of(won) == 0 <==> won >= 0,
        bucket_of(won) == -100 <==> -100 <= won < 0,
        bucket_of(won) == -1_000_000 <==> won < -100,
{
}

/// What a man counts for a side.
pub open spec fn counted_for(man: Option<(Piece, Color)>, side: Color) -> int {
    match man {
        Some((piece, color)) => if color == side {
            points(piece)
        } else {
            -points(piece)
        },
        None => 0,
    }
}

/// What each square counts for a side before a move.
pub open spec fn counted_before(board: Position, side: Color) -> spec_fn(int) -> int {
    |s: int| counted_for(board.man_at(s), side)
}

/// What each square counts for a side after a move.
pub open spec fn counted_after(board: Position, mv: Move, side: Color) -> spec_fn(int) -> int {
    |s: int| counted_for(man_after(board, mv, s), side)
}

proof fn lemma_man(board: Position, s: int)
    requires
        board.wf(),
        0 <= s < 64,
    ensures
        board.man_at(s) == match board.piece_at(s) {
            Some(piece) => match board.color_at(s) {
                Some(color) => Some((piece, color)),
                None => None,
            },
            None => None,
        },
        board.piece_at(s) is Some <==> board.color_at(s) is Some,
{
    lemma_sets(board, s);
}

/// What a move gains is the change that it makes to the balance of the material
/// on the board, for the side that moves.
pub proof fn a_gain_is_the_change_in_material(board: Position, mv: Move, piece: Piece)
    requires
        board.wf(),
        plausible(board, mv),
        board.piece_at(mv.from as int) == Some(piece),
    ensures
        material_gain(board, mv, piece) == total(
            counted_after(board, mv, board.side_to_move),
            64,
        ) - total(counted_before(board, board.side_to_move), 64),
{
    let side = board.side_to_move;
    let from = mv.from as int;
    let to = mv.to as int;
    let f = counted_before(board, side);
    let g = counted_after(board, mv, side);
    lemma_man(board, from);
    lemma_man(board, to);
    let f1 = replaced(f, from, 0);
    lemma_total_replaced(f, from, 0, 64);
    if castles(board, mv) {
        let k = castled_king(mv);
        let r = castled_rook(mv);
        let f2 = replaced(f1, to, 0);
        let f3 = replaced(f2, k, points(Piece::King));
        let f4 = replaced(f3, r, points(Piece::Rook));
        lemma_total_replaced(f1, to, 0, 64);
        lemma_total_replaced(f2, k, points(Piece::King), 64);
        lemma_total_replaced(f3, r, points(Piece::Rook), 64);
        assert forall|s: int| 0 <= s < 64 implies #[trigger] f4(s) == g(s) by {}
        lemma_total_same(f4, g, 64);
        assert(0 <= k < 64 && 0 <= r < 64 && k != r);
        assert(f(from) == points(Piece::King));
        assert(f1(to) == points(Piece::Rook));
        assert(f2(k) == 0);
        assert(f3(r) == 0);
        assert(victim_of(board, mv, piece) is None);
    } else {
        let placed = match mv.promotion {
            Some(p) => points(p),
            None => points(piece),
        };
        let f2 = replaced(f1, to, placed);
        lemma_total_replaced(f1, to, placed, 64);
        if in_passing(board, mv) {
            let q = passed_square(mv);
            lemma_man(board, q);
            let f3 = replaced(f2, q, 0);
            lemma_total_replaced(f2, q, 0, 64);
            assert(q != from && q != to);
            assert forall|s: int| 0 <= s < 64 implies #[trigger] f3(s) == g(s) by {}
            lemma_total_same(f3, g, 64);
            assert(f2(q) == -100);
        } else {
            assert forall|s: int| 0 <= s < 64 implies #[trigger] f2(s) == g(s) by {}
            lemma_total_same(f2, g, 64);
        }
        assert(f(from) == points(piece));
        assert(f1(to) == f(to));
    }
}

/// A move takes a man exactly where one of the other side is no longer on the
/// board after it, and the man that it is said to take is that man: it stood
/// where the moved one now stands or, taken in passing, beside it.
pub proof fn a_capture_removes_its_victim(board: Position, mv: Move, piece: Piece, s: int)
    requires
        board.wf(),
        plausible(board, mv),
        board.piece_at(mv.from as int) == Some(piece),
        0 <= s < 64,
    ensures
        ({
            let facts = move_facts(board, mv, piece, false);
            let them = board.side_to_move.other();
            let gone = board.color_at(s) == Some(them) && (man_after(board, mv, s) matches Some(
                (_, color),
            ) ==> color != them);
            &&& gone ==> facts.is_capture && facts.target_type == board.piece_at(s)
            &&& gone ==> (facts.is_ep <==> s != mv.to)
            &&& facts.is_capture && !facts.is_ep && s == mv.to ==> gone
            &&& facts.is_ep && s == 8 * (mv.from / 8) + mv.to % 8 ==> gone
            &&& facts.is_capture <==> facts.target_type is Some
            &&& facts.is_castle <==> board.color_at(mv.to as int) == Some(board.side_to_move)
            &&& facts.promotion <==> mv.promotion is Some
            &&& facts.piece_type == piece && facts.mv == mv
        }),
{
    lemma_man(board, mv.from as int);
    lemma_man(board, mv.to as int);
    lemma_man(board, s);
    if in_passing(board, mv) {
        lemma_man(board, passed_square(mv));
    }
}

/// An exchange goes on in the position after the move: the same squares are taken,
/// and the man that the move placed stands on its square.
pub proof fn an_exchange_goes_on_after_the_move(board: Position, mv: Move, piece: Piece, s: int)
    requires
        board.wf(),
        plausible(board, mv),
        !castles(board, mv),
        board.piece_at(mv.from as int) == Some(piece),
        0 <= s < 64,
    ensures
        ({
            let facts = move_facts(board, mv, piece, false);
            &&& s != mv.to ==> (holds(squares_left(board, facts), s) <==> man_after(
                board,
                mv,
                s,
            ) is Some)
            &&& man_after(board, mv, mv.to as int) == Some(
                (placed_piece(facts), board.side_to_move),
            )
        }),
{
    let from = mv.from as int;
    let to = mv.to as int;
    let facts = move_facts(board, mv, piece, false);
    let all = board.spec_occupied();
    lemma_man(board, from);
    lemma_man(board, to);
    lemma_man(board, s);
    board.lemma_occupied();
    assert(holds(all, s) == (board.man_at(s) is Some));
    let lifted = all ^ bit_of(from);
    let landed = if facts.is_capture {
        lifted
    } else {
        lifted ^ bit_of(to)
    };
    lemma_bit_of(from, s);
    lemma_bit_of(to, s);
    lemma_operators(all, bit_of(from), s);
    lemma_operators(lifted, bit_of(to), s);
    if in_passing(board, mv) {
        let q = passed_square(mv);
        lemma_man(board, q);
        lemma_bit_of(q, s);
        lemma_operators(landed, bit_of(q), s);
        assert(file_of(to) + match board.side_to_move {
            Color::White => 32int,
            Color::Black => 24int,
        } == q);
    }
}

/// Whether a man of the other side would give check from a square along a line if
/// nothing stood between.
pub open spec fn aims_at_king(board: Position, a: int, color: Color) -> bool {
    let king = board.king_of(color);
    &&& 0 <= a < 64
    &&& match board.man_at(a) {
        Some((Piece::Bishop, c)) => c != color && diagonal(king, a),
        Some((Piece::Rook, c)) => c != color && straight(king, a),
        Some((Piece::Queen, c)) => c != color && (diagonal(king, a) || straight(king, a)),
        _ => false,
    }
}

/// Whether a man stands on a square between two others.
pub open spec fn in_the_way(board: Position, a: int, b: int, s: int) -> bool {
    between(a, b, s) && board.man_at(s) is Some
}

/// Whether a square is the only one with a man on it between a square and a king.
pub open spec fn stands_alone_between(board: Position, a: int, color: Color, p: int) -> bool {
    forall|s: int|
        0 <= s < 64 ==> (#[trigger] in_the_way(board, a, board.king_of(color), s) <==> s == p)
}

/// A man is pinned exactly where it alone stands between its king and a man of the
/// other side that would give check along the line.
pub proof fn a_pinned_man_shields_its_king(board: Position, color: Color, p: int)
    requires
        board.wf(),
        0 <= p < 64,
    ensures
        holds(pinned_of(board, color), p) <==> exists|a: int| #[trigger]
            aims_at_king(board, a, color) && stands_alone_between(board, a, color, p),
{
    lemma_every_test_selects();
    assert(holds(pinned_of(board, color), p) == crate::attacks::pinned_at(board, color, p));
    assert forall|a: int| 0 <= a < 64 implies (#[trigger] crate::attacks::shields(
        board,
        color,
        a,
        p,
    ) <==> aims_at_king(board, a, color) && stands_alone_between(board, a, color, p)) by {
        lemma_shields(board, color, a, p);
    }
    if crate::attacks::pinned_at(board, color, p) {
        let a = choose|a: int| 0 <= a < 64 && crate::attacks::shields(board, color, a, p);
        assert(aims_at_king(board, a, color) && stands_alone_between(board, a, color, p));
    }
    if exists|a: int| #[trigger]
        aims_at_king(board, a, color) && stands_alone_between(board, a, color, p) {
        let a = choose|a: int| #[trigger]
            aims_at_king(board, a, color) && stands_alone_between(board, a, color, p);
        assert(crate::attacks::shields(board, color, a, p));
    }
}

proof fn lemma_shields(board: Position, color: Color, a: int, p: int)
    requires
        board.wf(),
        0 <= a < 64,
        0 <= p < 64,
    ensures
        crate::attacks::shields(board, color, a, p) <==> aims_at_king(board, a, color)
            && stands_alone_between(board, a, color, p),
{
    lemma_every_test_selects();
    let king = board.king_of(color);
    board.lemma_king(color);
    lemma_sets(board, a);
    let theirs = board.colors[color.other().number()];
    let bs = crate::attacks::bishop_squares(king, 0);
    let rs = crate::attacks::rook_squares(king, 0);
    let b = bs & (board.pieces[2] | board.pieces[4]);
    let r = rs & (board.pieces[3] | board.pieces[4]);
    lemma_operators(theirs, b | r, a);
    lemma_operators(b, r, a);
    lemma_operators(bs, board.pieces[2] | board.pieces[4], a);
    lemma_operators(rs, board.pieces[3] | board.pieces[4], a);
    lemma_operators(board.pieces[2], board.pieces[4], a);
    lemma_operators(board.pieces[3], board.pieces[4], a);
    assert(open_line(king, a, 0)) by {
        assert forall|c: int| 0 <= c < 64 && #[trigger] between(king, a, c) implies !holds(0, c) by {
            lemma_operators(0, 0, c);
        }
    }
    assert(holds(bs, a) == (diagonal(king, a) && open_line(king, a, 0)));
    assert(holds(rs, a) == (straight(king, a) && open_line(king, a, 0)));
    assert(holds(crate::attacks::sliders_at(board, color), a) == aims_at_king(board, a, color));
    let way = crate::attacks::between_squares(a, king);
    let all = board.spec_occupied();
    if way & all == bit_of(p) {
        assert forall|s: int| 0 <= s < 64 implies (#[trigger] in_the_way(
            board,
            a,
            board.king_of(color),
            s,
        ) <==> s == p) by {
            lemma_bit_of(p, s);
            lemma_men_between(board, a, king, s);
        }
        assert(stands_alone_between(board, a, color, p));
    }
    if stands_alone_between(board, a, color, p) {
        assert forall|s: int| 0 <= s < 64 implies holds(way & all, s) == holds(bit_of(p), s) by {
            lemma_bit_of(p, s);
            lemma_men_between(board, a, king, s);
            assert(in_the_way(board, a, board.king_of(color), s) <==> s == p);
        }
        lemma_same_squares(way & all, bit_of(p));
        assert(way & all == bit_of(p));
    }
    assert(crate::attacks::shields(board, color, a, p) == (holds(
        crate::attacks::sliders_at(board, color),
        a,
    ) && way & all == bit_of(p)));
}

proof fn lemma_men_between(board: Position, a: int, b: int, s: int)
    requires
        board.wf(),
        0 <= s < 64,
    ensures
        holds(crate::attacks::between_squares(a, b) & board.spec_occupied(), s) == in_the_way(
            board,
            a,
            b,
            s,
        ),
{
    lemma_every_test_selects();
    let way = crate::attacks::between_squares(a, b);
    board.lemma_occupied();
    assert(holds(board.spec_occupied(), s) == (board.man_at(s) is Some));
    lemma_operators(way, board.spec_occupied(), s);
    assert(holds(way, s) == between(a, b, s));
}

/// Kings may not stand next to each other.
pub proof fn kings_keep_apart(board: Position)
    requires
        board.wf(),
    ensures
        board.kings_apart() <==> !strikes(
            board,
            board.king_of(Color::White),
            board.king_of(Color::Black),
            board.spec_occupied(),
        ),
        board.kings_apart() <==> crate::rules::with_kings_apart(Some(board)) == Some(board),
        !board.kings_apart() <==> crate::rules::with_kings_apart(Some(board)) is None,
{
    board.lemma_king(Color::White);
    board.lemma_king(Color::Black);
}

} // verus!
