//! How long a line of play can be: captures and pawn moves use up what is on
//! the board, and only so many other moves can stand between them.

use crate::chess::{rank_of, Color, Move, Piece, Position};
use crate::rules::{
    castled_king, castled_rook, castles, clock_after, in_passing, man_after, passed_square,
    plausible,
};
use crate::totals::{
    board_total, lemma_total_replaced, lemma_total_same, replaced, total,
};
use vstd::prelude::*;

verus! {

/// What a square counts: one for a piece, and for a pawn one for each rank that
/// it has before it, too.
pub open spec fn stock_of(man: Option<(Piece, Color)>, s: int) -> int {
    match man {
        Some((Piece::Pawn, Color::White)) => 8 - rank_of(s),
        Some((Piece::Pawn, Color::Black)) => 1 + rank_of(s),
        Some(_) => 1,
        None => 0,
    }
}

/// What each square of a position counts.
pub open spec fn stocks(board: Position) -> spec_fn(int) -> int {
    |s: int| stock_of(board.man_at(s), s)
}

/// What the board holds that captures and pawn moves can use up.
pub open spec fn stock(board: Position) -> int {
    board_total(stocks(board))
}

/// No line of play from a position is longer, before the clock ends it.
pub open spec fn moves_left(board: Position) -> int {
    101 * stock(board) + 100 - board.halfmove_clock
}

/// No position has more moves left.
pub const MOST_MOVES: i32 = 51_812;

proof fn lemma_total_bounded(f: spec_fn(int) -> int, n: nat)
    requires
        forall|s: int| 0 <= s < n ==> 0 <= #[trigger] f(s) <= 8,
    ensures
        0 <= total(f, n) <= 8 * n,
    decreases n,
{
    if n > 0 {
        assert(0 <= f(n - 1) <= 8);
        lemma_total_bounded(f, (n - 1) as nat);
    }
}

/// Every line of play is bounded.
pub proof fn lines_are_bounded(board: Position)
    requires
        board.wf(),
    ensures
        0 <= moves_left(board) <= MOST_MOVES,
{
    lemma_total_bounded(stocks(board), 64);
}

/// What castling leaves on the board counts as much as before.
proof fn lemma_castling_stock(board: Position, mv: Move, next: Position)
    requires
        board.wf(),
        plausible(board, mv),
        castles(board, mv),
        forall|s: int| 0 <= s < 64 ==> #[trigger] next.man_at(s) == man_after(board, mv, s),
    ensures
        stock(next) == stock(board),
{
    let from = mv.from as int;
    let to = mv.to as int;
    let king = castled_king(mv);
    let rook = castled_rook(mv);
    let f = stocks(board);
    let a = replaced(f, from, 0);
    let b = replaced(a, to, 0);
    let c = replaced(b, king, 1);
    let d = replaced(c, rook, 1);
    assert(board.piece_at(from) is Some && board.color_at(from) is Some);
    assert(board.piece_at(to) is Some && board.color_at(to) is Some);
    lemma_total_replaced(f, from, 0, 64);
    lemma_total_replaced(a, to, 0, 64);
    lemma_total_replaced(b, king, 1, 64);
    lemma_total_replaced(c, rook, 1, 64);
    assert(0 <= king < 64 && 0 <= rook < 64 && king != rook);
    assert(f(from) == 1 && a(to) == 1 && b(king) == 0 && c(rook) == 0);
    assert forall|s: int| 0 <= s < 64 implies #[trigger] stocks(next)(s) == d(s) by {
        assert(next.man_at(s) == man_after(board, mv, s));
    }
    lemma_total_same(stocks(next), d, 64);
}

/// A move that does not castle uses up something if it is of a pawn or
/// captures, and nothing else.
proof fn lemma_plain_stock(board: Position, mv: Move, next: Position)
    requires
        board.wf(),
        plausible(board, mv),
        !castles(board, mv),
        forall|s: int| 0 <= s < 64 ==> #[trigger] next.man_at(s) == man_after(board, mv, s),
    ensures
        board.piece_at(mv.from as int) == Some(Piece::Pawn) || board.piece_at(mv.to as int) is Some
            ==> stock(next) < stock(board),
        stock(next) <= stock(board),
{
    let from = mv.from as int;
    let to = mv.to as int;
    let victim = passed_square(mv);
    let f = stocks(board);
    let arriving = stock_of(man_after(board, mv, to), to);
    assert(board.piece_at(from) is Some && board.color_at(from) is Some);
    assert(board.piece_at(to) is Some <==> board.color_at(to) is Some);
    let a = replaced(f, from, 0);
    let b = if in_passing(board, mv) {
        replaced(a, victim, 0)
    } else {
        a
    };
    let c = replaced(b, to, arriving);
    lemma_total_replaced(f, from, 0, 64);
    if in_passing(board, mv) {
        lemma_total_replaced(a, victim, 0, 64);
        assert(0 <= victim < 64 && victim != from && victim != to);
        assert(a(victim) >= 0);
    }
    lemma_total_replaced(b, to, arriving, 64);
    assert(b(to) == f(to));
    assert forall|s: int| 0 <= s < 64 implies #[trigger] stocks(next)(s) == c(s) by {
        assert(next.man_at(s) == man_after(board, mv, s));
    }
    lemma_total_same(stocks(next), c, 64);
}

/// Handing the move over uses nothing up.
pub proof fn passing_uses_nothing_up(board: Position, next: Position)
    requires
        next.pieces == board.pieces,
        next.colors == board.colors,
        next.halfmove_clock == board.halfmove_clock,
    ensures
        moves_left(next) == moves_left(board),
{
    assert forall|s: int| 0 <= s < 64 implies #[trigger] stocks(next)(s) == stocks(board)(s) by {
        assert(next.man_at(s) == board.man_at(s));
    }
    lemma_total_same(stocks(next), stocks(board), 64);
}

/// Every move leaves fewer moves to come, as long as the clock has not run out,
/// and never more.
pub proof fn moves_are_used_up(board: Position, mv: Move, next: Position)
    requires
        board.wf(),
        plausible(board, mv),
        forall|s: int| 0 <= s < 64 ==> #[trigger] next.man_at(s) == man_after(board, mv, s),
        next.halfmove_clock == clock_after(board, mv),
    ensures
        moves_left(next) <= moves_left(board),
        board.halfmove_clock < 100 ==> moves_left(next) < moves_left(board),
{
    if castles(board, mv) {
        lemma_castling_stock(board, mv, next);
    } else {
        lemma_plain_stock(board, mv, next);
    }
}

} // verus!
