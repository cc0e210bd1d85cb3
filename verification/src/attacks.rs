//! Which squares a piece reaches. The tables come from the `cozy_chess`
//! crate; what they hold is stated by files and ranks.

use crate::bits::{
    bit, bit_of, contains, first, holds, lemma_bit_of, lemma_lowest, lemma_operators,
    lemma_same_squares, lowest_of,
};
use crate::chess::{file_of, rank_of, Color, Position};
use vstd::prelude::*;

verus! {

pub open spec fn distance(a: int, b: int) -> int {
    if a < b {
        b - a
    } else {
        a - b
    }
}

/// How many files lie between two squares.
pub open spec fn files_apart(a: int, b: int) -> int {
    distance(file_of(a), file_of(b))
}

/// How many ranks lie between two squares.
pub open spec fn ranks_apart(a: int, b: int) -> int {
    distance(rank_of(a), rank_of(b))
}

/// Two squares on one file or rank.
pub open spec fn straight(a: int, b: int) -> bool {
    a != b && (files_apart(a, b) == 0 || ranks_apart(a, b) == 0)
}

/// Two squares on one diagonal.
pub open spec fn diagonal(a: int, b: int) -> bool {
    a != b && files_apart(a, b) == ranks_apart(a, b)
}

/// Whether `c` is on the line through `a` and `b`, which a piece that slides
/// from the one reaches the other along.
pub open spec fn on_line(a: int, b: int, c: int) -> bool {
    &&& straight(a, b) || diagonal(a, b)
    &&& (file_of(c) - file_of(a)) * (rank_of(b) - rank_of(a)) == (rank_of(c) - rank_of(a)) * (
    file_of(b) - file_of(a))
}

/// Whether `c` is on that line, with `a` on one side and `b` on the other.
pub open spec fn between(a: int, b: int, c: int) -> bool {
    &&& on_line(a, b, c)
    &&& c != a
    &&& c != b
    &&& files_apart(a, c) + files_apart(c, b) == files_apart(a, b)
    &&& ranks_apart(a, c) + ranks_apart(c, b) == ranks_apart(a, b)
}

/// Whether no piece stands between two squares.
pub open spec fn open_line(a: int, b: int, blockers: u64) -> bool {
    forall|c: int| 0 <= c < 64 && #[trigger] between(a, b, c) ==> !holds(blockers, c)
}

/// Whether a set holds just the squares that pass a test.
pub open spec fn selects(b: u64, test: spec_fn(int) -> bool) -> bool {
    forall|s: int| 0 <= s < 64 ==> holds(b, s) == #[trigger] test(s)
}

/// The set of the squares that pass a test.
pub open spec fn squares(test: spec_fn(int) -> bool) -> u64 {
    choose|b: u64| selects(b, test)
}

/// A set that holds the squares that pass a test is the set of them.
pub proof fn lemma_squares(test: spec_fn(int) -> bool, b: u64)
    requires
        selects(b, test),
    ensures
        b == squares(test),
{
    let c = squares(test);
    assert forall|s: int| 0 <= s < 64 implies holds(b, s) == holds(c, s) by {
        assert(holds(b, s) == test(s));
        assert(holds(c, s) == test(s));
    }
    lemma_same_squares(b, c);
}

pub open spec fn knight_squares(from: int) -> u64 {
    squares(|s: int| files_apart(from, s) + ranks_apart(from, s) == 3 && files_apart(from, s) != 0
        && ranks_apart(from, s) != 0)
}

pub open spec fn king_squares(from: int) -> u64 {
    squares(|s: int| s != from && files_apart(from, s) <= 1 && ranks_apart(from, s) <= 1)
}

/// The squares that a pawn of a color attacks.
pub open spec fn pawn_squares(from: int, color: Color) -> u64 {
    squares(|s: int| files_apart(from, s) == 1 && rank_of(s) == rank_of(from) + match color {
        Color::White => 1int,
        Color::Black => -1int,
    })
}

/// Where a bishop slides to until a piece stops it. It reaches the piece
/// that stops it.
pub open spec fn bishop_squares(from: int, blockers: u64) -> u64 {
    squares(|s: int| diagonal(from, s) && open_line(from, s, blockers))
}

/// Where a rook slides to until a piece stops it. It reaches the piece that
/// stops it.
pub open spec fn rook_squares(from: int, blockers: u64) -> u64 {
    squares(|s: int| straight(from, s) && open_line(from, s, blockers))
}

/// The squares strictly between two squares on a line.
pub open spec fn between_squares(a: int, b: int) -> u64 {
    squares(|s: int| between(a, b, s))
}

/// The whole line through two squares, or no square where no line joins them.
pub open spec fn line_squares(a: int, b: int) -> u64 {
    squares(|s: int| on_line(a, b, s))
}

/// `cozy_chess::get_knight_moves`: the knight's jumps.
#[verifier::external_body]
pub(crate) fn knight_moves(from: u8) -> (r: u64)
    requires
        from < 64,
    ensures
        r == knight_squares(from as int),
{
    cozy_chess::get_knight_moves(cozy_chess::Square::index(from as usize)).0
}

/// `cozy_chess::get_king_moves`: the squares next to the king.
#[verifier::external_body]
pub(crate) fn king_moves(from: u8) -> (r: u64)
    requires
        from < 64,
    ensures
        r == king_squares(from as int),
{
    cozy_chess::get_king_moves(cozy_chess::Square::index(from as usize)).0
}

/// `cozy_chess::get_pawn_attacks`: the two squares ahead on the next files.
#[verifier::external_body]
pub(crate) fn pawn_attacks(from: u8, color: Color) -> (r: u64)
    requires
        from < 64,
    ensures
        r == pawn_squares(from as int, color),
{
    let color = cozy_chess::Color::index(color.index());
    cozy_chess::get_pawn_attacks(cozy_chess::Square::index(from as usize), color).0
}

/// `cozy_chess::get_bishop_moves`: diagonal slides up to the first blocker.
#[verifier::external_body]
pub(crate) fn bishop_moves(from: u8, blockers: u64) -> (r: u64)
    requires
        from < 64,
    ensures
        r == bishop_squares(from as int, blockers),
{
    let square = cozy_chess::Square::index(from as usize);
    cozy_chess::get_bishop_moves(square, cozy_chess::BitBoard(blockers)).0
}

/// `cozy_chess::get_rook_moves`: straight slides up to the first blocker.
#[verifier::external_body]
pub(crate) fn rook_moves(from: u8, blockers: u64) -> (r: u64)
    requires
        from < 64,
    ensures
        r == rook_squares(from as int, blockers),
{
    let square = cozy_chess::Square::index(from as usize);
    cozy_chess::get_rook_moves(square, cozy_chess::BitBoard(blockers)).0
}

/// `cozy_chess::get_between_rays`: the squares between two squares.
#[verifier::external_body]
pub(crate) fn between_rays(a: u8, b: u8) -> (r: u64)
    requires
        a < 64,
        b < 64,
    ensures
        r == between_squares(a as int, b as int),
{
    let a = cozy_chess::Square::index(a as usize);
    cozy_chess::get_between_rays(a, cozy_chess::Square::index(b as usize)).0
}

/// `cozy_chess::get_line_rays`: the line through two squares.
#[verifier::external_body]
pub(crate) fn line_rays(a: u8, b: u8) -> (r: u64)
    requires
        a < 64,
        b < 64,
    ensures
        r == line_squares(a as int, b as int),
{
    let a = cozy_chess::Square::index(a as usize);
    cozy_chess::get_line_rays(a, cozy_chess::Square::index(b as usize)).0
}

/// The enemy pieces that would attack a side's king if nothing stood between.
pub open spec fn sliders_at(board: Position, color: Color) -> u64 {
    let king = board.king_of(color);
    board.colors[color.other().number()] & ((bishop_squares(king, 0) & (board.pieces[2]
        | board.pieces[4])) | (rook_squares(king, 0) & (board.pieces[3] | board.pieces[4])))
}

/// Whether the piece on `p` alone keeps the enemy piece on `a` from a side's
/// king.
pub open spec fn shields(board: Position, color: Color, a: int, p: int) -> bool {
    &&& holds(sliders_at(board, color), a)
    &&& between_squares(a, board.king_of(color)) & board.spec_occupied() == bit_of(p)
}

/// Whether the piece on `p`, of either color, alone keeps some enemy piece
/// from a side's king.
pub open spec fn pinned_at(board: Position, color: Color, p: int) -> bool {
    exists|a: int| 0 <= a < 64 && shields(board, color, a, p)
}

/// The pieces that alone keep an enemy piece from a side's king.
pub open spec fn pinned_of(board: Position, color: Color) -> u64 {
    squares(|p: int| pinned_at(board, color, p))
}

/// The pieces that alone keep an enemy piece from a side's king.
pub fn pinned_for(board: &Position, color: Color) -> (r: u64)
    requires
        board.wf(),
    ensures
        r == pinned_of(*board, color),
{
    let king: u8 = board.king(color);
    let occupied: u64 = board.occupied();
    let bishops: u64 = bishop_moves(king, 0) & (board.pieces[2] | board.pieces[4]);
    let rooks: u64 = rook_moves(king, 0) & (board.pieces[3] | board.pieces[4]);
    let sliders: u64 = board.colors[color.opposite().index()] & (bishops | rooks);
    let mut pinned: u64 = 0;
    let mut a: u8 = 0;
    proof {
        assert forall|p: int| 0 <= p < 64 implies !holds(0, p) by {
            lemma_operators(0, 0, p);
        }
    }
    while a < 64
        invariant
            a <= 64,
            king < 64,
            king == board.king_of(color),
            occupied == board.spec_occupied(),
            sliders == sliders_at(*board, color),
            forall|p: int|
                0 <= p < 64 ==> #[trigger] holds(pinned, p) == exists|b: int|
                    0 <= b < a && shields(*board, color, b, p),
        decreases 64 - a,
    {
        let ghost before = pinned;
        if contains(sliders, a) {
            let shield: u64 = between_rays(a, king) & occupied;
            if let Some(p) = first(shield) {
                if bit(p) == shield {
                    pinned = pinned | shield;
                    proof {
                        assert(shields(*board, color, a as int, p as int));
                        assert forall|q: int| 0 <= q < 64 implies #[trigger] holds(pinned, q)
                            == exists|b: int| 0 <= b < a + 1 && shields(*board, color, b, q) by {
                            lemma_operators(before, shield, q);
                            lemma_bit_of(p as int, q);
                            if shields(*board, color, a as int, q) {
                                lemma_bit_of(q, q);
                            }
                        }
                    }
                }
            }
        }
        proof {
            assert forall|q: int| 0 <= q < 64 implies #[trigger] holds(pinned, q) == exists|b: int|
                0 <= b < a + 1 && shields(*board, color, b, q) by {
                if shields(*board, color, a as int, q) {
                    lemma_bit_of(q, q);
                    let shield = between_squares(a as int, king as int) & occupied;
                    lemma_lowest(shield);
                    lemma_operators(0, 0, q);
                    lemma_bit_of(q, lowest_of(shield));
                    assert(pinned != before || holds(before, q));
                }
                assert(holds(before, q) == exists|b: int|
                    0 <= b < a && shields(*board, color, b, q));
            }
        }
        a = a + 1;
    }
    proof {
        let test = |p: int| pinned_at(*board, color, p);
        assert forall|s: int| 0 <= s < 64 implies holds(pinned, s) == #[trigger] test(s) by {}
        lemma_squares(test, pinned);
    }
    pinned
}

} // verus!
