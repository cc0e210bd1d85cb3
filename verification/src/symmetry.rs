//! What the evaluation does not depend on: which color a side has, and which
//! wing is which.

use crate::bits::holds;
use crate::chess::{file_of, rank_of, Color, Piece, Position};
use crate::nnue::{
    contributions, feature_of, hidden_sum, hidden_values, king_bucket_of, output_bucket_of,
    output_of, xor_of, Network, NnueState,
};
use crate::rules::placed_for_start;
use crate::totals::{lemma_count_is_total, membership, total};
use vstd::prelude::*;

verus! {

/// A way to turn a board: the ends are exchanged together with the colors, or
/// the wings are exchanged.
pub enum Turn {
    Ends,
    Wings,
}

/// Where a square is after a turn.
pub open spec fn turned(turn: Turn, s: int) -> int {
    match turn {
        Turn::Ends => 8 * (7 - rank_of(s)) + file_of(s),
        Turn::Wings => 8 * rank_of(s) + 7 - file_of(s),
    }
}

/// The color that a color is after a turn.
pub open spec fn recolored(turn: Turn, color: Color) -> Color {
    match turn {
        Turn::Ends => color.other(),
        Turn::Wings => color,
    }
}

/// Whether the pieces of a position are those of another after a turn.
pub open spec fn is_turned(turn: Turn, board: Position, other: Position) -> bool {
    forall|s: int|
        0 <= s < 64 ==> other.man_at(s) == match board.man_at(#[trigger] turned(turn, s)) {
            Some((piece, color)) => Some((piece, recolored(turn, color))),
            None => None,
        }
}

/// The bits of a square's number that a turn changes.
pub open spec fn turn_bits(turn: Turn) -> u8 {
    match turn {
        Turn::Ends => 56,
        Turn::Wings => 7,
    }
}

proof fn lemma_turn_bits(turn: Turn, s: u8)
    requires
        s < 64,
    ensures
        s ^ turn_bits(turn) == turned(turn, s as int),
        0 <= turned(turn, s as int) < 64,
        turned(turn, turned(turn, s as int)) == s,
{
    assert((s ^ 56) == 8 * (7 - s / 8) + s % 8) by (bit_vector)
        requires
            s < 64,
    ;
    assert((s ^ 7) == 8 * (s / 8) + 7 - s % 8) by (bit_vector)
        requires
            s < 64,
    ;
}

proof fn lemma_turned_view(s: u8, bits: u8, square_xor: u8)
    ensures
        s ^ (square_xor ^ bits) == (s ^ bits) ^ square_xor,
{
    assert(s ^ (square_xor ^ bits) == (s ^ bits) ^ square_xor) by (bit_vector);
}

/// A sum over the squares is the same in any order of them.
#[verifier::rlimit(100)]
#[verifier::spinoff_prover]
proof fn lemma_total_turned(turn: Turn, f: spec_fn(int) -> int, g: spec_fn(int) -> int)
    requires
        forall|s: int| 0 <= s < 64 ==> #[trigger] g(s) == f(turned(turn, s)),
    ensures
        total(g, 64) == total(f, 64),
{
    reveal_with_fuel(total, 65);
}

/// The king of a side stands where the turn has put it.
proof fn lemma_turned_king(turn: Turn, board: Position, other: Position, color: Color)
    requires
        board.wf(),
        other.wf(),
        is_turned(turn, board, other),
    ensures
        board.king_of(color) == turned(turn, other.king_of(recolored(turn, color))),
        0 <= other.king_of(recolored(turn, color)) < 64,
{
    let k = other.king_of(recolored(turn, color));
    other.lemma_king(recolored(turn, color));
    board.lemma_king(color);
    lemma_turn_bits(turn, k as u8);
    assert(other.man_at(k) == Some((Piece::King, recolored(turn, color))));
    assert(board.man_at(turned(turn, k)) == Some((Piece::King, color)));
}

/// A side sees after a turn what it saw before.
proof fn lemma_turned_values(
    turn: Turn,
    network: Network,
    board: Position,
    other: Position,
    color: Color,
)
    requires
        board.wf(),
        other.wf(),
        is_turned(turn, board, other),
    ensures
        ({
            let after = recolored(turn, color);
            hidden_values(
                network,
                other,
                after,
                king_bucket_of(other, after),
                xor_of(other, after),
            ) == hidden_values(
                network,
                board,
                color,
                king_bucket_of(board, color),
                xor_of(board, color),
            )
        }),
{
    let after = recolored(turn, color);
    let bits = turn_bits(turn);
    let before_xor = xor_of(board, color);
    let after_xor = xor_of(other, after);
    let bucket = king_bucket_of(board, color);
    lemma_turned_king(turn, board, other, color);
    lemma_turn_bits(turn, other.king_of(after) as u8);
    assert(after_xor == before_xor ^ bits) by {
        assert(0u8 ^ 56 == 56 && 7u8 ^ 56 == 63 && 56u8 ^ 56 == 0 && 63u8 ^ 56 == 7) by (bit_vector);
        assert(0u8 ^ 7 == 7 && 7u8 ^ 7 == 0 && 56u8 ^ 7 == 63 && 63u8 ^ 7 == 56) by (bit_vector);
    }
    assert(king_bucket_of(other, after) == bucket);
    let a = hidden_values(network, other, after, bucket, after_xor);
    let b = hidden_values(network, board, color, bucket, before_xor);
    assert forall|h: int| 0 <= h < 512 implies #[trigger] a[h] == b[h] by {
        let f = contributions(network, board, color, bucket, before_xor, h);
        let g = contributions(network, other, after, bucket, after_xor, h);
        assert forall|s: int| 0 <= s < 64 implies #[trigger] g(s) == f(turned(turn, s)) by {
            lemma_turn_bits(turn, s as u8);
            lemma_turned_view(s as u8, bits, before_xor);
            assert(turned(turn, s) as u8 == s as u8 ^ bits);
            if let Some((piece, owner)) = board.man_at(turned(turn, s)) {
                assert(other.man_at(s) == Some((piece, recolored(turn, owner))));
                assert(feature_of(after, recolored(turn, owner), piece, s as u8, after_xor)
                    == feature_of(color, owner, piece, turned(turn, s) as u8, before_xor));
            } else {
                assert(other.man_at(s) is None);
            }
        }
        lemma_total_turned(turn, f, g);
        assert(hidden_sum(network, other, after, bucket, after_xor, h) == hidden_sum(
            network,
            board,
            color,
            bucket,
            before_xor,
            h,
        ));
    }
    assert(a =~= b);
}

/// A turn keeps the number of pieces.
proof fn lemma_turned_count(turn: Turn, board: Position, other: Position)
    requires
        board.wf(),
        other.wf(),
        is_turned(turn, board, other),
    ensures
        output_bucket_of(other) == output_bucket_of(board),
{
    let f = membership(board.spec_occupied());
    let g = membership(other.spec_occupied());
    board.lemma_occupied();
    other.lemma_occupied();
    assert forall|s: int| 0 <= s < 64 implies #[trigger] g(s) == f(turned(turn, s)) by {
        lemma_turn_bits(turn, s as u8);
        assert(other.man_at(s) is Some <==> board.man_at(turned(turn, s)) is Some);
    }
    lemma_total_turned(turn, f, g);
    lemma_count_is_total(board.spec_occupied(), 64);
    lemma_count_is_total(other.spec_occupied(), 64);
}

/// What a state says for a side.
pub open spec fn says(network: Network, state: NnueState, side: Color) -> int {
    output_of(
        network,
        state.accumulators[side.number()].values@,
        state.accumulators[side.other().number()].values@,
        state.output_bucket as int,
    )
}

/// A turned position is worth to each side what it was worth before: to the
/// other color where the colors were exchanged with the ends, to the same one
/// where the wings were.
pub proof fn a_turned_position_is_worth_the_same(
    turn: Turn,
    network: Network,
    board: Position,
    other: Position,
    before: NnueState,
    after: NnueState,
    side: Color,
)
    requires
        board.wf(),
        other.wf(),
        is_turned(turn, board, other),
        before.represents(network, board),
        after.represents(network, other),
    ensures
        says(network, after, recolored(turn, side)) == says(network, before, side),
{
    lemma_turned_values(turn, network, board, other, Color::White);
    lemma_turned_values(turn, network, board, other, Color::Black);
    lemma_turned_count(turn, board, other);
    assert(before.shows(network, board, Color::White) && before.shows(network, board, Color::Black));
    assert(after.shows(network, other, Color::White) && after.shows(network, other, Color::Black));
    match side {
        Color::White => {},
        Color::Black => {},
    }
}

/// A position that is its own turn, with the colors and the ends exchanged, is
/// worth the same to both sides.
pub proof fn a_balanced_position_is_worth_the_same_to_both(
    network: Network,
    board: Position,
    state: NnueState,
)
    requires
        board.wf(),
        is_turned(Turn::Ends, board, board),
        state.represents(network, board),
    ensures
        says(network, state, Color::White) == says(network, state, Color::Black),
{
    a_turned_position_is_worth_the_same(
        Turn::Ends,
        network,
        board,
        board,
        state,
        state,
        Color::White,
    );
}

proof fn lemma_start_bits(a: u64, b: u64)
    by (bit_vector)
    requires
        a < 64,
        b == 8 * (7 - a / 8) + a % 8,
    ensures
        (0xffffu64 >> a) & 1 == (0xffff_0000_0000_0000u64 >> b) & 1,
        (0xffff_0000_0000_0000u64 >> a) & 1 == (0xffffu64 >> b) & 1,
        (0xffffu64 >> a) & 1 == 0 || (0xffff_0000_0000_0000u64 >> a) & 1 == 0,
        (0x00ff_0000_0000_ff00u64 >> a) & 1 == (0x00ff_0000_0000_ff00u64 >> b) & 1,
        (0x4200_0000_0000_0042u64 >> a) & 1 == (0x4200_0000_0000_0042u64 >> b) & 1,
        (0x2400_0000_0000_0024u64 >> a) & 1 == (0x2400_0000_0000_0024u64 >> b) & 1,
        (0x8100_0000_0000_0081u64 >> a) & 1 == (0x8100_0000_0000_0081u64 >> b) & 1,
        (0x0800_0000_0000_0008u64 >> a) & 1 == (0x0800_0000_0000_0008u64 >> b) & 1,
        (0x1000_0000_0000_0010u64 >> a) & 1 == (0x1000_0000_0000_0010u64 >> b) & 1,
{
}

/// At the start, a square and its turn hold the same piece of either color.
proof fn lemma_start_square(board: Position, s: int)
    requires
        placed_for_start(board),
        0 <= s < 64,
    ensures
        board.piece_at(turned(Turn::Ends, s)) == board.piece_at(s),
        board.color_at(turned(Turn::Ends, s)) == match board.color_at(s) {
            Some(color) => Some(color.other()),
            None => None,
        },
{
    let t = turned(Turn::Ends, s);
    lemma_turn_bits(Turn::Ends, s as u8);
    lemma_start_bits(s as u64, t as u64);
    let p = board.pieces@;
    let c = board.colors@;
    assert(p[0] == 0x00ff_0000_0000_ff00u64 && p[1] == 0x4200_0000_0000_0042u64);
    assert(p[2] == 0x2400_0000_0000_0024u64 && p[3] == 0x8100_0000_0000_0081u64);
    assert(p[4] == 0x0800_0000_0000_0008u64 && p[5] == 0x1000_0000_0000_0010u64);
    assert(c[0] == 0xffffu64 && c[1] == 0xffff_0000_0000_0000u64);
    assert(holds(p[0], s) == holds(p[0], t));
    assert(holds(p[1], s) == holds(p[1], t));
    assert(holds(p[2], s) == holds(p[2], t));
    assert(holds(p[3], s) == holds(p[3], t));
    assert(holds(p[4], s) == holds(p[4], t));
    assert(holds(p[5], s) == holds(p[5], t));
    assert(holds(c[0], s) == holds(c[1], t));
    assert(holds(c[1], s) == holds(c[0], t));
    assert(!(holds(c[0], s) && holds(c[1], s)));
}

/// The start position is its own turn.
proof fn lemma_start_is_balanced(board: Position)
    requires
        placed_for_start(board),
    ensures
        is_turned(Turn::Ends, board, board),
{
    assert forall|s: int| 0 <= s < 64 implies board.man_at(s) == match board.man_at(
        #[trigger] turned(Turn::Ends, s),
    ) {
        Some((piece, color)) => Some((piece, recolored(Turn::Ends, color))),
        None => None,
    } by {
        lemma_start_square(board, s);
    }
}

/// The start position is worth the same to both sides.
pub proof fn the_start_is_worth_the_same_to_both(
    network: Network,
    board: Position,
    state: NnueState,
)
    requires
        board.wf(),
        placed_for_start(board),
        state.represents(network, board),
    ensures
        says(network, state, Color::White) == says(network, state, Color::Black),
{
    lemma_start_is_balanced(board);
    a_balanced_position_is_worth_the_same_to_both(network, board, state);
}

} // verus!
