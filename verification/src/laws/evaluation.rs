//! What a position is worth to the network, and by its material.

use crate::bits::{count_of, holds};
use crate::chess::{file_of, rank_of, Color, Piece, Position};
use crate::evaluate::{material_of, material_score};
use crate::nnue::{
    bucket_weights, contributions, evaluation, hidden_sum, hidden_value, king_bucket_of,
    output_bucket_of, output_of, weighted_sum, wrapped, xor_of, Network,
};
use crate::rules::legal_moves_of;
use crate::totals::{
    board_total, lemma_count_is_total, lemma_total_replaced, lemma_total_same, membership, replaced,
    total,
};
use vstd::prelude::*;

verus! {

/// How many men stand on the first squares.
pub open spec fn men_below(board: Position, n: nat) -> nat
    decreases n,
{
    if n == 0 {
        0
    } else {
        men_below(board, (n - 1) as nat) + if board.man_at(n - 1) is Some {
            1nat
        } else {
            0nat
        }
    }
}

/// How many men are on the board.
pub open spec fn men(board: Position) -> nat {
    men_below(board, 64)
}

proof fn lemma_men(board: Position, n: nat)
    requires
        board.wf(),
        n <= 64,
    ensures
        men_below(board, n) == total(membership(board.spec_occupied()), n),
    decreases n,
{
    board.lemma_occupied();
    if n > 0 {
        lemma_men(board, (n - 1) as nat);
        assert(holds(board.spec_occupied(), n - 1) == (board.man_at(n - 1) is Some));
    }
}

/// The squares that are taken are as many as the men.
pub proof fn lemma_men_counted(board: Position)
    requires
        board.wf(),
    ensures
        count_of(board.spec_occupied()) == men(board),
{
    lemma_men(board, 64);
    lemma_count_is_total(board.spec_occupied(), 64);
}

proof fn lemma_no_weights(us: Seq<i16>, them: Seq<i16>, weights: Seq<i16>, n: nat)
    requires
        forall|i: int| 0 <= i < n ==> #[trigger] weights[i] == 0,
    ensures
        weighted_sum(us, them, weights, n) == 0,
    decreases n,
{
    if n > 0 {
        lemma_no_weights(us, them, weights, (n - 1) as nat);
        assert(weights[n - 1] == 0);
    }
}

/// Each output of the network is for its own number of men: the first for two to
/// five, each further one for four more, and the last for thirty and more. Where
/// the hidden values do not count, a position is worth what its output's bias
/// says, and no other.
pub proof fn each_output_has_its_men(network: Network, board: Position, head: int)
    requires
        network.wf(),
        board.wf(),
        forall|i: int| 0 <= i < 8192 ==> #[trigger] network.output_weights@[i] == 0,
        0 <= head < 8,
        head < 7 ==> 4 * head + 2 <= men(board) <= 4 * head + 5,
        head == 7 ==> men(board) >= 30,
    ensures
        network.output_bias@[head] >= 0 ==> 0 <= 16_320 * evaluation(network, board) <= 400
            * network.output_bias@[head] < 16_320 * evaluation(network, board) + 16_320,
        network.output_bias@[head] <= 0 ==> 0 >= 16_320 * evaluation(network, board) >= 400
            * network.output_bias@[head] > 16_320 * evaluation(network, board) - 16_320,
{
    lemma_men(board, 64);
    lemma_count_is_total(board.spec_occupied(), 64);
    let b = output_bucket_of(board);
    assert(b == head);
    let weights = bucket_weights(network.output_weights@, b);
    assert forall|i: int| 0 <= i < 1024 implies #[trigger] weights[i] == 0 by {
        assert(weights[i] == network.output_weights@[b * 1024 + i]);
    }
    let side = board.side_to_move;
    let view = |c: Color|
        crate::nnue::hidden_values(
            network,
            board,
            c,
            king_bucket_of(board, c),
            xor_of(board, c),
        );
    lemma_no_weights(view(side), view(side.other()), weights, 1024);
}

/// A position is evaluated by the output for its number of men, with that output's
/// weights and bias: for the first seven, four numbers of men each from two on, and
/// for the last thirty men and more. The side to move comes first.
pub proof fn each_number_of_men_has_its_output(network: Network, board: Position, head: int)
    requires
        board.wf(),
        0 <= head < 8,
        head < 7 ==> 4 * head + 2 <= men(board) <= 4 * head + 5,
        head == 7 ==> men(board) >= 30,
    ensures
        ({
            let us = board.side_to_move;
            let them = match us {
                Color::White => Color::Black,
                Color::Black => Color::White,
            };
            evaluation(network, board) == output_of(
                network,
                crate::nnue::hidden_values(
                    network,
                    board,
                    us,
                    king_bucket_of(board, us),
                    xor_of(board, us),
                ),
                crate::nnue::hidden_values(
                    network,
                    board,
                    them,
                    king_bucket_of(board, them),
                    xor_of(board, them),
                ),
                head,
            )
        }),
{
    lemma_men_counted(board);
    assert(output_bucket_of(board) == head);
}

proof fn lemma_same_values(
    a: Network,
    b: Network,
    board: Position,
    side: Color,
    bucket: int,
    square_xor: u8,
)
    requires
        a.feature_weights@ == b.feature_weights@,
        a.feature_bias@ == b.feature_bias@,
    ensures
        crate::nnue::hidden_values(a, board, side, bucket, square_xor)
            == crate::nnue::hidden_values(b, board, side, bucket, square_xor),
{
    let x = crate::nnue::hidden_values(a, board, side, bucket, square_xor);
    let y = crate::nnue::hidden_values(b, board, side, bucket, square_xor);
    assert forall|h: int| 0 <= h < 512 implies x[h] == y[h] by {
        lemma_total_same(
            contributions(a, board, side, bucket, square_xor, h),
            contributions(b, board, side, bucket, square_xor, h),
            64,
        );
    }
    assert(x =~= y);
}

/// The weights and the bias of the other outputs make no difference.
pub proof fn no_other_output_counts(a: Network, b: Network, board: Position, head: int)
    requires
        a.wf(),
        b.wf(),
        board.wf(),
        0 <= head < 8,
        head < 7 ==> 4 * head + 2 <= men(board) <= 4 * head + 5,
        head == 7 ==> men(board) >= 30,
        a.feature_weights@ == b.feature_weights@,
        a.feature_bias@ == b.feature_bias@,
        a.output_bias@[head] == b.output_bias@[head],
        forall|i: int|
            1024 * head <= i < 1024 * head + 1024 ==> #[trigger] a.output_weights@[i]
                == b.output_weights@[i],
    ensures
        evaluation(a, board) == evaluation(b, board),
{
    lemma_men_counted(board);
    assert(output_bucket_of(board) == head);
    let us = board.side_to_move;
    let them = us.other();
    lemma_same_values(a, b, board, us, king_bucket_of(board, us), xor_of(board, us));
    lemma_same_values(a, b, board, them, king_bucket_of(board, them), xor_of(board, them));
    assert(bucket_weights(a.output_weights@, head) =~= bucket_weights(b.output_weights@, head));
}

/// A number of the network's file is two bytes, the lower one first, with its sign.
pub proof fn numbers_have_their_lower_byte_first(bytes: Seq<u8>, n: i16, i: int, offset: int, len: nat)
    requires
        0 <= i < len,
        0 <= offset,
        offset + 2 * len <= bytes.len(),
        bytes[offset + 2 * i] == (n as int) % 256,
        bytes[offset + 2 * i + 1] == (n as int) / 256 % 256,
    ensures
        crate::nnue::numbers(bytes, offset, len)[i] == n,
        crate::nnue::numbers(bytes, offset, len).len() == len,
{
}

/// The parts of the network's file follow each other without a gap: the weights of
/// 768 features for each place of the king, their biases, the weights of each
/// output for both sides, and its biases, filled up to 64 bytes.
pub proof fn the_network_file_has_no_gaps()
    ensures
        crate::nnue::FEATURE_BIAS_OFFSET == 2 * (10 * 768 * 512),
        crate::nnue::OUTPUT_WEIGHTS_OFFSET == crate::nnue::FEATURE_BIAS_OFFSET + 2 * 512,
        crate::nnue::OUTPUT_BIAS_OFFSET == crate::nnue::OUTPUT_WEIGHTS_OFFSET + 2 * (8 * 2 * 512),
        crate::nnue::NETWORK_FILE_SIZE == crate::nnue::OUTPUT_BIAS_OFFSET + 64,
{
}

proof fn lemma_one_weight(us: Seq<i16>, them: Seq<i16>, weights: Seq<i16>, place: int, n: nat)
    requires
        forall|i: int| 0 <= i < n && i != place ==> #[trigger] weights[i] == 0,
        0 <= place,
    ensures
        weighted_sum(us, them, weights, n) == if place < n {
            crate::nnue::activation(hidden_value(us, them, place)) * weights[place]
        } else {
            0
        },
    decreases n,
{
    if n > 0 {
        lemma_one_weight(us, them, weights, place, (n - 1) as nat);
        if n - 1 != place {
            assert(weights[n - 1] == 0);
        }
    }
}

/// What one hidden value counts: nothing below zero, its square up to that of
/// 255, times its weight. The first half of an output's weights is for the side
/// to move, and the second for the other side; no other output's weights count.
pub proof fn a_hidden_value_counts_by_its_square(
    network: Network,
    us: Seq<i16>,
    them: Seq<i16>,
    head: int,
    place: int,
    value: int,
)
    requires
        network.wf(),
        us.len() == 512,
        them.len() == 512,
        0 <= head < 8,
        0 <= place < 1024,
        network.output_bias@[head] == 0,
        forall|i: int|
            0 <= i < 1024 && i != place ==> #[trigger] network.output_weights@[head * 1024 + i]
                == 0,
        network.output_weights@[head * 1024 + place] >= 0,
        value == if place < 512 {
            us[place] as int
        } else {
            them[place - 512] as int
        },
    ensures
        ({
            let weight = network.output_weights@[head * 1024 + place] as int;
            let square = if value <= 0 {
                0
            } else if value >= 255 {
                65_025
            } else {
                value * value
            };
            let sum = square * weight / 255;
            let worth = output_of(network, us, them, head);
            0 <= 16_320 * worth <= 400 * sum < 16_320 * worth + 16_320
        }),
{
    let weights = bucket_weights(network.output_weights@, head);
    assert forall|i: int| 0 <= i < 1024 && i != place implies #[trigger] weights[i] == 0 by {
        assert(weights[i] == network.output_weights@[head * 1024 + i]);
    }
    assert(weights[place] == network.output_weights@[head * 1024 + place]);
    lemma_one_weight(us, them, weights, place, 1024);
    let square = if value <= 0 {
        0
    } else if value >= 255 {
        65_025
    } else {
        value * value
    };
    let v = hidden_value(us, them, place) as int;
    assert(v == value);
    let c = crate::history::clamped(v, 0, 255);
    assert(c * c == square) by (nonlinear_arith)
        requires
            value <= 0 ==> c == 0 && square == 0,
            value >= 255 ==> c == 255 && square == 65_025,
            0 < value < 255 ==> c == value && square == value * value,
    ;
    assert(square >= 0) by (nonlinear_arith)
        requires
            square == 0 || square == 65_025 || square == value * value,
    ;
    let weight = weights[place] as int;
    assert(square * weight >= 0) by (nonlinear_arith)
        requires
            square >= 0,
            weight >= 0,
    ;
}

/// A man counts with the weights of its own feature: one for each kind, square
/// and color as the side sees them, in the table of its king's place. A position
/// with one man more has a hidden value that is larger by that weight.
pub proof fn each_man_counts_with_its_own_weight(
    network: Network,
    board: Position,
    more: Position,
    perspective: Color,
    bucket: int,
    square_xor: u8,
    s: int,
    piece: Piece,
    color: Color,
    hidden: int,
)
    requires
        0 <= s < 64,
        board.man_at(s) is None,
        more.man_at(s) == Some((piece, color)),
        forall|x: int| 0 <= x < 64 && x != s ==> #[trigger] more.man_at(x) == board.man_at(x),
    ensures
        hidden_sum(network, more, perspective, bucket, square_xor, hidden) == hidden_sum(
            network,
            board,
            perspective,
            bucket,
            square_xor,
            hidden,
        ) + network.feature_weights@[(768 * bucket + (if perspective == color {
            0int
        } else {
            384int
        }) + 64 * (match piece {
            Piece::Pawn => 0int,
            Piece::Knight => 1int,
            Piece::Bishop => 2int,
            Piece::Rook => 3int,
            Piece::Queen => 4int,
            Piece::King => 5int,
        }) + (s as u8 ^ square_xor)) * 512 + hidden],
{
    let f = contributions(network, board, perspective, bucket, square_xor, hidden);
    let g = contributions(network, more, perspective, bucket, square_xor, hidden);
    let h = replaced(f, s, g(s));
    lemma_total_replaced(f, s, g(s), 64);
    assert forall|x: int| 0 <= x < 64 implies #[trigger] g(x) == h(x) by {
        if x != s {
            assert(more.man_at(x) == board.man_at(x));
        }
    }
    lemma_total_same(g, h, 64);
    assert(f(s) == 0);
}

/// A sum is kept to sixteen bits.
pub proof fn hidden_sums_are_kept_to_sixteen_bits(x: int)
    ensures
        -32_768 <= wrapped(x) <= 32_767,
        (wrapped(x) - x) % 65_536 == 0,
        -32_768 <= x <= 32_767 ==> wrapped(x) == x,
{
}

/// Each side sees its king on the left half, and the board from its own end: for
/// Black the ranks are exchanged, for White they are not, and the files are
/// exchanged where the king stands on the right.
pub proof fn each_side_sees_its_king_on_the_left(board: Position, s: u8)
    requires
        board.wf(),
        s < 64,
    ensures
        file_of((board.king_of(Color::White) as u8 ^ xor_of(board, Color::White)) as int) < 4,
        file_of((board.king_of(Color::Black) as u8 ^ xor_of(board, Color::Black)) as int) < 4,
        rank_of((s ^ xor_of(board, Color::White)) as int) == rank_of(s as int),
        rank_of((s ^ xor_of(board, Color::Black)) as int) == 7 - rank_of(s as int),
        file_of((s ^ xor_of(board, Color::White)) as int) == if file_of(
            board.king_of(Color::White),
        ) >= 4 {
            7 - file_of(s as int)
        } else {
            file_of(s as int)
        },
        file_of((s ^ xor_of(board, Color::Black)) as int) == if file_of(
            board.king_of(Color::Black),
        ) >= 4 {
            7 - file_of(s as int)
        } else {
            file_of(s as int)
        },
{
    board.lemma_king(Color::White);
    board.lemma_king(Color::Black);
    let white = board.king_of(Color::White) as u8;
    let black = board.king_of(Color::Black) as u8;
    lemma_views(s);
    lemma_views(white);
    lemma_views(black);
}

proof fn lemma_views(s: u8)
    requires
        s < 64,
    ensures
        s ^ 0 == s,
        s ^ 7 == 8 * (s / 8) + 7 - s % 8,
        s ^ 56 == 8 * (7 - s / 8) + s % 8,
        s ^ 63 == 8 * (7 - s / 8) + 7 - s % 8,
{
    assert(s ^ 0 == s && s ^ 7 == 8 * (s / 8) + 7 - s % 8 && s ^ 56 == 8 * (7 - s / 8) + s % 8 && s
        ^ 63 == 8 * (7 - s / 8) + 7 - s % 8) by (bit_vector)
        requires
            s < 64,
    ;
}

/// The tables for the king's place: one for each distance from the edge on the
/// first rank, two on the second, one each on the third and fourth, one for the
/// next two ranks and one for the last two, in that order; left and right are
/// alike, and each side counts the ranks from its own end.
pub proof fn each_place_of_the_king_has_its_table(board: Position, color: Color)
    requires
        board.wf(),
    ensures
        ({
            let king = board.king_of(color);
            let rank = match color {
                Color::White => king / 8,
                Color::Black => 7 - king / 8,
            };
            let edge = if king % 8 <= 3 {
                king % 8
            } else {
                7 - king % 8
            };
            let table = king_bucket_of(board, color);
            &&& rank == 0 ==> table == edge
            &&& rank == 1 ==> (table == 4 <==> edge <= 1) && (table == 5 <==> edge >= 2)
            &&& rank == 2 <==> table == 6
            &&& rank == 3 <==> table == 7
            &&& (rank == 4 || rank == 5) <==> table == 8
            &&& (rank == 6 || rank == 7) <==> table == 9
            &&& 0 <= table <= 9
        }),
{
    board.lemma_king(color);
}

/// What a man counts by its material.
pub open spec fn points(piece: Piece) -> int {
    match piece {
        Piece::Pawn => 100,
        Piece::Knight => 300,
        Piece::Bishop => 300,
        Piece::Rook => 500,
        Piece::Queen => 900,
        Piece::King => 20_000,
    }
}

/// What each square counts for a side by the material on it: its own for, the
/// other side's against it.
pub open spec fn points_for(board: Position, side: Color) -> spec_fn(int) -> int {
    |s: int|
        match board.man_at(s) {
            Some((piece, color)) => if color == side {
                points(piece)
            } else {
                -points(piece)
            },
            None => 0,
        }
}

/// What each square counts by the material of one side.
spec fn own_points(board: Position, side: Color) -> spec_fn(int) -> int {
    |s: int|
        match board.man_at(s) {
            Some((piece, color)) => if color == side {
                points(piece)
            } else {
                0
            },
            None => 0,
        }
}

proof fn lemma_own_points(board: Position, side: Color, n: nat)
    requires
        board.wf(),
        n <= 64,
    ensures
        total(own_points(board, side), n) == 100 * total(
            membership(board.spec_colored(side, Piece::Pawn)),
            n,
        ) + 300 * total(membership(board.spec_colored(side, Piece::Knight)), n) + 300 * total(
            membership(board.spec_colored(side, Piece::Bishop)),
            n,
        ) + 500 * total(membership(board.spec_colored(side, Piece::Rook)), n) + 900 * total(
            membership(board.spec_colored(side, Piece::Queen)),
            n,
        ) + 20_000 * total(membership(board.spec_colored(side, Piece::King)), n),
    decreases n,
{
    if n > 0 {
        let s = n - 1;
        lemma_own_points(board, side, (n - 1) as nat);
        let c = board.colors[side.number()];
        assert(board.piece_at(s) is Some <==> board.color_at(s) is Some);
        assert forall|k: int| 0 <= k < 6 implies holds(c & #[trigger] board.pieces[k], s) == (holds(
            c,
            s,
        ) && board.piece_at(s) == Some(Piece::numbered(k))) by {
            crate::bits::lemma_operators(c, board.pieces[k], s);
            assert(holds(board.pieces[k], s) == (board.piece_at(s) == Some(Piece::numbered(k))));
        }
        assert(holds(c & board.pieces[0], s) == (holds(c, s) && board.piece_at(s) == Some(
            Piece::numbered(0),
        )));
        assert(holds(c & board.pieces[1], s) == (holds(c, s) && board.piece_at(s) == Some(
            Piece::numbered(1),
        )));
        assert(holds(c & board.pieces[2], s) == (holds(c, s) && board.piece_at(s) == Some(
            Piece::numbered(2),
        )));
        assert(holds(c & board.pieces[3], s) == (holds(c, s) && board.piece_at(s) == Some(
            Piece::numbered(3),
        )));
        assert(holds(c & board.pieces[4], s) == (holds(c, s) && board.piece_at(s) == Some(
            Piece::numbered(4),
        )));
        assert(holds(c & board.pieces[5], s) == (holds(c, s) && board.piece_at(s) == Some(
            Piece::numbered(5),
        )));
    }
}

proof fn lemma_points_split(board: Position, side: Color, n: nat)
    requires
        board.wf(),
    ensures
        total(points_for(board, side), n) == total(own_points(board, side), n) - total(
            own_points(board, side.other()),
            n,
        ),
    decreases n,
{
    if n > 0 {
        lemma_points_split(board, side, (n - 1) as nat);
    }
}

proof fn lemma_material(board: Position, side: Color)
    requires
        board.wf(),
    ensures
        material_of(board, side) == board_total(own_points(board, side)),
{
    lemma_own_points(board, side, 64);
    lemma_count_is_total(board.spec_colored(side, Piece::Pawn), 64);
    lemma_count_is_total(board.spec_colored(side, Piece::Knight), 64);
    lemma_count_is_total(board.spec_colored(side, Piece::Bishop), 64);
    lemma_count_is_total(board.spec_colored(side, Piece::Rook), 64);
    lemma_count_is_total(board.spec_colored(side, Piece::Queen), 64);
    lemma_count_is_total(board.spec_colored(side, Piece::King), 64);
}

/// By its material a position that goes on is worth what the men of the side to
/// move count, less what those of the other side do. One without a legal move is
/// lost for the side to move if that side is in check, and worth nothing else;
/// so is one after a hundred plies without a capture or a pawn move.
pub proof fn material_is_counted_man_by_man(board: Position)
    requires
        board.wf(),
    ensures
        legal_moves_of(board).len() > 0 && board.halfmove_clock < 100 ==> material_score(board)
            == board_total(points_for(board, board.side_to_move)),
        legal_moves_of(board).len() == 0 && board.checkers != 0 ==> material_score(board)
            == -100_000,
        legal_moves_of(board).len() == 0 && board.checkers == 0 ==> material_score(board) == 0,
        legal_moves_of(board).len() > 0 && board.halfmove_clock >= 100 ==> material_score(board)
            == 0,
{
    lemma_points_split(board, board.side_to_move, 64);
    lemma_material(board, board.side_to_move);
    lemma_material(board, board.side_to_move.other());
}

} // verus!
