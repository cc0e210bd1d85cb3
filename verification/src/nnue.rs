//! The neural network that evaluates positions, and the part of its work that
//! is kept up to date from move to move.

use crate::bits::{count, count_of, holds};
use crate::chess::{file, file_of, rank, rank_of, Color, Piece, Position};
use crate::history::{clamped, toward_zero};
use crate::moves::{move_facts, EngineMove};
use crate::rules::{
    castled_king, castled_rook, castles, in_passing, man_after, passed_square, plausible,
};
use crate::totals::{
    board_total, lemma_count_is_total, lemma_total_nonnegative, lemma_total_replaced,
    lemma_total_same, membership, replaced, total,
};
use vstd::prelude::*;

verus! {

pub const INPUT_SIZE: usize = 768;

pub const QA: i32 = 255;

pub const QB: i32 = 64;

pub const EVAL_SCALE: i32 = 400;

pub const INPUT_BUCKETS: usize = 10;

pub const OUTPUT_BUCKETS: usize = 8;

pub const HIDDEN_SIZE: usize = 512;

pub const OUTPUT_INPUT_SIZE: usize = 1024;

pub const FEATURE_BIAS_OFFSET: usize = 7_864_320;

pub const OUTPUT_WEIGHTS_OFFSET: usize = 7_865_344;

pub const OUTPUT_BIAS_OFFSET: usize = 7_881_728;

pub const NETWORK_FILE_SIZE: usize = 7_881_792;

/// How large the weights of one output, taken by sign, may be together, so
/// that no sum of the evaluation leaves the 32 bits it is formed in.
pub const MAX_WEIGHT_SUM: i64 = 33_025;

/// No evaluation is further from zero.
pub const MAX_EVAL: i32 = 207_212;

/// The number that two bytes hold, the low one first.
pub open spec fn little_endian(low: u8, high: u8) -> int {
    let n = low + 256 * high;
    if n >= 32768 {
        n - 65536
    } else {
        n
    }
}

/// The numbers that a file holds from an offset on.
pub open spec fn numbers(bytes: Seq<u8>, offset: int, len: nat) -> Seq<i16> {
    Seq::new(
        len,
        |i: int| little_endian(bytes[offset + 2 * i], bytes[offset + 2 * i + 1]) as i16,
    )
}

/// The positive numbers of the first `n`, summed.
pub open spec fn positive_sum(weights: Seq<i16>, n: nat) -> int
    decreases n,
{
    if n == 0 {
        0
    } else {
        positive_sum(weights, (n - 1) as nat) + if weights[n - 1] > 0 {
            weights[n - 1] as int
        } else {
            0
        }
    }
}

/// The negative numbers of the first `n`, summed, without their sign.
pub open spec fn negative_sum(weights: Seq<i16>, n: nat) -> int
    decreases n,
{
    if n == 0 {
        0
    } else {
        negative_sum(weights, (n - 1) as nat) + if weights[n - 1] > 0 {
            0
        } else {
            -(weights[n - 1] as int)
        }
    }
}

/// The output weights of one bucket.
pub open spec fn bucket_weights(weights: Seq<i16>, bucket: int) -> Seq<i16> {
    weights.subrange(bucket * 1024, bucket * 1024 + 1024)
}

/// Whether an output's weights are small enough to sum up.
pub open spec fn summable(weights: Seq<i16>) -> bool {
    positive_sum(weights, 1024) <= MAX_WEIGHT_SUM && negative_sum(weights, 1024) <= MAX_WEIGHT_SUM
}

/// Whether every output's weights are small enough to sum up.
pub open spec fn all_summable(weights: Seq<i16>) -> bool {
    forall|b: int| 0 <= b < OUTPUT_BUCKETS ==> summable(#[trigger] bucket_weights(weights, b))
}

/// The weights of a network.
pub struct Network {
    pub feature_weights: Vec<i16>,
    pub feature_bias: Vec<i16>,
    pub output_weights: Vec<i16>,
    pub output_bias: Vec<i16>,
}

/// Why a file is no network.
#[derive(Clone, Copy, Debug, PartialEq, Eq, Structural)]
pub enum NetworkError {
    Size,
    Weights,
}

/// Reads a number of two bytes.
pub fn read_i16(bytes: &[u8], offset: usize) -> (r: i16)
    requires
        offset + 1 < bytes@.len(),
    ensures
        r == little_endian(bytes@[offset as int], bytes@[offset + 1]),
{
    let n: i32 = bytes[offset] as i32 + 256 * bytes[offset + 1] as i32;
    if n >= 32768 {
        (n - 65536) as i16
    } else {
        n as i16
    }
}

fn read_numbers(bytes: &[u8], offset: usize, len: usize) -> (r: Vec<i16>)
    requires
        offset + 2 * len <= bytes@.len(),
    ensures
        r@ == numbers(bytes@, offset as int, len as nat),
{
    let size: usize = bytes.len();
    let mut out: Vec<i16> = Vec::new();
    while out.len() < len
        invariant
            out@.len() <= len,
            offset + 2 * len <= size,
            size == bytes@.len(),
            forall|i: int|
                0 <= i < out@.len() ==> #[trigger] out@[i] == little_endian(
                    bytes@[offset + 2 * i],
                    bytes@[offset + 2 * i + 1],
                ),
        decreases len - out@.len(),
    {
        let at: usize = offset + 2 * out.len();
        out.push(read_i16(bytes, at));
    }
    assert(out@ =~= numbers(bytes@, offset as int, len as nat));
    out
}

/// Whether the weights of one bucket are small enough to sum up.
fn bucket_is_summable(weights: &Vec<i16>, bucket: usize) -> (r: bool)
    requires
        weights@.len() == 8192,
        bucket < OUTPUT_BUCKETS,
    ensures
        r == summable(bucket_weights(weights@, bucket as int)),
{
    let ghost own = bucket_weights(weights@, bucket as int);
    let mut positive: i64 = 0;
    let mut negative: i64 = 0;
    let mut i: usize = 0;
    while i < OUTPUT_INPUT_SIZE
        invariant
            i <= 1024,
            bucket < 8,
            weights@.len() == 8192,
            own == bucket_weights(weights@, bucket as int),
            positive == positive_sum(own, i as nat),
            negative == negative_sum(own, i as nat),
            0 <= positive <= 32768 * i,
            0 <= negative <= 32768 * i,
        decreases 1024 - i,
    {
        let weight: i64 = weights[bucket * OUTPUT_INPUT_SIZE + i] as i64;
        assert(own[i as int] == weight);
        if weight > 0 {
            positive = positive + weight;
        } else {
            negative = negative - weight;
        }
        i = i + 1;
    }
    positive <= MAX_WEIGHT_SUM && negative <= MAX_WEIGHT_SUM
}

impl Network {
    pub open spec fn wf(self) -> bool {
        &&& self.feature_weights@.len() == 3_932_160
        &&& self.feature_bias@.len() == HIDDEN_SIZE
        &&& self.output_weights@.len() == 8192
        &&& self.output_bias@.len() == OUTPUT_BUCKETS
        &&& all_summable(self.output_weights@)
    }

    /// Reads a network from the bytes of its file: the weights of the
    /// features, their bias, the weights of the outputs and their biases, and
    /// padding up to the alignment.
    pub fn from_bytes(bytes: &[u8]) -> (r: Result<Network, NetworkError>)
        ensures
            r == Err::<Network, NetworkError>(NetworkError::Size) <==> bytes@.len()
                != NETWORK_FILE_SIZE,
            r == Err::<Network, NetworkError>(NetworkError::Weights) <==> bytes@.len()
                == NETWORK_FILE_SIZE && !all_summable(
                numbers(bytes@, OUTPUT_WEIGHTS_OFFSET as int, 8192),
            ),
            r matches Ok(network) ==> {
                &&& network.wf()
                &&& network.feature_weights@ == numbers(bytes@, 0, 3_932_160)
                &&& network.feature_bias@ == numbers(bytes@, FEATURE_BIAS_OFFSET as int, 512)
                &&& network.output_weights@ == numbers(bytes@, OUTPUT_WEIGHTS_OFFSET as int, 8192)
                &&& network.output_bias@ == numbers(bytes@, OUTPUT_BIAS_OFFSET as int, 8)
            },
    {
        if bytes.len() != NETWORK_FILE_SIZE {
            return Err(NetworkError::Size);
        }
        let output_weights: Vec<i16> = read_numbers(bytes, OUTPUT_WEIGHTS_OFFSET, 8192);
        let mut bucket: usize = 0;
        while bucket < OUTPUT_BUCKETS
            invariant
                bucket <= 8,
                bytes@.len() == NETWORK_FILE_SIZE,
                output_weights@ == numbers(bytes@, OUTPUT_WEIGHTS_OFFSET as int, 8192),
                forall|b: int|
                    0 <= b < bucket ==> summable(#[trigger] bucket_weights(output_weights@, b)),
            decreases 8 - bucket,
        {
            if !bucket_is_summable(&output_weights, bucket) {
                return Err(NetworkError::Weights);
            }
            bucket = bucket + 1;
        }
        Ok(
            Network {
                feature_weights: read_numbers(bytes, 0, 3_932_160),
                feature_bias: read_numbers(bytes, FEATURE_BIAS_OFFSET, 512),
                output_weights,
                output_bias: read_numbers(bytes, OUTPUT_BIAS_OFFSET, 8),
            },
        )
    }
}

/// An activation: what a hidden value counts for.
pub open spec fn activation(value: i16) -> int {
    clamped(value as int, 0, 255) * clamped(value as int, 0, 255)
}

/// The hidden values that an output sees: first those of the side to move.
pub open spec fn hidden_value(us: Seq<i16>, them: Seq<i16>, i: int) -> i16 {
    if i < 512 {
        us[i]
    } else {
        them[i - 512]
    }
}

/// What the first `n` hidden values add up to at an output.
pub open spec fn weighted_sum(us: Seq<i16>, them: Seq<i16>, weights: Seq<i16>, n: nat) -> int
    decreases n,
{
    if n == 0 {
        0
    } else {
        weighted_sum(us, them, weights, (n - 1) as nat) + activation(
            hidden_value(us, them, n - 1),
        ) * weights[n - 1]
    }
}

/// The evaluation of the side whose hidden values are `us`.
pub open spec fn output_of(network: Network, us: Seq<i16>, them: Seq<i16>, bucket: int) -> int {
    let sum = weighted_sum(us, them, bucket_weights(network.output_weights@, bucket), 1024);
    toward_zero(
        (toward_zero(sum, QA as int) + network.output_bias@[bucket]) * EVAL_SCALE,
        QA as int * QB as int,
    )
}

proof fn lemma_sums_grow(weights: Seq<i16>, n: nat, m: nat)
    requires
        n <= m,
    ensures
        0 <= positive_sum(weights, n) <= positive_sum(weights, m),
        0 <= negative_sum(weights, n) <= negative_sum(weights, m),
    decreases m,
{
    if m > 0 {
        if n < m {
            lemma_sums_grow(weights, n, (m - 1) as nat);
        } else {
            lemma_sums_grow(weights, (n - 1) as nat, (m - 1) as nat);
        }
    }
}

proof fn lemma_activation(value: i16)
    ensures
        0 <= activation(value) <= 65025,
{
    let c = clamped(value as int, 0, 255);
    assert(0 <= c * c <= 255 * 255) by (nonlinear_arith)
        requires
            0 <= c <= 255,
    ;
}

proof fn lemma_weighted_sum(us: Seq<i16>, them: Seq<i16>, weights: Seq<i16>, n: nat)
    requires
        n <= 1024,
        summable(weights),
    ensures
        -65025 * negative_sum(weights, n) <= weighted_sum(us, them, weights, n) <= 65025
            * positive_sum(weights, n),
        -65025 * 33025 <= weighted_sum(us, them, weights, n) <= 65025 * 33025,
    decreases n,
{
    lemma_sums_grow(weights, n, 1024);
    if n > 0 {
        lemma_weighted_sum(us, them, weights, (n - 1) as nat);
        let a = activation(hidden_value(us, them, n - 1));
        let w = weights[n - 1] as int;
        lemma_activation(hidden_value(us, them, n - 1));
        if w > 0 {
            assert(0 <= a * w <= 65025 * w) by (nonlinear_arith)
                requires
                    0 <= a <= 65025,
                    w > 0,
            ;
        } else {
            assert(65025 * w <= a * w <= 0) by (nonlinear_arith)
                requires
                    0 <= a <= 65025,
                    w <= 0,
            ;
        }
    }
}

/// No evaluation of a network leaves its bound.
pub proof fn evaluation_is_bounded(network: Network, us: Seq<i16>, them: Seq<i16>, bucket: int)
    requires
        network.wf(),
        0 <= bucket < OUTPUT_BUCKETS,
    ensures
        -MAX_EVAL <= output_of(network, us, them, bucket) <= MAX_EVAL,
{
    lemma_weighted_sum(us, them, bucket_weights(network.output_weights@, bucket), 1024);
}

/// Division that rounds towards zero.
pub fn divide(a: i64, b: i64) -> (r: i64)
    requires
        b > 0,
        a > i64::MIN,
    ensures
        r == toward_zero(a as int, b as int),
{
    if a >= 0 {
        a / b
    } else {
        -((-a) / b)
    }
}

impl Network {
    /// The evaluation of the side whose hidden values are `us`.
    pub fn evaluate(&self, us: &Accumulator, them: &Accumulator, bucket: usize) -> (r: i32)
        requires
            self.wf(),
            bucket < OUTPUT_BUCKETS,
        ensures
            r == output_of(*self, us.values@, them.values@, bucket as int),
            -MAX_EVAL <= r <= MAX_EVAL,
    {
        let ghost weights = bucket_weights(self.output_weights@, bucket as int);
        let mut sum: i64 = 0;
        let mut i: usize = 0;
        proof {
            lemma_weighted_sum(us.values@, them.values@, weights, 1024);
            evaluation_is_bounded(*self, us.values@, them.values@, bucket as int);
        }
        while i < OUTPUT_INPUT_SIZE
            invariant
                i <= 1024,
                self.wf(),
                bucket < 8,
                weights == bucket_weights(self.output_weights@, bucket as int),
                sum == weighted_sum(us.values@, them.values@, weights, i as nat),
                -65025 * 33025 <= sum <= 65025 * 33025,
            decreases 1024 - i,
        {
            let value: i16 = if i < HIDDEN_SIZE {
                us.values[i]
            } else {
                them.values[i - HIDDEN_SIZE]
            };
            let clipped: i64 = if value < 0 {
                0
            } else if value > 255 {
                255
            } else {
                value as i64
            };
            let weight: i64 = self.output_weights[bucket * OUTPUT_INPUT_SIZE + i] as i64;
            proof {
                assert(weights[i as int] == weight);
                lemma_activation(value);
                lemma_weighted_sum(us.values@, them.values@, weights, (i + 1) as nat);
                assert(0 <= clipped * clipped <= 65025) by (nonlinear_arith)
                    requires
                        0 <= clipped <= 255,
                ;
                assert(-65025 * 32768 <= clipped * clipped * weight <= 65025 * 32768)
                    by (nonlinear_arith)
                    requires
                        0 <= clipped * clipped <= 65025,
                        -32768 <= weight <= 32768,
                ;
            }
            sum = sum + clipped * clipped * weight;
            i = i + 1;
        }
        let output: i64 = divide(sum, 255) + self.output_bias[bucket] as i64;
        divide(output * 400, 16320) as i32
    }
}

/// The hidden values of one side's view of the board.
#[derive(Clone, Copy, Debug, PartialEq, Eq)]
pub struct Accumulator {
    pub values: [i16; 512],
}

/// The hidden values of both sides' views, and what their features depend on
/// besides the pieces: how each side turns the board, which weights it uses
/// for where its king stands, and which output is used.
#[derive(Clone, Copy, Debug, PartialEq, Eq)]
pub struct NnueState {
    pub accumulators: [Accumulator; 2],
    pub square_xors: [u8; 2],
    pub input_buckets: [u8; 2],
    pub output_bucket: u8,
}

/// The feature of a piece on a square in one side's view.
pub open spec fn feature_of(
    perspective: Color,
    color: Color,
    piece: Piece,
    square: u8,
    square_xor: u8,
) -> int {
    (if perspective == color {
        0int
    } else {
        384int
    }) + piece.number() * 64 + (square ^ square_xor)
}

proof fn lemma_turned_square(square: u8, square_xor: u8)
    requires
        square < 64,
        square_xor < 64,
    ensures
        (square ^ square_xor) < 64,
{
    assert((square ^ square_xor) < 64) by (bit_vector)
        requires
            square < 64,
            square_xor < 64,
    ;
}

/// The feature of a piece on a square in one side's view.
pub fn feature_index(
    perspective: Color,
    color: Color,
    piece: Piece,
    square: u8,
    square_xor: u8,
) -> (r: usize)
    requires
        square < 64,
        square_xor < 64,
    ensures
        r == feature_of(perspective, color, piece, square, square_xor),
        r < INPUT_SIZE,
{
    let color_offset: usize = if perspective == color {
        0
    } else {
        384
    };
    proof {
        lemma_turned_square(square, square_xor);
    }
    color_offset + piece.index() * 64 + (square ^ square_xor) as usize
}

/// Each side sees the board from its own end, with its king on the left.
pub open spec fn xor_of(board: Position, perspective: Color) -> u8 {
    let right = file_of(board.king_of(perspective)) >= 4;
    match perspective {
        Color::White => if right {
            7
        } else {
            0
        },
        Color::Black => if right {
            63
        } else {
            56
        },
    }
}

/// Each side sees the board from its own end, with its king on the left.
pub fn perspective_xor(board: &Position, perspective: Color) -> (r: u8)
    requires
        board.wf(),
    ensures
        r == xor_of(*board, perspective),
        r < 64,
{
    let king: u8 = board.king(perspective);
    let right: bool = file(king) >= 4;
    match perspective {
        Color::White => if right {
            7
        } else {
            0
        },
        Color::Black => if right {
            63
        } else {
            56
        },
    }
}

/// The weights that are used for a king by its rank, counted from its own
/// end, and its distance from the nearer edge.
pub open spec fn bucket_at(rank: int, edge: int) -> int {
    if rank == 0 {
        edge
    } else if rank == 1 {
        if edge < 2 {
            4
        } else {
            5
        }
    } else if rank == 2 {
        6
    } else if rank == 3 {
        7
    } else if rank < 6 {
        8
    } else {
        9
    }
}

/// The weights that are used for where a side's king stands.
pub open spec fn king_bucket_of(board: Position, perspective: Color) -> int {
    let king = board.king_of(perspective);
    bucket_at(
        match perspective {
            Color::White => rank_of(king),
            Color::Black => 7 - rank_of(king),
        },
        if file_of(king) < 4 {
            file_of(king)
        } else {
            7 - file_of(king)
        },
    )
}

/// The weights that are used for where a side's king stands.
pub fn king_bucket(board: &Position, perspective: Color) -> (r: u8)
    requires
        board.wf(),
    ensures
        r == king_bucket_of(*board, perspective),
        r < INPUT_BUCKETS,
{
    let king: u8 = board.king(perspective);
    let height: u8 = match perspective {
        Color::White => rank(king),
        Color::Black => 7 - rank(king),
    };
    let edge: u8 = if file(king) < 4 {
        file(king)
    } else {
        7 - file(king)
    };
    if height == 0 {
        edge
    } else if height == 1 {
        if edge < 2 {
            4
        } else {
            5
        }
    } else if height == 2 {
        6
    } else if height == 3 {
        7
    } else if height < 6 {
        8
    } else {
        9
    }
}

/// The output that is used for how many pieces there are.
pub open spec fn output_bucket_of(board: Position) -> int {
    let bucket = (count_of(board.spec_occupied()) - 2) / 4;
    if bucket < 7 {
        bucket
    } else {
        7
    }
}

/// Both kings are on the board.
proof fn lemma_two_pieces(board: Position)
    requires
        board.wf(),
    ensures
        count_of(board.spec_occupied()) >= 2,
{
    let occupied = board.spec_occupied();
    let white = board.king_of(Color::White);
    let black = board.king_of(Color::Black);
    board.lemma_king(Color::White);
    board.lemma_king(Color::Black);
    board.lemma_occupied();
    let f = membership(occupied);
    assert(board.man_at(white) is Some && board.man_at(black) is Some);
    lemma_count_is_total(occupied, 64);
    lemma_total_replaced(f, white, 0, 64);
    let g = replaced(f, white, 0);
    lemma_total_replaced(g, black, 0, 64);
    lemma_total_nonnegative(replaced(g, black, 0), 64);
}

/// The output that is used for how many pieces there are.
pub fn output_bucket(board: &Position) -> (r: u8)
    requires
        board.wf(),
    ensures
        r == output_bucket_of(*board),
        r < OUTPUT_BUCKETS,
{
    let pieces: u32 = count(board.occupied());
    proof {
        lemma_two_pieces(*board);
    }
    let bucket: u32 = (pieces - 2) / 4;
    if bucket < 7 {
        bucket as u8
    } else {
        7
    }
}

/// A sum as the sixteen bits of a hidden value keep it.
pub open spec fn wrapped(x: int) -> int {
    (x + 32768) % 65536 - 32768
}

proof fn lemma_wrapped(x: int, y: int)
    ensures
        wrapped(wrapped(x) + y) == wrapped(x + y),
{
}

fn wrap(x: i32) -> (r: i16)
    requires
        -1_000_000 <= x <= 1_000_000,
    ensures
        r == wrapped(x as int),
{
    // Sixteen times 65536 makes every sum positive before the remainder.
    let low: i32 = (x + 32768 + 1_048_576) % 65536;
    (low - 32768) as i16
}

/// The weight with which a feature of a bucket counts for a hidden value.
pub open spec fn weight_of(network: Network, feature: int, hidden: int) -> int {
    network.feature_weights@[feature * 512 + hidden] as int
}

/// What stands on a square counts for a hidden value of one side's view.
pub open spec fn contribution(
    network: Network,
    man: Option<(Piece, Color)>,
    perspective: Color,
    bucket: int,
    square_xor: u8,
    s: int,
    hidden: int,
) -> int {
    match man {
        Some((piece, color)) => weight_of(
            network,
            768 * bucket + feature_of(perspective, color, piece, s as u8, square_xor),
            hidden,
        ),
        None => 0,
    }
}

/// What each square of a position counts for a hidden value.
pub open spec fn contributions(
    network: Network,
    board: Position,
    perspective: Color,
    bucket: int,
    square_xor: u8,
    hidden: int,
) -> spec_fn(int) -> int {
    |s: int|
        contribution(network, board.man_at(s), perspective, bucket, square_xor, s, hidden)
}

/// A hidden value before it is cut to sixteen bits: the bias, and what each
/// square counts.
pub open spec fn hidden_sum(
    network: Network,
    board: Position,
    perspective: Color,
    bucket: int,
    square_xor: u8,
    hidden: int,
) -> int {
    network.feature_bias@[hidden] + board_total(
        contributions(network, board, perspective, bucket, square_xor, hidden),
    )
}

/// The hidden values of a position in one side's view.
pub open spec fn hidden_values(
    network: Network,
    board: Position,
    perspective: Color,
    bucket: int,
    square_xor: u8,
) -> Seq<i16> {
    Seq::new(
        512,
        |h: int| wrapped(hidden_sum(network, board, perspective, bucket, square_xor, h)) as i16,
    )
}

/// The weight of a feature that may be missing.
pub open spec fn optional_weight(network: Network, feature: Option<usize>, hidden: int) -> int {
    match feature {
        Some(f) => weight_of(network, f as int, hidden),
        None => 0,
    }
}

impl Network {
    fn weight(&self, feature: usize, hidden: usize) -> (r: i32)
        requires
            self.wf(),
            feature < 7680,
            hidden < 512,
        ensures
            r == weight_of(*self, feature as int, hidden as int),
            -32768 <= r <= 32767,
    {
        self.feature_weights[feature * HIDDEN_SIZE + hidden] as i32
    }

    fn weight_if(&self, feature: Option<usize>, hidden: usize) -> (r: i32)
        requires
            self.wf(),
            feature matches Some(f) ==> f < 7680,
            hidden < 512,
        ensures
            r == optional_weight(*self, feature, hidden as int),
            -32768 <= r <= 32767,
    {
        match feature {
            Some(f) => self.weight(f, hidden),
            None => 0,
        }
    }
}

impl Accumulator {
    /// The hidden values with some features taken out and others put in.
    fn changed(
        &self,
        network: &Network,
        removed: usize,
        also_removed: Option<usize>,
        added: usize,
        also_added: Option<usize>,
    ) -> (r: Accumulator)
        requires
            network.wf(),
            removed < 7680,
            added < 7680,
            also_removed matches Some(f) ==> f < 7680,
            also_added matches Some(f) ==> f < 7680,
        ensures
            forall|h: int|
                0 <= h < 512 ==> #[trigger] r.values@[h] == wrapped(
                    self.values@[h] - weight_of(*network, removed as int, h) - optional_weight(
                        *network,
                        also_removed,
                        h,
                    ) + weight_of(*network, added as int, h) + optional_weight(
                        *network,
                        also_added,
                        h,
                    ),
                ),
    {
        let mut values: [i16; 512] = self.values;
        let mut h: usize = 0;
        while h < 512
            invariant
                h <= 512,
                network.wf(),
                removed < 7680,
                added < 7680,
                also_removed matches Some(f) ==> f < 7680,
                also_added matches Some(f) ==> f < 7680,
                forall|k: int| h <= k < 512 ==> #[trigger] values@[k] == self.values@[k],
                forall|k: int|
                    0 <= k < h ==> #[trigger] values@[k] == wrapped(
                        self.values@[k] - weight_of(*network, removed as int, k) - optional_weight(
                            *network,
                            also_removed,
                            k,
                        ) + weight_of(*network, added as int, k) + optional_weight(
                            *network,
                            also_added,
                            k,
                        ),
                    ),
            decreases 512 - h,
        {
            let sum: i32 = values[h] as i32 - network.weight(removed, h) - network.weight_if(
                also_removed,
                h,
            ) + network.weight(added, h) + network.weight_if(also_added, h);
            values[h] = wrap(sum);
            h = h + 1;
        }
        Accumulator { values }
    }

    /// The hidden values with one feature put in.
    fn with(&self, network: &Network, feature: usize) -> (r: Accumulator)
        requires
            network.wf(),
            feature < 7680,
        ensures
            forall|h: int|
                0 <= h < 512 ==> #[trigger] r.values@[h] == wrapped(
                    self.values@[h] + weight_of(*network, feature as int, h),
                ),
    {
        let mut values: [i16; 512] = self.values;
        let mut h: usize = 0;
        while h < 512
            invariant
                h <= 512,
                network.wf(),
                feature < 7680,
                forall|k: int| h <= k < 512 ==> #[trigger] values@[k] == self.values@[k],
                forall|k: int|
                    0 <= k < h ==> #[trigger] values@[k] == wrapped(
                        self.values@[k] + weight_of(*network, feature as int, k),
                    ),
            decreases 512 - h,
        {
            let sum: i32 = values[h] as i32 + network.weight(feature, h);
            values[h] = wrap(sum);
            h = h + 1;
        }
        Accumulator { values }
    }

    /// The hidden values of a board without pieces.
    fn bias(network: &Network) -> (r: Accumulator)
        requires
            network.wf(),
        ensures
            r.values@ =~= network.feature_bias@,
    {
        let mut values: [i16; 512] = [0i16;512];
        let mut h: usize = 0;
        while h < 512
            invariant
                h <= 512,
                network.wf(),
                forall|k: int| 0 <= k < h ==> #[trigger] values@[k] == network.feature_bias@[k],
            decreases 512 - h,
        {
            values[h] = network.feature_bias[h];
            h = h + 1;
        }
        Accumulator { values }
    }

    /// The hidden values of a position in one side's view.
    fn of(
        network: &Network,
        board: &Position,
        perspective: Color,
        bucket: u8,
        square_xor: u8,
    ) -> (r: Accumulator)
        requires
            network.wf(),
            bucket < INPUT_BUCKETS,
            square_xor < 64,
        ensures
            r.values@ == hidden_values(*network, *board, perspective, bucket as int, square_xor),
    {
        let mut accumulator: Accumulator = Accumulator::bias(network);
        let mut s: u8 = 0;
        while s < 64
            invariant
                s <= 64,
                network.wf(),
                bucket < 10,
                square_xor < 64,
                forall|h: int|
                    0 <= h < 512 ==> #[trigger] accumulator.values@[h] == wrapped(
                        network.feature_bias@[h] + total(
                            contributions(
                                *network,
                                *board,
                                perspective,
                                bucket as int,
                                square_xor,
                                h,
                            ),
                            s as nat,
                        ),
                    ),
            decreases 64 - s,
        {
            let ghost before = accumulator;
            if let Some((piece, color)) = board.man_on(s) {
                let feature: usize = INPUT_SIZE * bucket as usize + feature_index(
                    perspective,
                    color,
                    piece,
                    s,
                    square_xor,
                );
                accumulator = accumulator.with(network, feature);
            }
            proof {
                assert forall|h: int| 0 <= h < 512 implies #[trigger] accumulator.values@[h]
                    == wrapped(
                    network.feature_bias@[h] + total(
                        contributions(*network, *board, perspective, bucket as int, square_xor, h),
                        (s + 1) as nat,
                    ),
                ) by {
                    let f = contributions(
                        *network,
                        *board,
                        perspective,
                        bucket as int,
                        square_xor,
                        h,
                    );
                    assert(before.values@[h] == wrapped(
                        network.feature_bias@[h] + total(f, s as nat),
                    ));
                    lemma_wrapped(network.feature_bias@[h] + total(f, s as nat), f(s as int));
                }
            }
            s = s + 1;
        }
        assert(accumulator.values@ =~= hidden_values(
            *network,
            *board,
            perspective,
            bucket as int,
            square_xor,
        ));
        accumulator
    }
}

/// The feature of a piece on a square among the weights of a bucket.
pub open spec fn bucket_feature(
    state: NnueState,
    perspective: Color,
    color: Color,
    piece: Piece,
    s: int,
) -> int {
    let p = perspective.number();
    768 * state.input_buckets[p] + feature_of(
        perspective,
        color,
        piece,
        s as u8,
        state.square_xors[p],
    )
}

/// The square of the piece that a capture takes.
pub open spec fn victim_square(mv: EngineMove, color: Color) -> int {
    if mv.is_ep {
        file_of(mv.mv.to as int) + match color {
            Color::White => 32int,
            Color::Black => 24int,
        }
    } else {
        mv.mv.to as int
    }
}

/// Where a castling king goes.
pub open spec fn king_target(mv: EngineMove, color: Color) -> int {
    (match color {
        Color::White => 0int,
        Color::Black => 56int,
    }) + if file_of(mv.mv.from as int) < file_of(mv.mv.to as int) {
        6int
    } else {
        2int
    }
}

/// Where a castling rook goes.
pub open spec fn rook_target(mv: EngineMove, color: Color) -> int {
    (match color {
        Color::White => 0int,
        Color::Black => 56int,
    }) + if file_of(mv.mv.from as int) < file_of(mv.mv.to as int) {
        5int
    } else {
        3int
    }
}

/// The piece that a move puts on its square.
pub open spec fn arriving_piece(mv: EngineMove) -> Piece {
    match mv.mv.promotion {
        Some(piece) => piece,
        None => mv.piece_type,
    }
}

/// By how much a move changes a hidden value of one side's view, through the
/// pieces that it takes off their squares and puts on others.
pub open spec fn change_of(
    state: NnueState,
    network: Network,
    perspective: Color,
    color: Color,
    mv: EngineMove,
    h: int,
) -> int {
    let w = |c: Color, piece: Piece, s: int|
        weight_of(network, bucket_feature(state, perspective, c, piece, s), h);
    if mv.is_castle {
        w(color, Piece::King, king_target(mv, color)) + w(
            color,
            Piece::Rook,
            rook_target(mv, color),
        ) - w(color, Piece::King, mv.mv.from as int) - w(color, Piece::Rook, mv.mv.to as int)
    } else {
        w(color, arriving_piece(mv), mv.mv.to as int) - w(color, mv.piece_type, mv.mv.from as int)
            - (match mv.target_type {
            Some(victim) => w(color.other(), victim, victim_square(mv, color)),
            None => 0,
        })
    }
}

/// Whether a move brings a king where its side sees the board otherwise.
pub open spec fn turns_view(
    state: NnueState,
    board_after: Position,
    perspective: Color,
    color: Color,
    mv: EngineMove,
) -> bool {
    &&& mv.piece_type == Piece::King
    &&& perspective == color
    &&& state.square_xors[perspective.number()] != xor_of(board_after, perspective)
        || state.input_buckets[perspective.number()] != king_bucket_of(board_after, perspective)
}

/// Whether a state follows from another by a move of a side: a side whose
/// king moves to where it sees the board otherwise gets its view anew, and
/// every other view changes by the pieces that the move lifts and puts down.
pub open spec fn follows(
    before: NnueState,
    after: NnueState,
    network: Network,
    board_after: Position,
    color: Color,
    mv: EngineMove,
) -> bool {
    &&& after.output_bucket == if mv.target_type is Some {
        output_bucket_of(board_after)
    } else {
        before.output_bucket as int
    }
    &&& forall|p: Color|
        #![trigger p.number()]
        if turns_view(before, board_after, p, color, mv) {
            after.shows(network, board_after, p)
        } else {
            &&& after.square_xors[p.number()] == before.square_xors[p.number()]
            &&& after.input_buckets[p.number()] == before.input_buckets[p.number()]
            &&& forall|h: int|
                0 <= h < 512 ==> #[trigger] after.accumulators[p.number()].values@[h] == wrapped(
                    before.accumulators[p.number()].values@[h] + change_of(
                        before,
                        network,
                        p,
                        color,
                        mv,
                        h,
                    ),
                )
        }
}

impl NnueState {
    pub open spec fn wf(self) -> bool {
        &&& self.square_xors[0] < 64 && self.square_xors[1] < 64
        &&& self.input_buckets[0] < INPUT_BUCKETS && self.input_buckets[1] < INPUT_BUCKETS
        &&& self.output_bucket < OUTPUT_BUCKETS
    }

    /// One side's view is that of a position.
    pub open spec fn shows(self, network: Network, board: Position, perspective: Color) -> bool {
        let p = perspective.number();
        &&& self.square_xors[p] == xor_of(board, perspective)
        &&& self.input_buckets[p] == king_bucket_of(board, perspective)
        &&& self.accumulators[p].values@ == hidden_values(
            network,
            board,
            perspective,
            king_bucket_of(board, perspective),
            xor_of(board, perspective),
        )
    }

    /// The state is that of a position.
    pub open spec fn represents(self, network: Network, board: Position) -> bool {
        &&& self.shows(network, board, Color::White)
        &&& self.shows(network, board, Color::Black)
        &&& self.output_bucket == output_bucket_of(board)
    }

    /// The state is that of a board without pieces.
    pub open spec fn is_empty_of(self, network: Network) -> bool {
        &&& self.accumulators[0].values@ == network.feature_bias@
        &&& self.accumulators[1].values@ == network.feature_bias@
        &&& self.square_xors@ == seq![0u8, 56u8]
        &&& self.input_buckets@ == seq![0u8, 0u8]
        &&& self.output_bucket == 0
    }

    /// The state of a board without pieces.
    pub fn empty(network: &Network) -> (r: NnueState)
        requires
            network.wf(),
        ensures
            r.wf(),
            r.is_empty_of(*network),
    {
        let accumulator: Accumulator = Accumulator::bias(network);
        NnueState {
            accumulators: [accumulator, accumulator],
            square_xors: [0, 56],
            input_buckets: [0, 0],
            output_bucket: 0,
        }
    }

    /// The state of a position.
    pub fn from_board(network: &Network, board: &Position) -> (r: NnueState)
        requires
            network.wf(),
            board.wf(),
        ensures
            r.wf(),
            r.represents(*network, *board),
    {
        let white_xor: u8 = perspective_xor(board, Color::White);
        let black_xor: u8 = perspective_xor(board, Color::Black);
        let white_bucket: u8 = king_bucket(board, Color::White);
        let black_bucket: u8 = king_bucket(board, Color::Black);
        NnueState {
            accumulators: [
                Accumulator::of(network, board, Color::White, white_bucket, white_xor),
                Accumulator::of(network, board, Color::Black, black_bucket, black_xor),
            ],
            square_xors: [white_xor, black_xor],
            input_buckets: [white_bucket, black_bucket],
            output_bucket: output_bucket(board),
        }
    }

    /// The evaluation for a side.
    pub fn evaluate(&self, network: &Network, side_to_move: Color) -> (r: i32)
        requires
            network.wf(),
            self.wf(),
        ensures
            r == output_of(
                *network,
                self.accumulators[side_to_move.number()].values@,
                self.accumulators[side_to_move.other().number()].values@,
                self.output_bucket as int,
            ),
            -MAX_EVAL <= r <= MAX_EVAL,
    {
        network.evaluate(
            &self.accumulators[side_to_move.index()],
            &self.accumulators[side_to_move.opposite().index()],
            self.output_bucket as usize,
        )
    }

    fn feature(&self, perspective: Color, color: Color, piece: Piece, square: u8) -> (r: usize)
        requires
            self.wf(),
            square < 64,
        ensures
            r == bucket_feature(*self, perspective, color, piece, square as int),
            r < 7680,
    {
        let p: usize = perspective.index();
        INPUT_SIZE * self.input_buckets[p] as usize + feature_index(
            perspective,
            color,
            piece,
            square,
            self.square_xors[p],
        )
    }

    /// The hidden values of one side's view after a move that keeps its
    /// features where they are.
    fn moved(&self, network: &Network, perspective: Color, color: Color, mv: &EngineMove) -> (r:
        Accumulator)
        requires
            network.wf(),
            self.wf(),
            mv.mv.from < 64,
            mv.mv.to < 64,
        ensures
            forall|h: int|
                0 <= h < 512 ==> #[trigger] r.values@[h] == wrapped(
                    self.accumulators[perspective.number()].values@[h] + change_of(
                        *self,
                        *network,
                        perspective,
                        color,
                        *mv,
                        h,
                    ),
                ),
    {
        let accumulator: Accumulator = self.accumulators[perspective.index()];
        if mv.is_castle {
            let back: u8 = match color {
                Color::White => 0,
                Color::Black => 56,
            };
            let short: bool = file(mv.mv.from) < file(mv.mv.to);
            let king_square: u8 = back + if short {
                6
            } else {
                2
            };
            let rook_square: u8 = back + if short {
                5
            } else {
                3
            };
            accumulator.changed(
                network,
                self.feature(perspective, color, Piece::King, mv.mv.from),
                Some(self.feature(perspective, color, Piece::Rook, mv.mv.to)),
                self.feature(perspective, color, Piece::King, king_square),
                Some(self.feature(perspective, color, Piece::Rook, rook_square)),
            )
        } else {
            let added_piece: Piece = match mv.mv.promotion {
                Some(piece) => piece,
                None => mv.piece_type,
            };
            let square: u8 = if mv.is_ep {
                file(mv.mv.to) + match color {
                    Color::White => 32,
                    Color::Black => 24,
                }
            } else {
                mv.mv.to
            };
            let captured: Option<usize> = match mv.target_type {
                Some(victim) => Some(self.feature(perspective, color.opposite(), victim, square)),
                None => None,
            };
            accumulator.changed(
                network,
                self.feature(perspective, color, mv.piece_type, mv.mv.from),
                captured,
                self.feature(perspective, color, added_piece, mv.mv.to),
                None,
            )
        }
    }

    /// Follows a move of a side to the position that it leads to.
    pub fn play_move(
        &mut self,
        network: &Network,
        board_after: &Position,
        color: Color,
        mv: &EngineMove,
    )
        requires
            network.wf(),
            old(self).wf(),
            board_after.wf(),
            mv.mv.from < 64,
            mv.mv.to < 64,
        ensures
            final(self).wf(),
            follows(*old(self), *final(self), *network, *board_after, color, *mv),
    {
        let white: Accumulator = self.moved(network, Color::White, color, mv);
        let black: Accumulator = self.moved(network, Color::Black, color, mv);
        if mv.target_type.is_some() {
            self.output_bucket = output_bucket(board_after);
        }
        self.accumulators = [white, black];
        if mv.piece_type == Piece::King {
            let p: usize = color.index();
            let square_xor: u8 = perspective_xor(board_after, color);
            let bucket: u8 = king_bucket(board_after, color);
            if self.square_xors[p] != square_xor || self.input_buckets[p] != bucket {
                self.square_xors[p] = square_xor;
                self.input_buckets[p] = bucket;
                self.accumulators[p] = Accumulator::of(
                    network,
                    board_after,
                    color,
                    bucket,
                    square_xor,
                );
            }
        }
    }
}

/// What a network says of a position, seen by the side to move.
pub open spec fn evaluation(network: Network, board: Position) -> int {
    let view = |side: Color|
        hidden_values(
            network,
            board,
            side,
            king_bucket_of(board, side),
            xor_of(board, side),
        );
    output_of(
        network,
        view(board.side_to_move),
        view(board.side_to_move.other()),
        output_bucket_of(board),
    )
}

/// Whether the facts of a move are those that it has on a board, whatever
/// scores it was given.
pub open spec fn describes(board: Position, mv: EngineMove) -> bool {
    let facts = move_facts(board, mv.mv, mv.piece_type, mv.is_tt);
    &&& plausible(board, mv.mv)
    &&& board.piece_at(mv.mv.from as int) == Some(mv.piece_type)
    &&& mv.is_ep == facts.is_ep
    &&& mv.target_type == facts.target_type
    &&& mv.is_castle == facts.is_castle
}

/// Whether a position is what a move leads to.
pub open spec fn leads_to(board: Position, mv: EngineMove, board_after: Position) -> bool {
    forall|s: int| 0 <= s < 64 ==> #[trigger] board_after.man_at(s) == man_after(board, mv.mv, s)
}

/// What a move does to a sum over what stands on the squares.
proof fn lemma_move_total(
    board: Position,
    board_after: Position,
    mv: EngineMove,
    w: spec_fn(Option<(Piece, Color)>, int) -> int,
    f: spec_fn(int) -> int,
    g: spec_fn(int) -> int,
)
    requires
        board.wf(),
        describes(board, mv),
        leads_to(board, mv, board_after),
        forall|s: int| #[trigger] w(None, s) == 0,
        forall|s: int| 0 <= s < 64 ==> #[trigger] f(s) == w(board.man_at(s), s),
        forall|s: int| 0 <= s < 64 ==> #[trigger] g(s) == w(board_after.man_at(s), s),
    ensures
        ({
            let color = board.side_to_move;
            let v = |c: Color, piece: Piece, s: int| w(Some((piece, c)), s);
            board_total(g) == board_total(f) + if mv.is_castle {
                v(color, Piece::King, king_target(mv, color)) + v(
                    color,
                    Piece::Rook,
                    rook_target(mv, color),
                ) - v(color, Piece::King, mv.mv.from as int) - v(
                    color,
                    Piece::Rook,
                    mv.mv.to as int,
                )
            } else {
                v(color, arriving_piece(mv), mv.mv.to as int) - v(
                    color,
                    mv.piece_type,
                    mv.mv.from as int,
                ) - (match mv.target_type {
                    Some(victim) => v(color.other(), victim, victim_square(mv, color)),
                    None => 0,
                })
            }
        }),
{
    let color = board.side_to_move;
    let from = mv.mv.from as int;
    let to = mv.mv.to as int;
    assert(board.piece_at(from) is Some <==> board.color_at(from) is Some);
    assert(board.piece_at(to) is Some <==> board.color_at(to) is Some);
    assert(board.man_at(from) == Some((mv.piece_type, color)));
    let f1 = replaced(f, from, 0);
    lemma_total_replaced(f, from, 0, 64);
    if mv.is_castle {
        assert(castles(board, mv.mv));
        assert(board.man_at(to) == Some((Piece::Rook, color)));
        let kd = king_target(mv, color);
        let rd = rook_target(mv, color);
        assert(kd == castled_king(mv.mv));
        assert(rd == castled_rook(mv.mv));
        let f2 = replaced(f1, to, 0);
        lemma_total_replaced(f1, to, 0, 64);
        let f3 = replaced(f2, kd, w(Some((Piece::King, color)), kd));
        lemma_total_replaced(f2, kd, w(Some((Piece::King, color)), kd), 64);
        let f4 = replaced(f3, rd, w(Some((Piece::Rook, color)), rd));
        lemma_total_replaced(f3, rd, w(Some((Piece::Rook, color)), rd), 64);
        assert(f2(kd) == 0) by {
            if kd != from && kd != to {
                assert(f(kd) == w(board.man_at(kd), kd));
            }
        }
        assert(f3(rd) == 0) by {
            if rd != from && rd != to {
                assert(f(rd) == w(board.man_at(rd), rd));
            }
        }
        assert forall|s: int| 0 <= s < 64 implies #[trigger] g(s) == f4(s) by {
            assert(board_after.man_at(s) == man_after(board, mv.mv, s));
            assert(f(s) == w(board.man_at(s), s));
        }
        lemma_total_same(g, f4, 64);
    } else {
        assert(!castles(board, mv.mv));
        let passed = victim_square(mv, color);
        if mv.is_ep {
            assert(in_passing(board, mv.mv));
            assert(passed_square(mv.mv) == passed);
        }
        let f2 = if mv.is_ep {
            replaced(f1, passed, 0)
        } else {
            f1
        };
        if mv.is_ep {
            lemma_total_replaced(f1, passed, 0, 64);
            assert(f(passed) == w(board.man_at(passed), passed));
        }
        let arriving = w(Some((arriving_piece(mv), color)), to);
        let f3 = replaced(f2, to, arriving);
        lemma_total_replaced(f2, to, arriving, 64);
        assert(f(to) == w(board.man_at(to), to));
        assert forall|s: int| 0 <= s < 64 implies #[trigger] g(s) == f3(s) by {
            assert(board_after.man_at(s) == man_after(board, mv.mv, s));
            assert(f(s) == w(board.man_at(s), s));
        }
        lemma_total_same(g, f3, 64);
    }
}

/// A move keeps every king where it stands but the one that it moves.
proof fn lemma_other_kings(
    board: Position,
    board_after: Position,
    mv: EngineMove,
    perspective: Color,
)
    requires
        board.wf(),
        board_after.wf(),
        describes(board, mv),
        leads_to(board, mv, board_after),
        mv.piece_type != Piece::King || perspective != board.side_to_move,
    ensures
        board_after.king_of(perspective) == board.king_of(perspective),
{
    let k = board.king_of(perspective);
    let from = mv.mv.from as int;
    let to = mv.mv.to as int;
    board.lemma_king(perspective);
    board_after.lemma_king(perspective);
    assert(board.piece_at(from) is Some <==> board.color_at(from) is Some);
    assert(board.piece_at(to) is Some <==> board.color_at(to) is Some);
    assert(board.man_at(from) == Some((mv.piece_type, board.side_to_move)));
    assert(board_after.man_at(k) == man_after(board, mv.mv, k));
    assert(k != from);
    assert(k != to);
    assert(board_after.man_at(k) == board.man_at(k));
}

/// How many pieces there are changes only by a capture.
proof fn lemma_quiet_count(board: Position, board_after: Position, mv: EngineMove)
    requires
        board.wf(),
        board_after.wf(),
        describes(board, mv),
        leads_to(board, mv, board_after),
        mv.target_type is None,
    ensures
        output_bucket_of(board_after) == output_bucket_of(board),
{
    let w = |man: Option<(Piece, Color)>, s: int|
        if man is Some {
            1int
        } else {
            0int
        };
    let f = membership(board.spec_occupied());
    let g = membership(board_after.spec_occupied());
    board.lemma_occupied();
    board_after.lemma_occupied();
    assert forall|s: int| 0 <= s < 64 implies #[trigger] f(s) == w(board.man_at(s), s) by {
        assert(holds(board.spec_occupied(), s) == (board.man_at(s) is Some));
    }
    assert forall|s: int| 0 <= s < 64 implies #[trigger] g(s) == w(board_after.man_at(s), s) by {
        assert(holds(board_after.spec_occupied(), s) == (board_after.man_at(s) is Some));
    }
    lemma_move_total(board, board_after, mv, w, f, g);
    lemma_count_is_total(board.spec_occupied(), 64);
    lemma_count_is_total(board_after.spec_occupied(), 64);
}

/// The state of a position, brought forward by a move, is the state of the
/// position that the move leads to.
pub proof fn incremental_state_matches_recomputation(
    network: Network,
    board: Position,
    board_after: Position,
    before: NnueState,
    after: NnueState,
    mv: EngineMove,
)
    requires
        network.wf(),
        board.wf(),
        board_after.wf(),
        describes(board, mv),
        leads_to(board, mv, board_after),
        before.represents(network, board),
        follows(before, after, network, board_after, board.side_to_move, mv),
    ensures
        after.represents(network, board_after),
{
    let color = board.side_to_move;
    assert forall|p: Color| after.shows(network, board_after, p) by {
        let n = p.number();
        if !turns_view(before, board_after, p, color, mv) {
            assert(before.shows(network, board, p)) by {
                match p {
                    Color::White => {},
                    Color::Black => {},
                }
            }
            if mv.piece_type != Piece::King || p != color {
                lemma_other_kings(board, board_after, mv, p);
            }
            let bucket = king_bucket_of(board_after, p);
            let square_xor = xor_of(board_after, p);
            assert(bucket == king_bucket_of(board, p));
            assert(square_xor == xor_of(board, p));
            let fresh = hidden_values(network, board_after, p, bucket, square_xor);
            assert forall|h: int| 0 <= h < 512 implies after.accumulators[n].values@[h]
                == #[trigger] fresh[h] by {
                let w = |man: Option<(Piece, Color)>, s: int|
                    contribution(network, man, p, bucket, square_xor, s, h);
                let f = contributions(network, board, p, bucket, square_xor, h);
                let g = contributions(network, board_after, p, bucket, square_xor, h);
                lemma_move_total(board, board_after, mv, w, f, g);
                let old_sum = hidden_sum(network, board, p, bucket, square_xor, h);
                assert(before.accumulators[n].values@[h] == hidden_values(
                    network,
                    board,
                    p,
                    bucket,
                    square_xor,
                )[h]);
                assert(before.accumulators[n].values@[h] == wrapped(old_sum));
                let change = change_of(before, network, p, color, mv, h);
                assert(after.accumulators[n].values@[h] == wrapped(
                    before.accumulators[n].values@[h] + change,
                ));
                lemma_wrapped(old_sum, change);
                assert(hidden_sum(network, board_after, p, bucket, square_xor, h) == old_sum
                    + change);
            }
            assert(after.accumulators[n].values@ =~= fresh);
        }
    }
    if mv.target_type is None {
        lemma_quiet_count(board, board_after, mv);
    }
}

/// A state of a position evaluates it.
pub proof fn represented_position_is_evaluated(network: Network, board: Position, state: NnueState)
    requires
        state.represents(network, board),
    ensures
        output_of(
            network,
            state.accumulators[board.side_to_move.number()].values@,
            state.accumulators[board.side_to_move.other().number()].values@,
            state.output_bucket as int,
        ) == evaluation(network, board),
{
}

/// The state of a position says nothing of who moves: it is that of every
/// position with the same pieces.
pub proof fn state_ignores_the_side_to_move(
    network: Network,
    board: Position,
    other: Position,
    state: NnueState,
)
    requires
        state.represents(network, board),
        board.pieces == other.pieces,
        board.colors == other.colors,
    ensures
        state.represents(network, other),
{
    assert forall|p: Color| state.shows(network, other, p) by {
        assert(state.shows(network, board, p)) by {
            match p {
                Color::White => {},
                Color::Black => {},
            }
        }
        let bucket = king_bucket_of(board, p);
        let square_xor = xor_of(board, p);
        let a = hidden_values(network, board, p, bucket, square_xor);
        let b = hidden_values(network, other, p, bucket, square_xor);
        assert forall|h: int| 0 <= h < 512 implies a[h] == #[trigger] b[h] by {
            lemma_total_same(
                contributions(network, board, p, bucket, square_xor, h),
                contributions(network, other, p, bucket, square_xor, h),
                64,
            );
        }
        assert(a =~= b);
    }
}

} // verus!
