//! What earlier searches say of moves and evaluations. Each table has one
//! small number per case; a bonus pulls it towards the bonus's sign, the less
//! the nearer it is to its limit.

use crate::chess::Piece;
use vstd::prelude::*;

verus! {

pub const MAX_QUIET_HISTORY: i32 = 16_384;

pub const MAX_CORRECTION_HISTORY: i32 = 8192;

pub const CONTHIST_PLY: usize = 1;

pub const CORRHIST_SIZE: usize = 8192;

pub const PAWNHIST_SIZE: usize = 4096;

/// Division that rounds towards zero.
pub open spec fn toward_zero(a: int, b: int) -> int {
    if a >= 0 {
        a / b
    } else {
        -((-a) / b)
    }
}

pub open spec fn clamped(x: int, low: int, high: int) -> int {
    if x < low {
        low
    } else if x > high {
        high
    } else {
        x
    }
}

pub open spec fn magnitude(x: int) -> int {
    if x < 0 {
        -x
    } else {
        x
    }
}

/// A number after a bonus: the bonus is held within the limit, and the number
/// gives way by its own share of the bonus.
pub open spec fn updated(value: int, bonus: int, limit: int) -> int {
    let b = clamped(bonus, -limit, limit);
    value + b - toward_zero(value * magnitude(b), limit)
}

/// A number within its limit stays there.
pub proof fn bounded_history_stays_bounded(value: int, bonus: int, limit: int)
    requires
        0 < limit,
        -limit <= value <= limit,
    ensures
        -limit <= updated(value, bonus, limit) <= limit,
{
    let b = clamped(bonus, -limit, limit);
    let m = magnitude(b);
    let v = magnitude(value);
    let q = (v * m) / limit;
    assert(0 <= m <= limit && 0 <= v <= limit);
    assert(v * m >= 0) by (nonlinear_arith)
        requires
            v >= 0,
            m >= 0,
    ;
    assert(q * limit <= v * m < q * limit + limit) by (nonlinear_arith)
        requires
            q == (v * m) / limit,
            limit > 0,
    ;
    assert((limit - v) * (limit - m) >= 0) by (nonlinear_arith)
        requires
            v <= limit,
            m <= limit,
    ;
    assert((limit - v) * (limit - m) == limit * limit - v * limit - m * limit + v * m)
        by (nonlinear_arith);
    assert(v + m - q <= limit) by (nonlinear_arith)
        requires
            limit > 0,
            v * m < q * limit + limit,
            limit * limit - v * limit - m * limit + v * m >= 0,
    ;
    assert(q <= v) by (nonlinear_arith)
        requires
            q * limit <= v * m,
            m <= limit,
            v >= 0,
            limit > 0,
    ;
    assert(q <= m) by (nonlinear_arith)
        requires
            q * limit <= v * m,
            v <= limit,
            m >= 0,
            limit > 0,
    ;
    assert(q >= 0) by (nonlinear_arith)
        requires
            v * m < q * limit + limit,
            v * m >= 0,
            limit > 0,
    ;
    if value >= 0 {
        assert(value * m == v * m);
    } else {
        assert(value * m == -(v * m)) by (nonlinear_arith)
            requires
                value == -v,
        ;
        assert((-(value * m)) / limit == q);
        if v * m == 0 {
            assert(q == 0) by (nonlinear_arith)
                requires
                    q * limit <= 0,
                    q >= 0,
                    limit > 0,
            ;
            assert(0int / limit == 0) by (nonlinear_arith)
                requires
                    limit > 0,
            ;
        }
    }
}

/// Gives a number a bonus.
pub fn update_history(value: &mut i16, bonus: i32, scale: i32)
    requires
        0 < scale <= 16_384,
        -scale <= *old(value) <= scale,
    ensures
        *final(value) == updated(*old(value) as int, bonus as int, scale as int),
        -scale <= *final(value) <= scale,
{
    let bonus: i32 = if bonus < -scale {
        -scale
    } else if bonus > scale {
        scale
    } else {
        bonus
    };
    let v: i32 = *value as i32;
    let size: i32 = if bonus < 0 {
        -bonus
    } else {
        bonus
    };
    let weight: i32 = if v < 0 {
        -v
    } else {
        v
    };
    proof {
        assert(0 <= weight * size <= 16_384 * 16_384) by (nonlinear_arith)
            requires
                0 <= weight <= 16_384,
                0 <= size <= 16_384,
        ;
    }
    let share: i32 = weight * size / scale;
    proof {
        bounded_history_stays_bounded(v as int, bonus as int, scale as int);
        assert(0 <= share <= weight * size) by (nonlinear_arith)
            requires
                share == (weight * size) as int / scale as int,
                0 <= weight * size,
                scale > 0,
        ;
        if v < 0 {
            assert(v * size == -(weight * size)) by (nonlinear_arith)
                requires
                    v == -weight,
            ;
        }
        if v * size == 0 {
            assert(0int / scale as int == 0) by (nonlinear_arith)
                requires
                    scale > 0,
            ;
        }
    }
    let pull: i32 = if v < 0 {
        -share
    } else {
        share
    };
    let next: i32 = v + (bonus - pull);
    *value = next as i16;
}

/// The bonus for a cutoff at a depth: its square, as far as it fits.
pub open spec fn bonus_of(depth: int) -> int {
    if depth * depth > i32::MAX {
        i32::MAX as int
    } else {
        depth * depth
    }
}

/// The bonus for a cutoff at a depth.
pub fn history_bonus(depth: i32) -> (r: i32)
    ensures
        r == bonus_of(depth as int),
        r >= 0,
{
    proof {
        assert(0 <= depth * depth <= 0x8000_0000 * 0x8000_0000) by (nonlinear_arith)
            requires
                -0x8000_0000 <= depth <= 0x8000_0000,
        ;
    }
    let square: i64 = depth as i64 * depth as i64;
    if square > i32::MAX as i64 {
        i32::MAX
    } else {
        square as i32
    }
}

/// Whether a table has `size` numbers, all within a limit.
pub open spec fn table_wf(table: Seq<i16>, size: int, limit: int) -> bool {
    &&& table.len() == size
    &&& forall|i: int| 0 <= i < size ==> -limit <= #[trigger] table[i] <= limit
}

/// A table after a bonus for one of its numbers.
pub open spec fn table_with(table: Seq<i16>, i: int, bonus: int, limit: int) -> Seq<i16> {
    table.update(i, updated(table[i] as int, bonus, limit) as i16)
}

/// A table of zeros.
pub open spec fn zeros(size: nat) -> Seq<i16> {
    Seq::new(size, |i: int| 0i16)
}

fn zero_table(size: usize) -> (r: Vec<i16>)
    ensures
        r@ == zeros(size as nat),
{
    let table: Vec<i16> = vec![0i16; size];
    assert(table@ =~= zeros(size as nat));
    table
}

fn update_table(table: &mut Vec<i16>, i: usize, bonus: i32, limit: i32)
    requires
        0 < limit <= 16_384,
        table_wf(old(table)@, old(table)@.len() as int, limit as int),
        i < old(table)@.len(),
    ensures
        final(table)@ == table_with(old(table)@, i as int, bonus as int, limit as int),
        table_wf(final(table)@, old(table)@.len() as int, limit as int),
{
    let mut value: i16 = table[i];
    update_history(&mut value, bonus, limit);
    table[i] = value;
}

/// How well quiet moves did, by side, start and target.
pub struct QuietHistory {
    pub history: Vec<i16>,
}

/// The place of a side and the squares of its move.
pub open spec fn quiet_cell(stm: int, from: int, to: int) -> int {
    (stm * 64 + from) * 64 + to
}

impl View for QuietHistory {
    type V = Seq<i16>;

    open spec fn view(&self) -> Seq<i16> {
        self.history@
    }
}

impl QuietHistory {
    pub open spec fn wf(self) -> bool {
        table_wf(self@, 8192, MAX_QUIET_HISTORY as int)
    }

    pub fn new() -> (r: QuietHistory)
        ensures
            r.wf(),
            r@ == zeros(8192),
    {
        QuietHistory { history: zero_table(8192) }
    }

    pub fn clear(&mut self)
        ensures
            final(self).wf(),
            final(self)@ == zeros(8192),
    {
        self.history = zero_table(8192);
    }

    fn index(stm: usize, from: u8, to: u8) -> (r: usize)
        requires
            stm < 2,
            from < 64,
            to < 64,
        ensures
            r == quiet_cell(stm as int, from as int, to as int),
            r < 8192,
    {
        (stm * 64 + from as usize) * 64 + to as usize
    }

    pub fn get(&self, stm: usize, from: u8, to: u8) -> (r: i32)
        requires
            self.wf(),
            stm < 2,
            from < 64,
            to < 64,
        ensures
            r == self@[quiet_cell(stm as int, from as int, to as int)],
            -MAX_QUIET_HISTORY <= r <= MAX_QUIET_HISTORY,
    {
        self.history[Self::index(stm, from, to)] as i32
    }

    pub fn update(&mut self, stm: usize, from: u8, to: u8, bonus: i32)
        requires
            old(self).wf(),
            stm < 2,
            from < 64,
            to < 64,
        ensures
            final(self).wf(),
            final(self)@ == table_with(
                old(self)@,
                quiet_cell(stm as int, from as int, to as int),
                bonus as int,
                MAX_QUIET_HISTORY as int,
            ),
    {
        let i: usize = Self::index(stm, from, to);
        update_table(&mut self.history, i, bonus, MAX_QUIET_HISTORY);
    }
}

/// How well quiet moves did as an answer to a move of the other side.
pub struct ContinuationHistory {
    pub history: Vec<i16>,
}

/// The place of an answer: by how many plies back, the side, the move that is
/// answered, and the answer.
pub open spec fn continuation_cell(
    ply: int,
    stm: int,
    prev_to: int,
    prev_piece: Piece,
    to: int,
    piece: Piece,
) -> int {
    ((((ply * 2 + stm) * 64 + prev_to) * 6 + prev_piece.number()) * 64 + to) * 6 + piece.number()
}

impl View for ContinuationHistory {
    type V = Seq<i16>;

    open spec fn view(&self) -> Seq<i16> {
        self.history@
    }
}

impl ContinuationHistory {
    pub open spec fn wf(self) -> bool {
        table_wf(self@, 294_912, MAX_QUIET_HISTORY as int)
    }

    pub fn new() -> (r: ContinuationHistory)
        ensures
            r.wf(),
            r@ == zeros(294_912),
    {
        ContinuationHistory { history: zero_table(294_912) }
    }

    pub fn clear(&mut self)
        ensures
            final(self).wf(),
            final(self)@ == zeros(294_912),
    {
        self.history = zero_table(294_912);
    }

    fn index(
        ply: usize,
        stm: usize,
        prev_to: u8,
        prev_piece: Piece,
        to: u8,
        piece: Piece,
    ) -> (r: usize)
        requires
            ply < CONTHIST_PLY,
            stm < 2,
            prev_to < 64,
            to < 64,
        ensures
            r == continuation_cell(
                ply as int,
                stm as int,
                prev_to as int,
                prev_piece,
                to as int,
                piece,
            ),
            r < 294_912,
    {
        ((((ply * 2 + stm) * 64 + prev_to as usize) * 6 + prev_piece.index()) * 64 + to as usize) * 6
            + piece.index()
    }

    pub fn get(
        &self,
        ply: usize,
        stm: usize,
        prev_to: u8,
        prev_piece: Piece,
        to: u8,
        piece: Piece,
    ) -> (r: i32)
        requires
            self.wf(),
            ply < CONTHIST_PLY,
            stm < 2,
            prev_to < 64,
            to < 64,
        ensures
            r == self@[continuation_cell(
                ply as int,
                stm as int,
                prev_to as int,
                prev_piece,
                to as int,
                piece,
            )],
            -MAX_QUIET_HISTORY <= r <= MAX_QUIET_HISTORY,
    {
        self.history[Self::index(ply, stm, prev_to, prev_piece, to, piece)] as i32
    }

    pub fn update(
        &mut self,
        ply: usize,
        stm: usize,
        prev_to: u8,
        prev_piece: Piece,
        to: u8,
        piece: Piece,
        bonus: i32,
    )
        requires
            old(self).wf(),
            ply < CONTHIST_PLY,
            stm < 2,
            prev_to < 64,
            to < 64,
        ensures
            final(self).wf(),
            final(self)@ == table_with(
                old(self)@,
                continuation_cell(
                    ply as int,
                    stm as int,
                    prev_to as int,
                    prev_piece,
                    to as int,
                    piece,
                ),
                bonus as int,
                MAX_QUIET_HISTORY as int,
            ),
    {
        let i: usize = Self::index(ply, stm, prev_to, prev_piece, to, piece);
        update_table(&mut self.history, i, bonus, MAX_QUIET_HISTORY);
    }
}

/// How well captures did, by side, square, piece and victim.
pub struct CaptureHistory {
    pub history: Vec<i16>,
}

/// The place of a side and its capture.
pub open spec fn capture_cell(stm: int, to: int, piece: Piece, target: Piece) -> int {
    ((stm * 64 + to) * 6 + piece.number()) * 6 + target.number()
}

impl View for CaptureHistory {
    type V = Seq<i16>;

    open spec fn view(&self) -> Seq<i16> {
        self.history@
    }
}

impl CaptureHistory {
    pub open spec fn wf(self) -> bool {
        table_wf(self@, 4608, MAX_QUIET_HISTORY as int)
    }

    pub fn new() -> (r: CaptureHistory)
        ensures
            r.wf(),
            r@ == zeros(4608),
    {
        CaptureHistory { history: zero_table(4608) }
    }

    pub fn clear(&mut self)
        ensures
            final(self).wf(),
            final(self)@ == zeros(4608),
    {
        self.history = zero_table(4608);
    }

    fn index(stm: usize, to: u8, piece: Piece, target: Piece) -> (r: usize)
        requires
            stm < 2,
            to < 64,
        ensures
            r == capture_cell(stm as int, to as int, piece, target),
            r < 4608,
    {
        ((stm * 64 + to as usize) * 6 + piece.index()) * 6 + target.index()
    }

    pub fn get(&self, stm: usize, to: u8, piece: Piece, target: Piece) -> (r: i32)
        requires
            self.wf(),
            stm < 2,
            to < 64,
        ensures
            r == self@[capture_cell(stm as int, to as int, piece, target)],
            -MAX_QUIET_HISTORY <= r <= MAX_QUIET_HISTORY,
    {
        self.history[Self::index(stm, to, piece, target)] as i32
    }

    pub fn update(&mut self, stm: usize, to: u8, piece: Piece, target: Piece, bonus: i32)
        requires
            old(self).wf(),
            stm < 2,
            to < 64,
        ensures
            final(self).wf(),
            final(self)@ == table_with(
                old(self)@,
                capture_cell(stm as int, to as int, piece, target),
                bonus as int,
                MAX_QUIET_HISTORY as int,
            ),
    {
        let i: usize = Self::index(stm, to, piece, target);
        update_table(&mut self.history, i, bonus, MAX_QUIET_HISTORY);
    }
}

/// By how much the evaluation was wrong, by side and some part of the
/// position.
pub struct CorrectionHistory {
    pub history: Vec<i16>,
}

/// The place of a side and a hash.
pub open spec fn correction_cell(stm: int, hash: u64) -> int {
    stm * 8192 + hash as int % 8192
}

impl View for CorrectionHistory {
    type V = Seq<i16>;

    open spec fn view(&self) -> Seq<i16> {
        self.history@
    }
}

impl CorrectionHistory {
    pub open spec fn wf(self) -> bool {
        table_wf(self@, 16_384, MAX_CORRECTION_HISTORY as int)
    }

    pub fn new() -> (r: CorrectionHistory)
        ensures
            r.wf(),
            r@ == zeros(16_384),
    {
        CorrectionHistory { history: zero_table(16_384) }
    }

    pub fn clear(&mut self)
        ensures
            final(self).wf(),
            final(self)@ == zeros(16_384),
    {
        self.history = zero_table(16_384);
    }

    fn index(stm: usize, hash: u64) -> (r: usize)
        requires
            stm < 2,
        ensures
            r == correction_cell(stm as int, hash),
            r < 16_384,
    {
        stm * CORRHIST_SIZE + (hash % CORRHIST_SIZE as u64) as usize
    }

    pub fn get(&self, stm: usize, hash: u64) -> (r: i32)
        requires
            self.wf(),
            stm < 2,
        ensures
            r == self@[correction_cell(stm as int, hash)],
            -MAX_CORRECTION_HISTORY <= r <= MAX_CORRECTION_HISTORY,
    {
        self.history[Self::index(stm, hash)] as i32
    }

    pub fn update(&mut self, stm: usize, hash: u64, bonus: i32)
        requires
            old(self).wf(),
            stm < 2,
        ensures
            final(self).wf(),
            final(self)@ == table_with(
                old(self)@,
                correction_cell(stm as int, hash),
                clamped(bonus as int, -2048, 2048),
                MAX_CORRECTION_HISTORY as int,
            ),
    {
        let most: i32 = MAX_CORRECTION_HISTORY / 4;
        let bonus: i32 = if bonus < -most {
            -most
        } else if bonus > most {
            most
        } else {
            bonus
        };
        let i: usize = Self::index(stm, hash);
        update_table(&mut self.history, i, bonus, MAX_CORRECTION_HISTORY);
    }
}

/// How well quiet moves did with the pawns as they stand.
pub struct PawnHistory {
    pub history: Vec<i16>,
}

/// The place of a side, the pawns, and a move.
pub open spec fn pawn_cell(stm: int, pawn_hash: u64, to: int, piece_type: Piece) -> int {
    ((stm * 4096 + pawn_hash as int % 4096) * 6 + piece_type.number()) * 64 + to
}

impl View for PawnHistory {
    type V = Seq<i16>;

    open spec fn view(&self) -> Seq<i16> {
        self.history@
    }
}

impl PawnHistory {
    pub open spec fn wf(self) -> bool {
        table_wf(self@, 3_145_728, MAX_QUIET_HISTORY as int)
    }

    pub fn new() -> (r: PawnHistory)
        ensures
            r.wf(),
            r@ == zeros(3_145_728),
    {
        PawnHistory { history: zero_table(3_145_728) }
    }

    pub fn clear(&mut self)
        ensures
            final(self).wf(),
            final(self)@ == zeros(3_145_728),
    {
        self.history = zero_table(3_145_728);
    }

    fn index(stm: usize, pawn_hash: u64, to: u8, piece_type: Piece) -> (r: usize)
        requires
            stm < 2,
            to < 64,
        ensures
            r == pawn_cell(stm as int, pawn_hash, to as int, piece_type),
            r < 3_145_728,
    {
        ((stm * PAWNHIST_SIZE + (pawn_hash % PAWNHIST_SIZE as u64) as usize) * 6 + piece_type.index())
            * 64 + to as usize
    }

    pub fn get(&self, stm: usize, pawn_hash: u64, to: u8, piece_type: Piece) -> (r: i32)
        requires
            self.wf(),
            stm < 2,
            to < 64,
        ensures
            r == self@[pawn_cell(stm as int, pawn_hash, to as int, piece_type)],
            -MAX_QUIET_HISTORY <= r <= MAX_QUIET_HISTORY,
    {
        self.history[Self::index(stm, pawn_hash, to, piece_type)] as i32
    }

    pub fn update(&mut self, stm: usize, pawn_hash: u64, to: u8, piece_type: Piece, bonus: i32)
        requires
            old(self).wf(),
            stm < 2,
            to < 64,
        ensures
            final(self).wf(),
            final(self)@ == table_with(
                old(self)@,
                pawn_cell(stm as int, pawn_hash, to as int, piece_type),
                bonus as int,
                MAX_QUIET_HISTORY as int,
            ),
    {
        let i: usize = Self::index(stm, pawn_hash, to, piece_type);
        update_table(&mut self.history, i, bonus, MAX_QUIET_HISTORY);
    }
}

/// A bonus changes no number but its own.
pub proof fn a_bonus_changes_one_number(table: Seq<i16>, i: int, j: int, bonus: int, limit: int)
    requires
        0 <= i < table.len(),
        0 <= j < table.len(),
        i != j,
    ensures
        table_with(table, i, bonus, limit)[j] == table[j],
{
}

/// Quiet moves of different sides or with different squares have numbers of
/// their own.
pub proof fn quiet_moves_have_their_own_numbers(
    stm: int,
    from: int,
    to: int,
    other_stm: int,
    other_from: int,
    other_to: int,
)
    requires
        0 <= stm < 2,
        0 <= from < 64,
        0 <= to < 64,
        0 <= other_stm < 2,
        0 <= other_from < 64,
        0 <= other_to < 64,
    ensures
        quiet_cell(stm, from, to) == quiet_cell(other_stm, other_from, other_to) <==> stm
            == other_stm && from == other_from && to == other_to,
{
}

/// Pieces have different numbers.
proof fn lemma_numbers(a: Piece, b: Piece)
    ensures
        0 <= a.number() < 6,
        0 <= b.number() < 6,
        a.number() == b.number() ==> a == b,
{
}

/// Different answers, and answers to different moves, have numbers of their
/// own.
pub proof fn answers_have_their_own_numbers(
    stm: int,
    prev_to: int,
    prev_piece: Piece,
    to: int,
    piece: Piece,
    other_stm: int,
    other_prev_to: int,
    other_prev_piece: Piece,
    other_to: int,
    other_piece: Piece,
)
    requires
        0 <= stm < 2,
        0 <= prev_to < 64,
        0 <= to < 64,
        0 <= other_stm < 2,
        0 <= other_prev_to < 64,
        0 <= other_to < 64,
    ensures
        continuation_cell(0, stm, prev_to, prev_piece, to, piece) == continuation_cell(
            0,
            other_stm,
            other_prev_to,
            other_prev_piece,
            other_to,
            other_piece,
        ) <==> stm == other_stm && prev_to == other_prev_to && prev_piece == other_prev_piece && to
            == other_to && piece == other_piece,
{
    lemma_numbers(prev_piece, other_prev_piece);
    lemma_numbers(piece, other_piece);
}

/// Different captures have numbers of their own.
pub proof fn captures_have_their_own_numbers(
    stm: int,
    to: int,
    piece: Piece,
    target: Piece,
    other_stm: int,
    other_to: int,
    other_piece: Piece,
    other_target: Piece,
)
    requires
        0 <= stm < 2,
        0 <= to < 64,
        0 <= other_stm < 2,
        0 <= other_to < 64,
    ensures
        capture_cell(stm, to, piece, target) == capture_cell(
            other_stm,
            other_to,
            other_piece,
            other_target,
        ) <==> stm == other_stm && to == other_to && piece == other_piece && target
            == other_target,
{
    lemma_numbers(piece, other_piece);
    lemma_numbers(target, other_target);
}

/// Corrections share a number only where the side and the low bits of the
/// hashes are the same.
pub proof fn corrections_share_a_number_by_hash(
    stm: int,
    hash: u64,
    other_stm: int,
    other_hash: u64,
)
    requires
        0 <= stm < 2,
        0 <= other_stm < 2,
    ensures
        correction_cell(stm, hash) == correction_cell(other_stm, other_hash) <==> stm == other_stm
            && hash as int % 8192 == other_hash as int % 8192,
{
}

/// Moves share a number in the history of the pawns only where the low bits of
/// the hashes, and all else, are the same.
pub proof fn pawn_moves_share_a_number_by_hash(
    stm: int,
    hash: u64,
    to: int,
    piece: Piece,
    other_stm: int,
    other_hash: u64,
    other_to: int,
    other_piece: Piece,
)
    requires
        0 <= stm < 2,
        0 <= to < 64,
        0 <= other_stm < 2,
        0 <= other_to < 64,
    ensures
        pawn_cell(stm, hash, to, piece) == pawn_cell(other_stm, other_hash, other_to, other_piece)
            <==> stm == other_stm && hash as int % 4096 == other_hash as int % 4096 && to
            == other_to && piece == other_piece,
{
    lemma_numbers(piece, other_piece);
}

} // verus!
