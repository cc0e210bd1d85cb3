//! Numbers that look random and can be repeated, and what is chosen by them.

use crate::chess::{file, file_of, Move, Piece, Position};
use crate::rules::{legal_moves, legal_moves_of, plausible, play, played};
use vstd::prelude::*;
use vstd::seq_lib::{to_multiset_contains, to_multiset_update};

verus! {

pub const STEP: u64 = 0x9e37_79b9_7f4a_7c15;

pub const FIRST_FACTOR: u64 = 0xbf58_476d_1ce4_e5b9;

pub const SECOND_FACTOR: u64 = 0x94d0_49bb_1331_11eb;

/// The state of a generator after it was asked.
pub open spec fn stepped(state: u64) -> u64 {
    state.wrapping_add(STEP)
}

/// The number that a state of a generator gives.
pub open spec fn mixed(state: u64) -> u64 {
    let a = (state ^ (state >> 30)).wrapping_mul(FIRST_FACTOR);
    let b = (a ^ (a >> 27)).wrapping_mul(SECOND_FACTOR);
    b ^ (b >> 31)
}

/// The next number of a generator.
pub open spec fn drawn(state: u64) -> u64 {
    mixed(stepped(state))
}

/// A generator that gives the same numbers for the same seed.
pub struct SplitMix64 {
    pub state: u64,
}

impl SplitMix64 {
    pub fn new(seed: u64) -> (r: SplitMix64)
        ensures
            r.state == seed,
    {
        SplitMix64 { state: seed }
    }

    /// The next number.
    pub fn next_u64(&mut self) -> (r: u64)
        ensures
            r == drawn(old(self).state),
            final(self).state == stepped(old(self).state),
    {
        self.state = self.state.wrapping_add(STEP);
        let mut value: u64 = self.state;
        value = (value ^ (value >> 30)).wrapping_mul(FIRST_FACTOR);
        value = (value ^ (value >> 27)).wrapping_mul(SECOND_FACTOR);
        value ^ (value >> 31)
    }

    /// A place in a list of some length.
    pub fn pick(&mut self, len: usize) -> (r: usize)
        requires
            len > 0,
        ensures
            r == drawn(old(self).state) as int % len as int,
            r < len,
            final(self).state == stepped(old(self).state),
    {
        (self.next_u64() % len as u64) as usize
    }
}

/// A list with two of its values exchanged.
pub open spec fn swapped<T>(s: Seq<T>, i: int, j: int) -> Seq<T> {
    s.update(i, s[j]).update(j, s[i])
}

/// A list in which the place `end`, and each before it in turn, was exchanged
/// with one that is drawn from those up to it.
pub open spec fn shuffled_from<T>(s: Seq<T>, state: u64, end: int) -> Seq<T>
    decreases end,
{
    if end <= 0 {
        s
    } else {
        shuffled_from(
            swapped(s, end, drawn(state) as int % (end + 1)),
            stepped(state),
            end - 1,
        )
    }
}

/// A list in an order that a seed determines.
pub open spec fn shuffled<T>(s: Seq<T>, seed: u64) -> Seq<T> {
    shuffled_from(s, seed, s.len() - 1)
}

/// Puts a list into an order that a seed determines.
pub fn shuffle<T: Copy>(values: &mut Vec<T>, seed: u64)
    ensures
        final(values)@ == shuffled(old(values)@, seed),
{
    let mut rng: SplitMix64 = SplitMix64::new(seed);
    let len: usize = values.len();
    if len == 0 {
        return ;
    }
    let mut end: usize = len - 1;
    while end > 0
        invariant
            end < len,
            values@.len() == len,
            shuffled(old(values)@, seed) == shuffled_from(values@, rng.state, end as int),
        decreases end,
    {
        let index: usize = rng.pick(end + 1);
        let a: T = values[end];
        let b: T = values[index];
        values[end] = b;
        values[index] = a;
        end = end - 1;
    }
}

/// Shuffling keeps the values of a list.
pub proof fn shuffling_keeps_the_values<T>(s: Seq<T>, seed: u64)
    ensures
        shuffled(s, seed).to_multiset() == s.to_multiset(),
{
    lemma_shuffled_from(s, seed, s.len() - 1);
}

proof fn lemma_shuffled_from<T>(s: Seq<T>, state: u64, end: int)
    requires
        end < s.len(),
    ensures
        shuffled_from(s, state, end).to_multiset() == s.to_multiset(),
    decreases end,
{
    if end > 0 {
        let j = drawn(state) as int % (end + 1);
        lemma_swapped(s, end, j);
        lemma_shuffled_from(swapped(s, end, j), stepped(state), end - 1);
    }
}

proof fn lemma_swapped<T>(s: Seq<T>, i: int, j: int)
    requires
        0 <= i < s.len(),
        0 <= j < s.len(),
    ensures
        swapped(s, i, j).to_multiset() == s.to_multiset(),
{
    broadcast use vstd::multiset::group_multiset_axioms;
    broadcast use vstd::multiset::group_multiset_properties;

    let t = s.update(i, s[j]);
    to_multiset_update(s, i, s[j]);
    to_multiset_update(t, j, s[i]);
    to_multiset_contains(s, s[i]);
    assert(s.contains(s[i]));
    if i == j {
        assert(swapped(s, i, j) =~= s);
    } else {
        assert(t[j] == s[j]);
        assert(swapped(s, i, j).to_multiset() =~= s.to_multiset());
    }
}

/// A move that captures nothing and does not promote. A pawn that moves aside
/// captures.
pub open spec fn is_quiet(board: Position, mv: Move) -> bool {
    &&& mv.promotion is None
    &&& board.color_at(mv.to as int) is None
    &&& !(board.piece_at(mv.from as int) == Some(Piece::Pawn) && file_of(mv.from as int) != file_of(
        mv.to as int,
    ))
}

/// Whether a move captures nothing and does not promote.
pub fn is_quiet_move(board: &Position, mv: Move) -> (r: bool)
    requires
        mv.from < 64,
        mv.to < 64,
    ensures
        r == is_quiet(*board, mv),
{
    mv.promotion.is_none() && board.color_on(mv.to).is_none() && !(board.piece_on(mv.from) == Some(
        Piece::Pawn,
    ) && file(mv.from) != file(mv.to))
}

/// The quiet moves of a position.
pub open spec fn quiet_moves_of(board: Position) -> Seq<Move> {
    legal_moves_of(board).filter(|mv: Move| is_quiet(board, mv))
}

fn quiet_moves(board: &Position) -> (r: Vec<Move>)
    requires
        board.valid(),
    ensures
        r@ == quiet_moves_of(*board),
        forall|i: int| 0 <= i < r@.len() ==> legal_moves_of(*board).contains(#[trigger] r@[i]),
{
    let legal: Vec<Move> = legal_moves(board);
    let ghost f = |mv: Move| is_quiet(*board, mv);
    let mut quiets: Vec<Move> = Vec::new();
    let mut i: usize = 0;
    proof {
        reveal(Seq::filter);
    }
    while i < legal.len()
        invariant
            i <= legal@.len(),
            legal@ == legal_moves_of(*board),
            f == (|mv: Move| is_quiet(*board, mv)),
            forall|k: int| 0 <= k < legal@.len() ==> plausible(*board, #[trigger] legal@[k]),
            quiets@ == legal@.take(i as int).filter(f),
            forall|k: int| 0 <= k < quiets@.len() ==> legal@.contains(#[trigger] quiets@[k]),
        decreases legal@.len() - i,
    {
        let mv: Move = legal[i];
        proof {
            let before = legal@.take(i as int);
            assert(legal@.take(i + 1) =~= before.push(mv));
            assert(before.push(mv).drop_last() =~= before);
            reveal(Seq::filter);
            assert(legal@.contains(mv));
        }
        if is_quiet_move(board, mv) {
            quiets.push(mv);
        }
        i = i + 1;
    }
    assert(legal@.take(i as int) =~= legal@);
    quiets
}

/// A position after so many quiet moves that are drawn, or fewer where none
/// is left; and the generator after them.
pub open spec fn randomized(board: Position, state: u64, plies: nat) -> (Position, u64)
    decreases plies,
{
    let quiets = quiet_moves_of(board);
    if plies == 0 || quiets.len() == 0 {
        (board, state)
    } else {
        randomized(
            played(board, quiets[drawn(state) as int % quiets.len() as int]),
            stepped(state),
            (plies - 1) as nat,
        )
    }
}

/// Plays so many quiet moves that are drawn, or fewer where none is left.
pub fn randomize_opening(board: &mut Position, plies: usize, rng: &mut SplitMix64)
    requires
        old(board).valid(),
    ensures
        final(board).valid(),
        (*final(board), final(rng).state) == randomized(
            *old(board),
            old(rng).state,
            plies as nat,
        ),
{
    let mut left: usize = plies;
    while left > 0
        invariant
            board.valid(),
            randomized(*old(board), old(rng).state, plies as nat) == randomized(
                *board,
                rng.state,
                left as nat,
            ),
        decreases left,
    {
        let quiets: Vec<Move> = quiet_moves(board);
        if quiets.len() == 0 {
            return ;
        }
        let mv: Move = quiets[rng.pick(quiets.len())];
        *board = play(board, mv);
        left = left - 1;
    }
}

} // verus!
