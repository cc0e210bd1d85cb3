//! The hashes by which positions share what was learned, and the numbers drawn.

use crate::bits::{bit_of, lemma_bit_of, lemma_operators};
use crate::chess::{Color, Move, Piece, Position};
use crate::moves::move_facts;
use crate::rng::{
    drawn, is_quiet, quiet_moves_of, randomized, shuffled, shuffled_from, stepped, swapped,
};
use crate::rules::{plausible, played};
use crate::zobrist::{
    key_of, kind_hash_below, kind_hash_of, major_piece_hash_of, majors_hash, minor_piece_hash_of,
    minors_hash, non_pawn_hash_of, pawn_hash_of, pawns_hash, piece_key, KEYS,
};
use vstd::prelude::*;

verus! {

/// Every man on every square has a key of its own.
pub proof fn each_man_has_its_own_key(
    color: Color,
    piece: Piece,
    s: int,
    other_color: Color,
    other_piece: Piece,
    other_s: int,
)
    requires
        0 <= s < 64,
        0 <= other_s < 64,
    ensures
        piece_key(color, piece, s) == piece_key(other_color, other_piece, other_s) <==> color
            == other_color && piece == other_piece && s == other_s,
        piece_key(color, piece, s) < KEYS,
{
}

proof fn lemma_same_kind(a: Position, b: Position, color: Color, piece: Piece, n: nat)
    requires
        a.spec_colored(color, piece) == b.spec_colored(color, piece),
    ensures
        kind_hash_below(a, color, piece, n) == kind_hash_below(b, color, piece, n),
    decreases n,
{
    if n > 0 {
        lemma_same_kind(a, b, color, piece, (n - 1) as nat);
    }
}

proof fn lemma_xor(x: u64, y: u64, k: u64)
    ensures
        (x ^ k) ^ y == (x ^ y) ^ k,
        x ^ (y ^ k) == (x ^ y) ^ k,
        x ^ 0 == x,
        (x ^ k) ^ k == x,
{
    assert((x ^ k) ^ y == (x ^ y) ^ k && x ^ (y ^ k) == (x ^ y) ^ k && x ^ 0 == x && (x ^ k) ^ k
        == x) by (bit_vector);
}

proof fn lemma_one_man_more(
    a: Position,
    b: Position,
    color: Color,
    piece: Piece,
    s: int,
    n: nat,
)
    requires
        0 <= s < 64,
        n <= 64,
        b.spec_colored(color, piece) == a.spec_colored(color, piece) ^ bit_of(s),
    ensures
        kind_hash_below(b, color, piece, n) == kind_hash_below(a, color, piece, n) ^ (if s < n {
            key_of(piece_key(color, piece, s))
        } else {
            0
        }),
    decreases n,
{
    if n == 0 {
        lemma_xor(0, 0, 0);
    } else {
        let i = n - 1;
        lemma_one_man_more(a, b, color, piece, s, i as nat);
        lemma_operators(a.spec_colored(color, piece), bit_of(s), i);
        lemma_bit_of(s, i);
        let x = kind_hash_below(a, color, piece, i as nat);
        let key = key_of(piece_key(color, piece, i));
        lemma_xor(x, key, key_of(piece_key(color, piece, s)));
        lemma_xor(x, 0, key);
        lemma_xor(x, key, key);
        lemma_xor(x ^ key, 0, 0);
        lemma_xor(x, 0, 0);
        lemma_xor(x, 0, key_of(piece_key(color, piece, s)));
    }
}

/// Whether two positions differ by one man on one square, which only one of them
/// has.
pub open spec fn differ_by_a_man(
    a: Position,
    b: Position,
    color: Color,
    piece: Piece,
    s: int,
) -> bool {
    &&& 0 <= s < 64
    &&& a.side_to_move == b.side_to_move
    &&& b.spec_colored(color, piece) == a.spec_colored(color, piece) ^ bit_of(s)
    &&& forall|c: Color, p: Piece|
        c != color || p != piece ==> #[trigger] b.spec_colored(c, p) == a.spec_colored(c, p)
}

proof fn lemma_kinds(
    a: Position,
    b: Position,
    color: Color,
    piece: Piece,
    s: int,
    c: Color,
    p: Piece,
)
    requires
        differ_by_a_man(a, b, color, piece, s),
    ensures
        kind_hash_of(b, c, p) == kind_hash_of(a, c, p) ^ (if c == color && p == piece {
            key_of(piece_key(color, piece, s))
        } else {
            0
        }),
{
    lemma_xor(kind_hash_of(a, c, p), 0, 0);
    if c == color && p == piece {
        lemma_one_man_more(a, b, color, piece, s, 64);
    } else {
        assert(b.spec_colored(c, p) == a.spec_colored(c, p));
        lemma_same_kind(a, b, c, p, 64);
    }
}

proof fn lemma_xor_pairs(x: u64, y: u64, j: u64, k: u64)
    ensures
        (x ^ j) ^ (y ^ k) == (x ^ y) ^ (j ^ k),
        j ^ 0 == j,
        0u64 ^ j == j,
{
    assert((x ^ j) ^ (y ^ k) == (x ^ y) ^ (j ^ k) && j ^ 0 == j && 0u64 ^ j == j) by (bit_vector);
}

spec fn share(counts: bool, key: u64) -> u64 {
    if counts {
        key
    } else {
        0
    }
}

proof fn lemma_side(a: Position, b: Position, color: Color, piece: Piece, s: int, c: Color)
    requires
        differ_by_a_man(a, b, color, piece, s),
    ensures
        ({
            let key = key_of(piece_key(color, piece, s));
            let own = c == color;
            &&& pawn_hash_of(b, c) == pawn_hash_of(a, c) ^ share(own && piece == Piece::Pawn, key)
            &&& minor_piece_hash_of(b, c) == minor_piece_hash_of(a, c) ^ share(
                own && (piece == Piece::Knight || piece == Piece::Bishop),
                key,
            )
            &&& major_piece_hash_of(b, c) == major_piece_hash_of(a, c) ^ share(
                own && (piece == Piece::Rook || piece == Piece::Queen),
                key,
            )
            &&& non_pawn_hash_of(b, c) == non_pawn_hash_of(a, c) ^ share(
                own && piece != Piece::Pawn,
                key,
            )
        }),
{
    let key = key_of(piece_key(color, piece, s));
    lemma_kinds(a, b, color, piece, s, c, Piece::Pawn);
    lemma_kinds(a, b, color, piece, s, c, Piece::Knight);
    lemma_kinds(a, b, color, piece, s, c, Piece::Bishop);
    lemma_kinds(a, b, color, piece, s, c, Piece::Rook);
    lemma_kinds(a, b, color, piece, s, c, Piece::Queen);
    lemma_kinds(a, b, color, piece, s, c, Piece::King);
    let own = c == color;
    let n = share(own && piece == Piece::Knight, key);
    let i = share(own && piece == Piece::Bishop, key);
    let r = share(own && piece == Piece::Rook, key);
    let q = share(own && piece == Piece::Queen, key);
    let k = share(own && piece == Piece::King, key);
    lemma_xor_pairs(kind_hash_of(a, c, Piece::Knight), kind_hash_of(a, c, Piece::Bishop), n, i);
    lemma_xor_pairs(kind_hash_of(a, c, Piece::Rook), kind_hash_of(a, c, Piece::Queen), r, q);
    lemma_xor_pairs(minor_piece_hash_of(a, c), major_piece_hash_of(a, c), n ^ i, r ^ q);
    lemma_xor_pairs(
        minor_piece_hash_of(a, c) ^ major_piece_hash_of(a, c),
        kind_hash_of(a, c, Piece::King),
        (n ^ i) ^ (r ^ q),
        k,
    );
    lemma_xor_pairs(0, 0, key, 0);
    lemma_xor_pairs(0, 0, 0, 0);
}

/// A man counts in the hash of the pawns, of the knights and bishops, or of the
/// rooks and queens, by its kind, and in that of all but the pawns of its own
/// side; in each by its key, and in no other.
pub proof fn each_man_counts_in_its_own_hashes(
    a: Position,
    b: Position,
    color: Color,
    piece: Piece,
    s: int,
)
    requires
        differ_by_a_man(a, b, color, piece, s),
    ensures
        ({
            let key = key_of(piece_key(color, piece, s));
            &&& pawns_hash(b) == pawns_hash(a) ^ (if piece == Piece::Pawn {
                key
            } else {
                0
            })
            &&& minors_hash(b) == minors_hash(a) ^ (if piece == Piece::Knight || piece
                == Piece::Bishop {
                key
            } else {
                0
            })
            &&& majors_hash(b) == majors_hash(a) ^ (if piece == Piece::Rook || piece
                == Piece::Queen {
                key
            } else {
                0
            })
            &&& non_pawn_hash_of(b, color) == non_pawn_hash_of(a, color) ^ (if piece
                != Piece::Pawn {
                key
            } else {
                0
            })
            &&& non_pawn_hash_of(b, color.other()) == non_pawn_hash_of(a, color.other())
        }),
{
    let key = key_of(piece_key(color, piece, s));
    let us = a.side_to_move;
    let them = us.other();
    lemma_side(a, b, color, piece, s, us);
    lemma_side(a, b, color, piece, s, them);
    let p = |c: Color| share(c == color && piece == Piece::Pawn, key);
    let m = |c: Color| share(c == color && (piece == Piece::Knight || piece == Piece::Bishop), key);
    let r = |c: Color| share(c == color && (piece == Piece::Rook || piece == Piece::Queen), key);
    lemma_xor_pairs(pawn_hash_of(a, us), pawn_hash_of(a, them), p(us), p(them));
    lemma_xor_pairs(minor_piece_hash_of(a, us), minor_piece_hash_of(a, them), m(us), m(them));
    lemma_xor_pairs(major_piece_hash_of(a, us), major_piece_hash_of(a, them), r(us), r(them));
    lemma_xor_pairs(0, 0, key, 0);
    lemma_xor_pairs(0, 0, 0, 0);
    lemma_xor(non_pawn_hash_of(a, color.other()), 0, 0);
}

/// A move is drawn at random only among those that neither capture, promote nor
/// castle, and all of these can be drawn.
pub proof fn random_moves_are_quiet(board: Position, mv: Move, piece: Piece)
    requires
        board.wf(),
        plausible(board, mv),
        board.piece_at(mv.from as int) == Some(piece),
    ensures
        ({
            let facts = move_facts(board, mv, piece, false);
            is_quiet(board, mv) <==> !facts.is_capture && !facts.promotion && !facts.is_castle
        }),
{
    let to = mv.to as int;
    assert(board.piece_at(to) is Some <==> board.color_at(to) is Some);
}

/// One more random ply goes on from where the plies before it have led, with a quiet
/// legal move if there is one; each ply draws one number.
pub proof fn random_plies_are_played_one_by_one(board: Position, state: u64, plies: nat)
    ensures
        ({
            let (now, left) = randomized(board, state, plies);
            let quiets = quiet_moves_of(now);
            let (next, after) = randomized(board, state, plies + 1);
            if quiets.len() == 0 {
                next == now && after == left
            } else {
                next == played(now, quiets[drawn(left) as int % quiets.len() as int]) && after
                    == stepped(left)
            }
        }),
    decreases plies,
{
    let quiets = quiet_moves_of(board);
    if plies == 0 {
        reveal_with_fuel(randomized, 2);
    } else if quiets.len() > 0 {
        let next = played(board, quiets[drawn(state) as int % quiets.len() as int]);
        random_plies_are_played_one_by_one(next, stepped(state), (plies - 1) as nat);
    }
}

proof fn lemma_shuffle_keeps_the_end<T>(s: Seq<T>, state: u64, end: int, i: int)
    requires
        end < i < s.len(),
    ensures
        shuffled_from(s, state, end).len() == s.len(),
        shuffled_from(s, state, end)[i] == s[i],
    decreases end,
{
    if end > 0 {
        let j = drawn(state) as int % (end + 1);
        let next = swapped(s, end, j);
        assert(0 <= j <= end);
        lemma_shuffle_keeps_the_end(next, stepped(state), end - 1, i);
    }
}

/// A shuffle draws the last value among all of them, itself too, by the first number;
/// and that value stays where it is.
pub proof fn a_shuffle_draws_among_all_that_are_left<T>(s: Seq<T>, seed: u64)
    requires
        s.len() >= 2,
    ensures
        shuffled(s, seed).len() == s.len(),
        shuffled(s, seed).last() == s[drawn(seed) as int % s.len() as int],
{
    let end = s.len() - 1;
    let j = drawn(seed) as int % (end + 1);
    assert(0 <= j <= end);
    let next = swapped(s, end, j);
    lemma_shuffle_keeps_the_end(next, stepped(seed), end - 1, end);
}

} // verus!
