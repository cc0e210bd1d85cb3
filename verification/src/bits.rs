//! Sets of squares held in the bits of a `u64`: square `s` is in the set when
//! bit `s` is one.

use vstd::prelude::*;
use vstd::std_specs::bits::u64_trailing_zeros;

verus! {

/// Whether square `s` is in the set `b`.
pub open spec fn holds(b: u64, s: int) -> bool {
    (b >> (s as u64)) & 1u64 == 1u64
}

/// The set that holds square `s` alone.
pub open spec fn bit_of(s: int) -> u64 {
    1u64 << (s as u64)
}

/// The lowest square of a set that is not empty.
pub open spec fn lowest_of(b: u64) -> int {
    u64_trailing_zeros(b) as int
}

/// How many of the squares below `n` the set holds.
pub open spec fn count_below(b: u64, n: nat) -> nat
    decreases n,
{
    if n == 0 {
        0
    } else {
        count_below(b, (n - 1) as nat) + if holds(b, n - 1) {
            1nat
        } else {
            0nat
        }
    }
}

/// How many squares the set holds.
pub open spec fn count_of(b: u64) -> nat {
    count_below(b, 64)
}

/// Membership in the sets that the bit operators make.
pub proof fn lemma_operators(a: u64, b: u64, s: int)
    requires
        0 <= s < 64,
    ensures
        holds(a | b, s) == (holds(a, s) || holds(b, s)),
        holds(a & b, s) == (holds(a, s) && holds(b, s)),
        holds(a ^ b, s) == (holds(a, s) != holds(b, s)),
        holds(!a, s) == !holds(a, s),
        !holds(0, s),
{
    let k = s as u64;
    assert(((a | b) >> k) & 1 == 1 <==> ((a >> k) & 1 == 1 || (b >> k) & 1 == 1)) by (bit_vector)
        requires
            k < 64,
    ;
    assert(((a & b) >> k) & 1 == 1 <==> ((a >> k) & 1 == 1 && (b >> k) & 1 == 1)) by (bit_vector)
        requires
            k < 64,
    ;
    assert(((a ^ b) >> k) & 1 == 1 <==> (((a >> k) & 1 == 1) != ((b >> k) & 1 == 1)))
        by (bit_vector)
        requires
            k < 64,
    ;
    assert((!a >> k) & 1 == 1 <==> !((a >> k) & 1 == 1)) by (bit_vector)
        requires
            k < 64,
    ;
    assert((0u64 >> k) & 1 == 0) by (bit_vector);
}

/// Membership in a set of one square.
pub proof fn lemma_bit_of(s: int, t: int)
    requires
        0 <= s < 64,
        0 <= t < 64,
    ensures
        holds(bit_of(s), t) == (s == t),
{
    let a = s as u64;
    let b = t as u64;
    assert(((1u64 << a) >> b) & 1 == 1 <==> a == b) by (bit_vector)
        requires
            a < 64,
            b < 64,
    ;
}

/// A set that is not empty has a lowest square.
pub proof fn lemma_lowest(b: u64)
    ensures
        0 <= lowest_of(b) <= 64,
        b == 0 <==> lowest_of(b) == 64,
        b != 0 ==> holds(b, lowest_of(b)),
        forall|t: int| 0 <= t < lowest_of(b) ==> !holds(b, t),
{
    vstd::std_specs::bits::axiom_u64_trailing_zeros(b);
    assert forall|t: int| 0 <= t < lowest_of(b) implies !holds(b, t) by {
        let k = t as u64;
        assert((b >> k) & 1u64 == 0u64);
    }
}

/// Two sets that hold the same squares are the same.
pub proof fn lemma_same_squares(a: u64, b: u64)
    requires
        forall|s: int| 0 <= s < 64 ==> holds(a, s) == holds(b, s),
    ensures
        a == b,
{
    let d = a ^ b;
    lemma_lowest(d);
    if d != 0 {
        lemma_operators(a, b, lowest_of(d));
    }
    assert((a ^ b) == 0 ==> a == b) by (bit_vector);
}

/// Taking a square out of a set makes its number smaller.
pub proof fn lemma_without(b: u64, s: int)
    requires
        0 <= s < 64,
        holds(b, s),
    ensures
        (b ^ bit_of(s)) < b,
{
    let k = s as u64;
    assert((b ^ (1u64 << k)) < b) by (bit_vector)
        requires
            k < 64,
            (b >> k) & 1 == 1,
    ;
}

/// Whether the set holds the square.
pub fn contains(b: u64, s: u8) -> (r: bool)
    requires
        s < 64,
    ensures
        r == holds(b, s as int),
{
    (b >> (s as u64)) & 1 == 1
}

/// The set of one square.
pub fn bit(s: u8) -> (r: u64)
    requires
        s < 64,
    ensures
        r == bit_of(s as int),
{
    1u64 << (s as u64)
}

/// The lowest square of the set, if it has one.
pub fn first(b: u64) -> (r: Option<u8>)
    ensures
        r == if b == 0 {
            None::<u8>
        } else {
            Some(lowest_of(b) as u8)
        },
        r matches Some(s) ==> s < 64 && holds(b, s as int) && s == lowest_of(b),
{
    proof {
        lemma_lowest(b);
    }
    if b == 0 {
        None
    } else {
        Some(b.trailing_zeros() as u8)
    }
}

/// How many squares the set holds.
pub fn count(b: u64) -> (r: u32)
    ensures
        r == count_of(b),
        r <= 64,
{
    let mut n: u32 = 0;
    let mut s: u8 = 0;
    while s < 64
        invariant
            s <= 64,
            n == count_below(b, s as nat),
            n <= s,
        decreases 64 - s,
    {
        if contains(b, s) {
            n = n + 1;
        }
        s = s + 1;
    }
    n
}

} // verus!
