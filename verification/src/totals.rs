//! Sums over the squares of the board.

use crate::bits::{count_below, holds};
use vstd::prelude::*;

verus! {

/// The sum of `f` over the numbers below `n`.
pub open spec fn total(f: spec_fn(int) -> int, n: nat) -> int
    decreases n,
{
    if n == 0 {
        0
    } else {
        total(f, (n - 1) as nat) + f(n - 1)
    }
}

/// The sum of `f` over the squares.
pub open spec fn board_total(f: spec_fn(int) -> int) -> int {
    total(f, 64)
}

/// `f` with another value at one place.
pub open spec fn replaced(f: spec_fn(int) -> int, a: int, value: int) -> spec_fn(int) -> int {
    |s: int|
        if s == a {
            value
        } else {
            f(s)
        }
}

pub proof fn lemma_total_same(f: spec_fn(int) -> int, g: spec_fn(int) -> int, n: nat)
    requires
        forall|s: int| 0 <= s < n ==> #[trigger] f(s) == g(s),
    ensures
        total(f, n) == total(g, n),
    decreases n,
{
    if n > 0 {
        assert(f(n - 1) == g(n - 1));
        lemma_total_same(f, g, (n - 1) as nat);
    }
}

pub proof fn lemma_total_replaced(f: spec_fn(int) -> int, a: int, value: int, n: nat)
    requires
        0 <= a,
    ensures
        total(replaced(f, a, value), n) == total(f, n) + if a < n {
            value - f(a)
        } else {
            0
        },
    decreases n,
{
    if n > 0 {
        lemma_total_replaced(f, a, value, (n - 1) as nat);
    }
}

pub proof fn lemma_total_nonnegative(f: spec_fn(int) -> int, n: nat)
    requires
        forall|s: int| 0 <= s < n ==> #[trigger] f(s) >= 0,
    ensures
        total(f, n) >= 0,
    decreases n,
{
    if n > 0 {
        assert(f(n - 1) >= 0);
        lemma_total_nonnegative(f, (n - 1) as nat);
    }
}

/// One for each square of a set.
pub open spec fn membership(b: u64) -> spec_fn(int) -> int {
    |s: int|
        if holds(b, s) {
            1
        } else {
            0
        }
}

/// The size of a set is a sum over the squares.
pub proof fn lemma_count_is_total(b: u64, n: nat)
    ensures
        count_below(b, n) == total(membership(b), n),
    decreases n,
{
    if n > 0 {
        lemma_count_is_total(b, (n - 1) as nat);
    }
}

} // verus!
