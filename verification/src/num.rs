//! Integer square root and the division facts the similarity metric needs.

use vstd::prelude::*;
use vstd::arithmetic::div_mod::{lemma_fundamental_div_mod, lemma_div_is_ordered_by_denominator};

verus! {

/// Mathematical floor of the square root, defined by counting up.
pub open spec fn sqrt_floor(x: nat) -> nat
    decreases x,
{
    if x == 0 {
        0
    } else {
        let p = sqrt_floor((x - 1) as nat);
        if (p + 1) * (p + 1) <= x {
            p + 1
        } else {
            p
        }
    }
}

pub proof fn lemma_sqrt_floor_bounds(x: nat)
    ensures
        sqrt_floor(x) * sqrt_floor(x) <= x,
        x < (sqrt_floor(x) + 1) * (sqrt_floor(x) + 1),
    decreases x,
{
    if x == 0 {
        assert(sqrt_floor(0) == 0);
        assert(x < (sqrt_floor(x) + 1) * (sqrt_floor(x) + 1)) by (nonlinear_arith)
            requires x == 0, sqrt_floor(x) == 0,
        ;
    } else {
        lemma_sqrt_floor_bounds((x - 1) as nat);
        let p = sqrt_floor((x - 1) as nat);
        if (p + 1) * (p + 1) <= x {
            assert(sqrt_floor(x) == p + 1);
            assert(x < (sqrt_floor(x) + 1) * (sqrt_floor(x) + 1)) by (nonlinear_arith)
                requires x <= (p + 1) * (p + 1), sqrt_floor(x) == p + 1,
            ;
        } else {
            assert(sqrt_floor(x) == p);
        }
    }
}

/// Any integer bracketing the argument between consecutive squares is the
/// floor of its square root.
pub proof fn lemma_sqrt_floor_unique(x: nat, r: nat)
    requires
        r * r <= x,
        x < (r + 1) * (r + 1),
    ensures
        r == sqrt_floor(x),
{
    lemma_sqrt_floor_bounds(x);
    let s = sqrt_floor(x);
    if r < s {
        assert((r + 1) * (r + 1) <= s * s) by (nonlinear_arith)
            requires r < s,
        ;
    }
    if s < r {
        assert((s + 1) * (s + 1) <= r * r) by (nonlinear_arith)
            requires s < r,
        ;
    }
}

pub proof fn lemma_sqrt_floor_monotone(x: nat, y: nat)
    requires
        x <= y,
    ensures
        sqrt_floor(x) <= sqrt_floor(y),
{
    lemma_sqrt_floor_bounds(x);
    lemma_sqrt_floor_bounds(y);
    let a = sqrt_floor(x);
    let b = sqrt_floor(y);
    if b < a {
        assert((b + 1) * (b + 1) <= a * a) by (nonlinear_arith)
            requires b < a,
        ;
    }
}

/// Floor square root by binary search.
pub fn isqrt(x: u128) -> (r: u128)
    ensures
        r as nat == sqrt_floor(x as nat),
{
    let mut lo: u128 = 0;
    let mut hi: u128 = 0xFFFF_FFFF_FFFF_FFFF;
    if x < hi {
        hi = x;
    }
    proof {
        if x < 0xFFFF_FFFF_FFFF_FFFF {
            assert((x as nat) < (x as nat + 1) * (x as nat + 1)) by (nonlinear_arith);
        } else {
            assert((x as nat) < (0xFFFF_FFFF_FFFF_FFFFnat + 1) * (0xFFFF_FFFF_FFFF_FFFFnat + 1)) by (nonlinear_arith)
                requires x <= u128::MAX,
            ;
        }
    }
    while lo < hi
        invariant
            lo <= hi,
            hi <= 0xFFFF_FFFF_FFFF_FFFF,
            (lo as nat) * (lo as nat) <= x as nat,
            (x as nat) < (hi as nat + 1) * (hi as nat + 1),
        decreases hi - lo,
    {
        let mid: u128 = lo + (hi - lo + 1) / 2;
        assert(lo < mid <= hi);
        proof {
            assert((mid as nat) * (mid as nat) < u128::MAX) by (nonlinear_arith)
                requires mid <= 0xFFFF_FFFF_FFFF_FFFFu128,
            ;
        }
        if mid * mid <= x {
            lo = mid;
        } else {
            hi = mid - 1;
        }
    }
    proof {
        lemma_sqrt_floor_unique(x as nat, lo as nat);
    }
    lo
}

/// Strict decrease of `n / d` between two denominators that are far enough
/// apart for the integer quotients to separate.
pub proof fn lemma_div_strict_decrease(n: int, d1: int, d2: int)
    requires
        0 < d1 < d2,
        d1 * d2 <= n * (d2 - d1),
    ensures
        n / d1 > n / d2,
{
    lemma_fundamental_div_mod(n, d1);
    lemma_fundamental_div_mod(n, d2);
    let q1 = n / d1;
    let r1 = n % d1;
    let q2 = n / d2;
    let r2 = n % d2;
    assert(n >= 0) by (nonlinear_arith)
        requires 0 < d1 < d2, d1 * d2 <= n * (d2 - d1),
    ;
    lemma_div_is_ordered_by_denominator(n, d1, d2);
    assert(q2 <= q1);
    if q1 == q2 {
        // With equal quotients the remainders absorb the whole gap, which
        // the hypothesis on the denominators rules out.
        assert(q1 * (d2 - d1) == r1 - r2) by (nonlinear_arith)
            requires n == d1 * q1 + r1, n == d2 * q2 + r2, q1 == q2,
        ;
        assert(d1 * d2 <= (d1 * q1 + r1) * (d2 - d1));
        assert((d1 * q1 + r1) * (d2 - d1) == d1 * (q1 * (d2 - d1)) + r1 * (d2 - d1)) by (nonlinear_arith);
        assert(d1 * (q1 * (d2 - d1)) < d1 * d1) by (nonlinear_arith)
            requires q1 * (d2 - d1) == r1 - r2, r1 < d1, 0 <= r2, d1 > 0,
        ;
        assert(r1 * (d2 - d1) <= d1 * (d2 - d1) - (d2 - d1)) by (nonlinear_arith)
            requires r1 < d1, d2 - d1 > 0,
        ;
        assert(d1 * d2 < d1 * d1 + d1 * (d2 - d1)) by (nonlinear_arith)
            requires
                d1 * d2 <= d1 * (q1 * (d2 - d1)) + r1 * (d2 - d1),
                d1 * (q1 * (d2 - d1)) < d1 * d1,
                r1 * (d2 - d1) <= d1 * (d2 - d1) - (d2 - d1),
                d2 - d1 > 0,
        ;
        assert(d1 * d1 + d1 * (d2 - d1) == d1 * d2) by (nonlinear_arith);
        assert(false);
    }
}

} // verus!
