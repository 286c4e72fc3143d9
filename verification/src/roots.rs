//! Integer square roots and rounded-up division, the arithmetic under the
//! distance computations.

use vstd::prelude::*;

verus! {

/// The largest natural number whose square does not exceed `n`.
pub open spec fn floor_sqrt(n: nat) -> nat
    decreases n,
{
    if n == 0 {
        0
    } else {
        let r = floor_sqrt((n - 1) as nat);
        if (r + 1) * (r + 1) <= n {
            r + 1
        } else {
            r
        }
    }
}

/// The smallest natural number whose square is at least `n`.
pub open spec fn ceil_sqrt(n: nat) -> nat {
    let r = floor_sqrt(n);
    if r * r == n {
        r
    } else {
        r + 1
    }
}

/// `n / d` rounded up, for a positive `d`.
pub open spec fn ceil_div(n: nat, d: nat) -> nat {
    if n % d == 0 {
        n / d
    } else {
        n / d + 1
    }
}

/// `floor_sqrt(n)` squared is at most `n`, and the next square is above `n`.
pub proof fn lemma_floor_sqrt_bounds(n: nat)
    ensures
        floor_sqrt(n) * floor_sqrt(n) <= n,
        n < (floor_sqrt(n) + 1) * (floor_sqrt(n) + 1),
    decreases n,
{
    let s = floor_sqrt(n);
    if n > 0 {
        let r = floor_sqrt((n - 1) as nat);
        lemma_floor_sqrt_bounds((n - 1) as nat);
        if (r + 1) * (r + 1) <= n {
            assert(s == r + 1);
            assert(s * s <= n && n < (s + 1) * (s + 1)) by (nonlinear_arith)
                requires
                    s == r + 1,
                    (r + 1) * (r + 1) <= n,
                    n - 1 < (r + 1) * (r + 1),
            ;
        } else {
            assert(s == r);
            assert(s * s <= n && n < (s + 1) * (s + 1)) by (nonlinear_arith)
                requires
                    s == r,
                    r * r <= n - 1,
                    n < (r + 1) * (r + 1),
            ;
        }
    } else {
        assert(s * s <= n && n < (s + 1) * (s + 1)) by (nonlinear_arith)
            requires
                s == 0,
                n == 0,
        ;
    }
}

/// Squaring is strictly monotone on the naturals.
pub proof fn lemma_square_lt(a: nat, b: nat)
    requires
        a < b,
    ensures
        a * a < b * b,
{
    assert(a * a < b * b) by (nonlinear_arith)
        requires
            a < b,
    ;
}

/// Squaring is monotone on the naturals.
pub proof fn lemma_square_le(a: nat, b: nat)
    requires
        a <= b,
    ensures
        a * a <= b * b,
{
    assert(a * a <= b * b) by (nonlinear_arith)
        requires
            a <= b,
    ;
}

/// A product of naturals is bounded by the product of their bounds.
pub proof fn lemma_product_bound(a: nat, b: nat, a_max: nat, b_max: nat)
    requires
        a <= a_max,
        b <= b_max,
    ensures
        a * b <= a_max * b_max,
{
    assert(a * b <= a_max * b_max) by (nonlinear_arith)
        requires
            a <= a_max,
            b <= b_max,
    ;
}

/// Only one number lies between the two bounds of `lemma_floor_sqrt_bounds`.
pub proof fn lemma_floor_sqrt_unique(n: nat, r: nat)
    requires
        r * r <= n,
        n < (r + 1) * (r + 1),
    ensures
        r == floor_sqrt(n),
{
    let s = floor_sqrt(n);
    lemma_floor_sqrt_bounds(n);
    if r < s {
        lemma_square_le(r + 1, s);
    } else if s < r {
        lemma_square_le(s + 1, r);
    }
}

/// `ceil_sqrt(n)` squared is at least `n`.
pub proof fn lemma_ceil_sqrt_reaches(n: nat)
    ensures
        n <= ceil_sqrt(n) * ceil_sqrt(n),
{
    lemma_floor_sqrt_bounds(n);
}

/// No number below `ceil_sqrt(n)` has a square of at least `n`.
pub proof fn lemma_ceil_sqrt_least(n: nat, m: nat)
    requires
        n <= m * m,
    ensures
        ceil_sqrt(n) <= m,
{
    let r = floor_sqrt(n);
    lemma_floor_sqrt_bounds(n);
    if m < ceil_sqrt(n) {
        if r * r == n {
            lemma_square_lt(m, r);
        } else {
            lemma_square_le(m, r);
        }
    }
}

/// `ceil_div(n, d)` times `d` is at least `n`.
pub proof fn lemma_ceil_div_reaches(n: nat, d: nat)
    requires
        d > 0,
    ensures
        n <= ceil_div(n, d) * d,
        ceil_div(n, d) * d < n + d,
{
    let k = n / d;
    let m = n % d;
    assert(n == k * d + m && 0 <= m < d) by (nonlinear_arith)
        requires
            d > 0,
            k == n / d,
            m == n % d,
    ;
    assert((k + 1) * d == k * d + d) by (nonlinear_arith);
}

/// No multiplier below `ceil_div(n, d)` reaches `n`.
pub proof fn lemma_ceil_div_least(n: nat, d: nat, q: nat)
    requires
        d > 0,
        n <= q * d,
    ensures
        ceil_div(n, d) <= q,
{
    let k = n / d;
    let m = n % d;
    assert(n == k * d + m && 0 <= m < d) by (nonlinear_arith)
        requires
            d > 0,
            k == n / d,
            m == n % d,
    ;
    if q < ceil_div(n, d) {
        if m == 0 {
            assert(q * d < k * d) by (nonlinear_arith)
                requires
                    q < k,
                    d > 0,
            ;
        } else {
            assert(q * d <= k * d) by (nonlinear_arith)
                requires
                    q <= k,
                    d > 0,
            ;
        }
    }
}

/// Computes `floor_sqrt(n)` by bisection.
pub fn isqrt(n: u128) -> (r: u64)
    ensures
        r == floor_sqrt(n as nat),
        r * r <= n,
        n < (r + 1) * (r + 1),
{
    let mut lo: u128 = 0;
    let mut hi: u128 = 0x1_0000_0000_0000_0000;
    assert(0x1_0000_0000_0000_0000u128 * 0x1_0000_0000_0000_0000u128 > u128::MAX) by (nonlinear_arith);
    while hi - lo > 1
        invariant
            lo < hi <= 0x1_0000_0000_0000_0000,
            lo * lo <= n,
            n < hi * hi,
        decreases hi - lo,
    {
        let mid: u128 = lo + (hi - lo) / 2;
        assert(mid * mid <= u128::MAX) by (nonlinear_arith)
            requires
                mid < 0x1_0000_0000_0000_0000u128,
        ;
        if mid * mid <= n {
            lo = mid;
        } else {
            hi = mid;
        }
    }
    proof {
        lemma_floor_sqrt_unique(n as nat, lo as nat);
    }
    lo as u64
}

/// Computes `ceil_sqrt(n)`.
pub fn isqrt_ceil(n: u128) -> (r: u128)
    ensures
        r == ceil_sqrt(n as nat),
        r <= 0x1_0000_0000_0000_0000,
{
    let r: u64 = isqrt(n);
    let wide: u128 = r as u128;
    assert(wide * wide <= u128::MAX) by (nonlinear_arith)
        requires
            wide < 0x1_0000_0000_0000_0000u128,
    ;
    if wide * wide == n {
        wide
    } else {
        wide + 1
    }
}

/// Computes `ceil_div(n, d)`.
pub fn div_ceil(n: u128, d: u128) -> (q: u128)
    requires
        d > 0,
    ensures
        q == ceil_div(n as nat, d as nat),
{
    if n % d == 0 {
        n / d
    } else {
        proof {
            vstd::arithmetic::div_mod::lemma_div_is_ordered_by_denominator(n as int, 2, d as int);
        }
        n / d + 1
    }
}

} // verus!
