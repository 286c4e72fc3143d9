//! Blend weights: exact numbers between zero and one, and how they mix two
//! channel values.

use vstd::prelude::*;
use crate::roots::{
    ceil_div, ceil_sqrt, div_ceil, floor_sqrt, isqrt, isqrt_ceil, lemma_ceil_div_least,
    lemma_ceil_div_reaches, lemma_ceil_sqrt_least, lemma_ceil_sqrt_reaches,
    lemma_floor_sqrt_bounds, lemma_product_bound, lemma_square_le,
};

verus! {

/// A blend weight between zero and one, held exactly.
///
/// A weight of one keeps the first of two blended values, a weight of zero
/// the second.
#[derive(Debug, Clone, Copy, PartialEq, Eq, Structural)]
pub enum Factor {
    /// The weight `num / den`, limited to one. A zero `den` counts as one.
    Ratio { num: u32, den: u32 },
    /// The linear falloff `1 - sqrt(dist_sq) / reach`, limited to zero: one at
    /// distance zero, zero at the distance `reach` and beyond. A zero `reach`
    /// counts as zero.
    Falloff { dist_sq: u64, reach: u32 },
}

/// `first * (num / den) + second * (1 - num / den)`, rounded down.
pub open spec fn mix_ratio(first: int, second: int, num: int, den: int) -> int {
    (first * num + second * (den - num)) / den
}

/// `first * (1 - t) + second * t` for `t = sqrt(dist_sq) / reach`, rounded
/// down. The value is `first + (second - first) * t`; its floor is found
/// without leaving the integers, by moving the factor under the root.
pub open spec fn mix_falloff(first: int, second: int, dist_sq: nat, reach: nat) -> int {
    let span = ((second - first) * (second - first)) as nat;
    if second >= first {
        first + floor_sqrt((span * dist_sq) / (reach * reach))
    } else {
        first - ceil_sqrt(ceil_div(span * dist_sq, reach * reach))
    }
}

impl Factor {
    /// Whether the weight is one.
    pub open spec fn is_one(self) -> bool {
        match self {
            Factor::Ratio { num, den } => num >= den,
            Factor::Falloff { dist_sq, reach } => dist_sq == 0 && reach > 0,
        }
    }

    /// Whether the weight is zero.
    pub open spec fn is_zero(self) -> bool {
        match self {
            Factor::Ratio { num, den } => num == 0 && den > 0,
            Factor::Falloff { dist_sq, reach } => dist_sq >= reach * reach,
        }
    }

    /// `first` weighted by `self` plus `second` weighted by the rest, rounded
    /// down.
    pub open spec fn mixed(self, first: int, second: int) -> int {
        match self {
            Factor::Ratio { num, den } => if num >= den {
                first
            } else {
                mix_ratio(first, second, num as int, den as int)
            },
            Factor::Falloff { dist_sq, reach } => if dist_sq >= reach * reach {
                second
            } else {
                mix_falloff(first, second, dist_sq as nat, reach as nat)
            },
        }
    }

    /// Mixes two channel values: `first` weighted by `self`, `second` by the
    /// rest, rounded down.
    pub fn mix(self, first: u8, second: u8) -> (out: u8)
        ensures
            out == self.mixed(first as int, second as int),
    {
        proof {
            lemma_mixed_between(self, first as int, second as int);
        }
        match self {
            Factor::Ratio { num, den } => {
                if num >= den {
                    first
                } else {
                    proof {
                        lemma_product_bound(first as nat, num as nat, 255, 0xffff_ffff);
                        lemma_product_bound(second as nat, (den - num) as nat, 255, 0xffff_ffff);
                    }
                    let total: u64 = first as u64 * num as u64 + second as u64 * (den - num) as u64;
                    (total / den as u64) as u8
                }
            },
            Factor::Falloff { dist_sq, reach } => {
                proof {
                    lemma_product_bound(reach as nat, reach as nat, 0xffff_ffff, 0xffff_ffff);
                }
                let reach_sq: u128 = reach as u128 * reach as u128;
                if dist_sq as u128 >= reach_sq {
                    second
                } else if second >= first {
                    let gap: u128 = (second - first) as u128;
                    assert((second - first) * (second - first) == gap * gap);
                    assert(gap * gap <= 65025) by (nonlinear_arith)
                        requires
                            gap <= 255,
                    ;
                    assert(gap * gap * dist_sq <= 65025 * 0xffff_ffff_ffff_ffff) by (nonlinear_arith)
                        requires
                            gap * gap <= 65025,
                            dist_sq <= 0xffff_ffff_ffff_ffff,
                    ;
                    let root: u64 = isqrt((gap * gap * dist_sq as u128) / reach_sq);
                    (first as u64 + root) as u8
                } else {
                    let gap: u128 = (first - second) as u128;
                    assert((second - first) * (second - first) == gap * gap) by (nonlinear_arith)
                        requires
                            gap == first - second,
                    ;
                    assert(gap * gap <= 65025) by (nonlinear_arith)
                        requires
                            gap <= 255,
                    ;
                    assert(gap * gap * dist_sq <= 65025 * 0xffff_ffff_ffff_ffff) by (nonlinear_arith)
                        requires
                            gap * gap <= 65025,
                            dist_sq <= 0xffff_ffff_ffff_ffff,
                    ;
                    let root: u128 = isqrt_ceil(div_ceil(gap * gap * dist_sq as u128, reach_sq));
                    (first as u128 - root) as u8
                }
            },
        }
    }
}

/// A mix lies between the two values mixed.
pub proof fn lemma_mixed_between(factor: Factor, first: int, second: int)
    ensures
        first <= second ==> first <= factor.mixed(first, second) <= second,
        second <= first ==> second <= factor.mixed(first, second) <= first,
{
    match factor {
        Factor::Ratio { num, den } => {
            if num < den {
                let n = num as int;
                let d = den as int;
                let total = first * n + second * (d - n);
                if first <= second {
                    assert(first * d <= total <= second * d) by (nonlinear_arith)
                        requires
                            total == first * n + second * (d - n),
                            0 <= n < d,
                            first <= second,
                    ;
                } else {
                    assert(second * d <= total <= first * d) by (nonlinear_arith)
                        requires
                            total == first * n + second * (d - n),
                            0 <= n < d,
                            second <= first,
                    ;
                }
                lemma_div_between(total, d, first, second);
                lemma_div_between(total, d, second, first);
            }
        },
        Factor::Falloff { dist_sq, reach } => {
            if dist_sq < reach * reach {
                lemma_mix_falloff_between(first, second, dist_sq as nat, reach as nat);
            }
        },
    }
}

/// A quotient lies between two numbers whose multiples bound the dividend.
proof fn lemma_div_between(total: int, d: int, low: int, high: int)
    requires
        d > 0,
    ensures
        low * d <= total <= high * d ==> low <= total / d <= high,
{
    if low * d <= total <= high * d {
        vstd::arithmetic::div_mod::lemma_fundamental_div_mod(total, d);
        let q = total / d;
        let r = total % d;
        assert(0 <= r < d) by {
            vstd::arithmetic::div_mod::lemma_mod_bound(total, d);
        }
        assert(low <= q) by (nonlinear_arith)
            requires
                low * d <= total,
                total == d * q + r,
                0 <= r < d,
        ;
        assert(q <= high) by (nonlinear_arith)
            requires
                total <= high * d,
                total == d * q + r,
                0 <= r < d,
        ;
    }
}

/// The falloff mix lies between the two values mixed.
pub proof fn lemma_mix_falloff_between(first: int, second: int, dist_sq: nat, reach: nat)
    requires
        dist_sq < reach * reach,
    ensures
        first <= second ==> first <= mix_falloff(first, second, dist_sq, reach) <= second,
        second <= first ==> second <= mix_falloff(first, second, dist_sq, reach) <= first,
{
    let reach_sq = reach * reach;
    assert(reach_sq > 0);
    if second >= first {
        let gap = (second - first) as nat;
        let span = ((second - first) * (second - first)) as nat;
        assert(span == gap * gap);
        let inner = (span * dist_sq) / reach_sq;
        let root = floor_sqrt(inner);
        lemma_floor_sqrt_bounds(inner);
        assert(span * dist_sq <= span * reach_sq) by (nonlinear_arith)
            requires
                dist_sq < reach_sq,
                span >= 0,
        ;
        lemma_div_between((span * dist_sq) as int, reach_sq as int, 0, span as int);
        assert(0 * reach_sq == 0);
        assert(inner <= span);
        if root > gap {
            lemma_square_le(gap + 1, root);
            assert((gap + 1) * (gap + 1) > gap * gap) by (nonlinear_arith);
        }
    } else {
        let gap = (first - second) as nat;
        let span = ((second - first) * (second - first)) as nat;
        assert((second - first) * (second - first) == gap * gap) by (nonlinear_arith)
            requires
                gap == first - second,
        ;
        assert(span == gap * gap);
        assert(span * dist_sq <= span * reach_sq) by (nonlinear_arith)
            requires
                dist_sq < reach_sq,
                span >= 0,
        ;
        lemma_ceil_div_least(span * dist_sq, reach_sq, span);
        lemma_ceil_sqrt_least(ceil_div(span * dist_sq, reach_sq), gap);
    }
}

/// Mixing a value with itself gives that value, whatever the weight.
pub proof fn lemma_mixed_same(factor: Factor, value: int)
    ensures
        factor.mixed(value, value) == value,
{
    lemma_mixed_between(factor, value, value);
}

/// A weight of one keeps the first value.
pub proof fn lemma_mixed_one(factor: Factor, first: int, second: int)
    requires
        factor.is_one(),
    ensures
        factor.mixed(first, second) == first,
{
    match factor {
        Factor::Ratio { num, den } => {},
        Factor::Falloff { dist_sq, reach } => {
            let span = ((second - first) * (second - first)) as nat;
            let reach_sq = reach as nat * reach as nat;
            assert(reach_sq > 0) by (nonlinear_arith)
                requires
                    reach_sq == reach as nat * reach as nat,
                    reach > 0,
            ;
            assert(span * 0 == 0);
            assert(0nat / reach_sq == 0);
            assert(0nat % reach_sq == 0);
            assert(floor_sqrt(0) == 0);
            assert(ceil_sqrt(0) == 0);
        },
    }
}

/// A weight of zero keeps the second value.
pub proof fn lemma_mixed_zero(factor: Factor, first: int, second: int)
    requires
        factor.is_zero(),
    ensures
        factor.mixed(first, second) == second,
{
    match factor {
        Factor::Ratio { num, den } => {
            assert(first * 0 + second * (den - 0) == second * den);
            lemma_div_between(second * den, den as int, second, second);
        },
        Factor::Falloff { dist_sq, reach } => {},
    }
}

/// The falloff mix is the floor of `first + (second - first) * t` for
/// `t = sqrt(dist_sq) / reach`. With `m` for the mix and `I` for `reach`:
/// going up, `(m - first) * I <= (second - first) * sqrt(dist_sq)
/// < (m + 1 - first) * I`; going down, `(first - m - 1) * I
/// < (first - second) * sqrt(dist_sq) <= (first - m) * I`. Both are stated
/// here with every side squared.
pub proof fn lemma_mix_falloff_is_floor(first: int, second: int, dist_sq: nat, reach: nat)
    requires
        dist_sq < reach * reach,
    ensures
        ({
            let m = mix_falloff(first, second, dist_sq, reach);
            let span = (second - first) * (second - first);
            let up = m - first;
            let down = first - m;
            if second >= first {
                &&& up >= 0
                &&& (up * up) * (reach * reach) <= span * dist_sq
                &&& span * dist_sq < ((up + 1) * (up + 1)) * (reach * reach)
            } else {
                &&& down >= 0
                &&& span * dist_sq <= (down * down) * (reach * reach)
                &&& down > 0 ==> ((down - 1) * (down - 1)) * (reach * reach) < span * dist_sq
            }
        }),
{
    let m = mix_falloff(first, second, dist_sq, reach);
    let span = ((second - first) * (second - first)) as nat;
    assert((second - first) * (second - first) >= 0) by (nonlinear_arith);
    let reach_sq = reach * reach;
    let scaled = span * dist_sq;
    let q = scaled / reach_sq;
    let r = scaled % reach_sq;
    assert(scaled == q * reach_sq + r && 0 <= r < reach_sq) by (nonlinear_arith)
        requires
            reach_sq > 0,
            q == scaled / reach_sq,
            r == scaled % reach_sq,
    ;
    if second >= first {
        let up = floor_sqrt(q);
        lemma_floor_sqrt_bounds(q);
        assert(m - first == up);
        assert((up * up) * reach_sq <= scaled) by (nonlinear_arith)
            requires
                up * up <= q,
                scaled == q * reach_sq + r,
                r >= 0,
                reach_sq > 0,
        ;
        assert(scaled < ((up + 1) * (up + 1)) * reach_sq) by (nonlinear_arith)
            requires
                q + 1 <= (up + 1) * (up + 1),
                scaled == q * reach_sq + r,
                r < reach_sq,
                reach_sq > 0,
        ;
    } else {
        let c = ceil_div(scaled, reach_sq);
        let down = ceil_sqrt(c);
        assert(first - m == down);
        lemma_ceil_div_reaches(scaled, reach_sq);
        lemma_ceil_sqrt_reaches(c);
        assert(scaled <= (down * down) * reach_sq) by (nonlinear_arith)
            requires
                scaled <= c * reach_sq,
                c <= down * down,
                reach_sq > 0,
        ;
        if down > 0 {
            let below = (down - 1) as nat;
            if scaled <= (below * below) * reach_sq {
                lemma_ceil_div_least(scaled, reach_sq, below * below);
                lemma_ceil_sqrt_least(c, below);
            }
        }
    }
}

} // verus!
