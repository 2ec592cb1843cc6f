//! Fixed-point arithmetic for the simulation.
//!
//! A pixel-space quantity `q` (a coordinate, a velocity, a radius) is stored
//! as the integer `q * FP_SCALE` in an `i64`. Scaling a value by a rational
//! factor `num / den` is done on the magnitude with the sign reapplied, so
//! that the executable truncating division and the mathematical (Euclidean)
//! division agree.

use vstd::prelude::*;

verus! {

use vstd::arithmetic::div_mod::{
    lemma_div_is_ordered, lemma_div_nonincreasing, lemma_div_pos_is_pos,
    lemma_div_by_multiple,
};
use vstd::arithmetic::mul::{lemma_mul_inequality, lemma_mul_upper_bound};

/// One fixed-point unit is `1 / FP_SCALE` of a pixel.
pub const FP_SCALE: i64 = 1000;

/// Largest coordinate magnitude the simulation tracks, in fixed-point units.
pub const POS_LIMIT: i64 = 1_000_000_000_000;

/// Largest velocity magnitude, in fixed-point units per frame.
pub const VEL_LIMIT: i64 = 1_000_000_000;

/// Largest ball radius, in fixed-point units.
pub const RADIUS_LIMIT: i64 = 1_000_000;

/// Largest number of frames a single integration step may span.
pub const DT_LIMIT: u32 = 1_000_000;

/// Largest numerator or denominator of a scaling fraction.
pub const FRAC_LIMIT: i64 = 2_000;

/// Largest magnitude `scale_fp` accepts, chosen so that the product with a
/// numerator up to `FRAC_LIMIT` stays within `i64`.
pub const SCALE_ARG_LIMIT: i64 = 1_000_000_000_000_000;

/// `x` clamped into `[-limit, limit]`.
pub open spec fn clamp_sp(x: int, limit: int) -> int {
    if x < -limit {
        -limit
    } else if x > limit {
        limit
    } else {
        x
    }
}

/// `v` scaled by `num / den`: the magnitude is multiplied, divided rounding
/// toward zero, and the sign reapplied.
pub open spec fn scale_sp(v: int, num: int, den: int) -> int
    recommends
        1 <= den,
        0 <= num,
{
    if v >= 0 {
        (v * num) / den
    } else {
        -((-v * num) / den)
    }
}

/// The grid cell that contains the fixed-point coordinate `p`, for cells of
/// size `tile_fp`; negative coordinates saturate to cell 0.
pub open spec fn cell_sp(p: int, tile_fp: int) -> int
    recommends
        1 <= tile_fp,
{
    if p < 0 {
        0
    } else {
        p / tile_fp
    }
}

/// `x` clamped into `[-limit, limit]`.
pub fn clamp_fp(x: i64, limit: i64) -> (r: i64)
    requires
        0 <= limit,
    ensures
        r == clamp_sp(x as int, limit as int),
        -limit <= r <= limit,
{
    if x < -limit {
        -limit
    } else if x > limit {
        limit
    } else {
        x
    }
}

/// `v` scaled by `num / den` in sign-magnitude fashion.
pub fn scale_fp(v: i64, num: i64, den: i64) -> (r: i64)
    requires
        1 <= den,
        0 <= num <= FRAC_LIMIT,
        -SCALE_ARG_LIMIT <= v <= SCALE_ARG_LIMIT,
    ensures
        r == scale_sp(v as int, num as int, den as int),
        v >= 0 ==> 0 <= r,
        v < 0 ==> r <= 0,
        num <= den ==> (if v >= 0 { r <= v } else { v <= r }),
{
    if v >= 0 {
        proof {
            lemma_mul_upper_bound(v as int, SCALE_ARG_LIMIT as int, num as int, FRAC_LIMIT as int);
        }
        let p = v * num;
        let r = p / den;
        proof {
            lemma_div_pos_is_pos(p as int, den as int);
            if num <= den {
                lemma_mul_inequality(num as int, den as int, v as int);
                lemma_div_is_ordered(v as int * num as int, v as int * den as int, den as int);
                lemma_div_by_multiple(v as int, den as int);
            }
        }
        r
    } else {
        let m = -v;
        proof {
            lemma_mul_upper_bound(m as int, SCALE_ARG_LIMIT as int, num as int, FRAC_LIMIT as int);
        }
        let p = m * num;
        let q = p / den;
        proof {
            lemma_div_pos_is_pos(p as int, den as int);
            if num <= den {
                lemma_mul_inequality(num as int, den as int, m as int);
                lemma_div_is_ordered(m as int * num as int, m as int * den as int, den as int);
                lemma_div_by_multiple(m as int, den as int);
            }
        }
        -q
    }
}

/// Scaling by a fraction equal to one returns the value unchanged.
pub proof fn lemma_scale_identity(v: int, den: int)
    requires
        1 <= den,
    ensures
        scale_sp(v, den, den) == v,
{
    if v >= 0 {
        lemma_div_by_multiple(v, den);
    } else {
        lemma_div_by_multiple(-v, den);
    }
}

/// Scaling by a fraction at most one never grows the magnitude.
pub proof fn lemma_scale_shrinks(v: int, num: int, den: int)
    requires
        1 <= den,
        0 <= num <= den,
    ensures
        v >= 0 ==> 0 <= scale_sp(v, num, den) <= v,
        v < 0 ==> v <= scale_sp(v, num, den) <= 0,
{
    if v >= 0 {
        lemma_div_pos_is_pos(v * num, den);
        lemma_mul_inequality(num, den, v);
        lemma_div_is_ordered(v * num, v * den, den);
        lemma_div_by_multiple(v, den);
    } else {
        lemma_div_pos_is_pos(-v * num, den);
        lemma_mul_inequality(num, den, -v);
        lemma_div_is_ordered(-v * num, -v * den, den);
        lemma_div_by_multiple(-v, den);
    }
}

/// The grid cell that contains coordinate `p`; negative coordinates saturate
/// to cell 0.
pub fn cell_fp(p: i64, tile_fp: i64) -> (r: usize)
    requires
        FP_SCALE <= tile_fp,
        p <= 2 * POS_LIMIT,
    ensures
        r == cell_sp(p as int, tile_fp as int),
{
    if p < 0 {
        0
    } else {
        let c = p / tile_fp;
        proof {
            lemma_div_pos_is_pos(p as int, tile_fp as int);
            lemma_div_is_ordered(p as int, 2 * POS_LIMIT as int, tile_fp as int);
            lemma_div_nonincreasing(2 * POS_LIMIT as int, tile_fp as int);
            assert((2 * POS_LIMIT as int) / tile_fp as int <= (2 * POS_LIMIT as int) / FP_SCALE as int) by {
                vstd::arithmetic::div_mod::lemma_div_is_ordered_by_denominator(
                    2 * POS_LIMIT as int, FP_SCALE as int, tile_fp as int);
            }
        }
        c as usize
    }
}

/// `p` clamped into `[lo, hi]`.
pub open spec fn clamp_to_sp(p: int, lo: int, hi: int) -> int {
    if p < lo {
        lo
    } else if p > hi {
        hi
    } else {
        p
    }
}

/// `p` clamped into `[lo, hi]`.
pub fn clamp_to(p: i64, lo: i64, hi: i64) -> (r: i64)
    requires
        lo <= hi,
    ensures
        r == clamp_to_sp(p as int, lo as int, hi as int),
{
    if p < lo {
        lo
    } else if p > hi {
        hi
    } else {
        p
    }
}

/// The magnitude of `v`.
pub fn abs_fp(v: i64) -> (r: i64)
    requires
        i64::MIN < v,
    ensures
        r == vstd::math::abs(v as int),
{
    if v < 0 {
        -v
    } else {
        v
    }
}

/// `v * m / d` in sign-magnitude fashion, for a small `v` and a large
/// non-negative `m`; the result never exceeds `m` in magnitude when `|v|`
/// stays within `d`.
pub fn muldiv_fp(v: i64, m: i64, d: i64) -> (r: i64)
    requires
        1 <= d,
        0 <= m <= 2_000_000_000_000,
        -4_000_000 <= v <= 4_000_000,
    ensures
        r == scale_sp(v as int, m as int, d as int),
        -d <= v <= d ==> -m <= r <= m,
{
    if v >= 0 {
        proof {
            lemma_mul_upper_bound(v as int, 4_000_000, m as int, 2_000_000_000_000);
        }
        let p = v * m;
        let r = p / d;
        proof {
            lemma_div_pos_is_pos(p as int, d as int);
            if v <= d {
                lemma_mul_inequality(v as int, d as int, m as int);
                lemma_div_is_ordered(v as int * m as int, d as int * m as int, d as int);
                lemma_div_by_multiple(m as int, d as int);
                assert(d as int * m as int == m as int * d as int);
            }
        }
        r
    } else {
        let w = -v;
        proof {
            lemma_mul_upper_bound(w as int, 4_000_000, m as int, 2_000_000_000_000);
        }
        let p = w * m;
        let q = p / d;
        proof {
            lemma_div_pos_is_pos(p as int, d as int);
            if w <= d {
                lemma_mul_inequality(w as int, d as int, m as int);
                lemma_div_is_ordered(w as int * m as int, d as int * m as int, d as int);
                lemma_div_by_multiple(m as int, d as int);
                assert(d as int * m as int == m as int * d as int);
            }
        }
        -q
    }
}

/// The integer square root as a mathematical function: the largest `r` with
/// `r * r <= n`.
pub open spec fn isqrt_sp(n: nat) -> nat
    decreases n,
{
    if n == 0 {
        0
    } else {
        let r = isqrt_sp((n - 1) as nat);
        if (r + 1) * (r + 1) <= n {
            r + 1
        } else {
            r
        }
    }
}

/// `isqrt_sp(n)` is sandwiched between the two neighbouring squares.
pub proof fn lemma_isqrt_bounds(n: nat)
    ensures
        isqrt_sp(n) * isqrt_sp(n) <= n,
        n < (isqrt_sp(n) + 1) * (isqrt_sp(n) + 1),
    decreases n,
{
    if n > 0 {
        lemma_isqrt_bounds((n - 1) as nat);
        let r = isqrt_sp((n - 1) as nat);
        if (r + 1) * (r + 1) <= n {
            assert(isqrt_sp(n) == r + 1);
            assert((r + 2) * (r + 2) > (r + 1) * (r + 1)) by (nonlinear_arith)
                requires
                    0 <= r,
            ;
        } else {
            assert(isqrt_sp(n) == r);
        }
    } else {
        assert(isqrt_sp(n) == 0);
        assert(isqrt_sp(n) * isqrt_sp(n) == 0) by (nonlinear_arith)
            requires
                isqrt_sp(n) == 0,
        ;
        assert((isqrt_sp(n) + 1) * (isqrt_sp(n) + 1) == 1) by (nonlinear_arith)
            requires
                isqrt_sp(n) == 0,
        ;
    }
}

/// Any `r` sandwiched between the neighbouring squares of `n` is the
/// integer square root of `n`.
pub proof fn lemma_isqrt_unique(n: nat, r: nat)
    requires
        r * r <= n,
        n < (r + 1) * (r + 1),
    ensures
        r == isqrt_sp(n),
{
    lemma_isqrt_bounds(n);
    lemma_root_dominates(r as int, isqrt_sp(n) as int, n as int);
    lemma_root_dominates(isqrt_sp(n) as int, r as int, n as int);
}

/// Integer square root: the largest `r` with `r * r <= n`.
pub fn isqrt64(n: u64) -> (r: u64)
    ensures
        r * r <= n,
        n < (r + 1) * (r + 1),
        r == isqrt_sp(n as nat),
{
    let mut lo: u64 = 0;
    let mut hi: u64 = 4_294_967_296;
    proof {
        assert((4_294_967_296int) * (4_294_967_296int) > u64::MAX) by (nonlinear_arith);
    }
    while lo + 1 < hi
        invariant
            lo < hi <= 4_294_967_296,
            lo * lo <= n,
            n < hi * hi,
        decreases hi - lo,
    {
        let mid = lo + (hi - lo) / 2;
        proof {
            assert(lo < mid < hi);
            assert(mid * mid <= (4_294_967_295int) * (4_294_967_295int)) by {
                lemma_mul_inequality(mid as int, 4_294_967_295int, mid as int);
                lemma_mul_inequality(mid as int, 4_294_967_295int, 4_294_967_295int);
            }
            assert((4_294_967_295int) * (4_294_967_295int) <= u64::MAX) by (nonlinear_arith);
        }
        if mid * mid <= n {
            lo = mid;
        } else {
            hi = mid;
        }
    }
    proof {
        lemma_isqrt_unique(n as nat, lo as nat);
    }
    lo
}

/// The square root never exceeds the root of a square: if `m * m <= n` then
/// `m <= isqrt64(n)`; stated through the contract of `isqrt64`.
pub proof fn lemma_root_dominates(m: int, r: int, n: int)
    requires
        0 <= m,
        0 <= r,
        m * m <= n,
        n < (r + 1) * (r + 1),
    ensures
        m <= r,
{
    if m > r {
        lemma_mul_inequality(r + 1, m, r + 1);
        lemma_mul_inequality(r + 1, m, m);
    }
}

} // verus!
