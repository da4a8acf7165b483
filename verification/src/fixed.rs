//! Fixed-point scalar arithmetic.
//!
//! A scalar value `v` is stored as the `i64` holding `v * SCALE`, so `SCALE`
//! itself stands for `1.0`. Products and quotients round toward negative
//! infinity (floor rounding), which matches the mathematical `/` of the
//! specifications directly.

use vstd::prelude::*;
use vstd::arithmetic::div_mod::{
    lemma_div_is_ordered, lemma_div_nonincreasing, lemma_div_pos_is_pos,
    lemma_fundamental_div_mod, lemma_mod_division_less_than_divisor,
};

verus! {

/// Denominator of the fixed-point representation: `SCALE` stands for `1.0`.
pub const SCALE: i64 = 1024;

/// The fixed-point product of `a` and `b`: `a * b / SCALE`, floor-rounded.
pub open spec fn mul_fp(a: int, b: int) -> int {
    (a * b) / (SCALE as int)
}

/// The fixed-point quotient of `a` by `b`: `a * SCALE / b`, floor-rounded.
pub open spec fn div_fp(a: int, b: int) -> int
    recommends
        b >= 1,
{
    (a * (SCALE as int)) / b
}

/// `x` forced into the interval `[lo, hi]`.
pub open spec fn clamp_spec(x: int, lo: int, hi: int) -> int {
    if x < lo {
        lo
    } else if x > hi {
        hi
    } else {
        x
    }
}

/// `x` with negative values replaced by zero.
pub open spec fn max0(x: int) -> int {
    if x < 0 {
        0
    } else {
        x
    }
}

/// `r` is the floor of the real square root of `n`.
pub open spec fn is_sqrt_floor(n: int, r: int) -> bool {
    0 <= r && r * r <= n && n < (r + 1) * (r + 1)
}

/// The floor of the real square root of `n` (meaningful for `n >= 0`).
pub open spec fn sqrt_floor(n: int) -> int
    recommends
        n >= 0,
{
    choose|r: int| is_sqrt_floor(n, r)
}

/// At most one integer is the floor of the square root of `n`, so any
/// witness pins `sqrt_floor(n)` down.
pub proof fn lemma_sqrt_floor_unique(n: int, w: int)
    requires
        is_sqrt_floor(n, w),
    ensures
        sqrt_floor(n) == w,
{
    assert(exists|r: int| is_sqrt_floor(n, r));
    let c = sqrt_floor(n);
    assert(is_sqrt_floor(n, c));
    if c < w {
        assert((c + 1) * (c + 1) <= w * w) by (nonlinear_arith)
            requires
                0 <= c + 1 <= w,
        ;
    }
    if w < c {
        assert((w + 1) * (w + 1) <= c * c) by (nonlinear_arith)
            requires
                0 <= w + 1 <= c,
        ;
    }
}

/// Floor division by a positive divisor never moves a value past zero or
/// past itself, so the quotient stays between the dividend and zero.
pub proof fn lemma_div_floor_in_range(p: int, q: int)
    requires
        1 <= q,
    ensures
        p >= 0 ==> 0 <= p / q <= p,
        p < 0 ==> p <= p / q <= 0,
{
    lemma_fundamental_div_mod(p, q);
    lemma_mod_division_less_than_divisor(p, q);
    if p >= 0 {
        lemma_div_pos_is_pos(p, q);
        lemma_div_nonincreasing(p, q);
    } else {
        let t = p / q;
        let r = p % q;
        assert(t <= 0 && p <= t) by (nonlinear_arith)
            requires
                p == q * t + r,
                0 <= r < q,
                1 <= q,
                p < 0,
        ;
    }
}

/// Componentwise bounds on the factors bound both the plain product and the
/// fixed-point product.
pub proof fn lemma_mul_fp_bound(a: int, b: int, ba: int, bb: int)
    requires
        -ba <= a <= ba,
        -bb <= b <= bb,
        0 <= ba,
        0 <= bb,
    ensures
        -(ba * bb) <= a * b <= ba * bb,
        -(ba * bb) / (SCALE as int) <= mul_fp(a, b) <= (ba * bb) / (SCALE as int),
{
    assert(-(ba * bb) <= a * b <= ba * bb) by (nonlinear_arith)
        requires
            -ba <= a <= ba,
            -bb <= b <= bb,
            0 <= ba,
            0 <= bb,
    ;
    lemma_div_is_ordered(-(ba * bb), a * b, SCALE as int);
    lemma_div_is_ordered(a * b, ba * bb, SCALE as int);
}

/// Dividing by a larger positive divisor moves the quotient toward zero.
pub proof fn lemma_div_grows_denominator(p: int, d1: int, d2: int)
    requires
        1 <= d1 <= d2,
    ensures
        p >= 0 ==> 0 <= p / d2 <= p / d1,
        p < 0 ==> p / d1 <= p / d2 <= 0,
{
    lemma_div_floor_in_range(p, d1);
    lemma_div_floor_in_range(p, d2);
    lemma_fundamental_div_mod(p, d1);
    lemma_fundamental_div_mod(p, d2);
    lemma_mod_division_less_than_divisor(p, d1);
    lemma_mod_division_less_than_divisor(p, d2);
    let t1 = p / d1;
    let r1 = p % d1;
    let t2 = p / d2;
    let r2 = p % d2;
    if p >= 0 {
        assert(t2 <= t1) by (nonlinear_arith)
            requires
                p == d1 * t1 + r1,
                p == d2 * t2 + r2,
                0 <= r1 < d1,
                0 <= r2 < d2,
                1 <= d1 <= d2,
                0 <= t1,
                0 <= t2,
        ;
    } else {
        assert(t1 <= t2) by (nonlinear_arith)
            requires
                p == d1 * t1 + r1,
                p == d2 * t2 + r2,
                0 <= r1 < d1,
                0 <= r2 < d2,
                1 <= d1 <= d2,
                t1 <= 0,
                t2 <= 0,
                p < 0,
        ;
    }
}

/// For nonnegative factors the fixed-point product stays nonnegative and
/// below the product of the bounds.
pub proof fn lemma_mul_fp_bound_nn(a: int, b: int, ba: int, bb: int)
    requires
        0 <= a <= ba,
        0 <= b <= bb,
    ensures
        0 <= a * b <= ba * bb,
        0 <= mul_fp(a, b) <= (ba * bb) / (SCALE as int),
{
    assert(0 <= a * b <= ba * bb) by (nonlinear_arith)
        requires
            0 <= a <= ba,
            0 <= b <= bb,
    ;
    lemma_div_floor_in_range(a * b, SCALE as int);
    lemma_div_is_ordered(a * b, ba * bb, SCALE as int);
}

/// Floor division of an `i64` by a positive divisor; the result is the
/// mathematical `p / q`.
pub fn div_floor(p: i64, q: i64) -> (r: i64)
    requires
        1 <= q,
    ensures
        r as int == p as int / q as int,
{
    proof {
        lemma_div_floor_in_range(p as int, q as int);
    }
    match p.checked_div_euclid(q) {
        Some(r) => r,
        None => {
            proof {
                assert(false);
            }
            0
        },
    }
}

/// Fixed-point multiplication.
pub fn fp_mul(a: i64, b: i64) -> (r: i64)
    requires
        i64::MIN <= a as int * b as int <= i64::MAX,
    ensures
        r as int == mul_fp(a as int, b as int),
{
    let p: i64 = a * b;
    div_floor(p, SCALE)
}

/// Fixed-point division by a positive value.
pub fn fp_div(a: i64, b: i64) -> (r: i64)
    requires
        1 <= b,
        i64::MIN <= a as int * SCALE as int <= i64::MAX,
    ensures
        r as int == div_fp(a as int, b as int),
{
    let p: i64 = a * SCALE;
    div_floor(p, b)
}

/// `x` forced into the interval `[lo, hi]`.
pub fn clamp_i64(x: i64, lo: i64, hi: i64) -> (r: i64)
    requires
        lo <= hi,
    ensures
        r as int == clamp_spec(x as int, lo as int, hi as int),
{
    if x < lo {
        lo
    } else if x > hi {
        hi
    } else {
        x
    }
}

/// Floor of the square root of `n`, by binary search on the answer.
pub fn isqrt(n: u64) -> (r: u64)
    ensures
        is_sqrt_floor(n as int, r as int),
        r as int == sqrt_floor(n as int),
{
    let mut lo: u64 = 0;
    let mut hi: u64 = 4294967296;
    proof {
        assert((hi as int) * (hi as int) > n as int) by (nonlinear_arith)
            requires
                hi == 4294967296u64,
                n <= 0xffff_ffff_ffff_ffffu64,
        ;
    }
    while lo + 1 < hi
        invariant
            lo < hi <= 4294967296,
            (lo as int) * (lo as int) <= n as int,
            (n as int) < (hi as int) * (hi as int),
        decreases hi - lo,
    {
        let mid: u64 = lo + (hi - lo) / 2;
        proof {
            assert((mid as int) * (mid as int) <= 0x1_0000_0000_0000_0000) by (nonlinear_arith)
                requires
                    0 <= mid <= 4294967296u64,
            ;
        }
        if (mid as u128) * (mid as u128) <= (n as u128) {
            lo = mid;
        } else {
            hi = mid;
        }
    }
    proof {
        lemma_sqrt_floor_unique(n as int, lo as int);
    }
    lo
}

} // verus!
