//! Three-component vectors of fixed-point scalars, used both as points and
//! as directions.

use vstd::prelude::*;
use crate::fixed::{
    clamp_i64, clamp_spec, div_fp, fp_div, isqrt, lemma_div_floor_in_range, lemma_mul_fp_bound,
    mul_fp, sqrt_floor, SCALE,
};

verus! {

/// Bound on the raw value of a scene coordinate (camera position, sphere
/// centers, radius): 256.0 in scalar units. Keeping every coordinate inside
/// this range keeps all intermediate products of the intersection and
/// shading arithmetic inside `i64`.
pub const COORD_MAX: i64 = 262144;

/// Bound on the raw components of a direction that has gone through
/// `normalize`: 4.0 in scalar units.
pub const DIR_MAX: i64 = 4096;

/// Bound on the raw components `normalize` accepts: 16384.0 in scalar units.
pub const NORM_IN_MAX: i64 = 16777216;

/// A vector (or point) with fixed-point components.
#[derive(Clone, Copy, PartialEq, Eq, Structural, Debug)]
pub struct Vec3 {
    pub x: i64,
    pub y: i64,
    pub z: i64,
}

/// The mathematical value of a vector: its raw components as integers.
pub open spec fn v3(v: Vec3) -> (int, int, int) {
    (v.x as int, v.y as int, v.z as int)
}

/// Componentwise difference.
pub open spec fn s_sub(u: (int, int, int), v: (int, int, int)) -> (int, int, int) {
    (u.0 - v.0, u.1 - v.1, u.2 - v.2)
}

/// Componentwise negation.
pub open spec fn s_neg(u: (int, int, int)) -> (int, int, int) {
    (-u.0, -u.1, -u.2)
}

/// Fixed-point dot product.
pub open spec fn s_dot(u: (int, int, int), v: (int, int, int)) -> int {
    mul_fp(u.0, v.0) + mul_fp(u.1, v.1) + mul_fp(u.2, v.2)
}

/// Every component of `u` lies in `[-m, m]`.
pub open spec fn s_bounded(u: (int, int, int), m: int) -> bool {
    &&& -m <= u.0 <= m
    &&& -m <= u.1 <= m
    &&& -m <= u.2 <= m
}

/// The normalization of `u`: each component divided by the fixed-point
/// length of `u`. A degenerate vector whose length rounds to zero
/// normalizes to the zero vector, and each output component is defensively
/// clamped to `[-DIR_MAX, DIR_MAX]`; both cases stand in for the undefined
/// result a division by zero would otherwise produce.
pub open spec fn s_normalize(u: (int, int, int)) -> (int, int, int) {
    let len = sqrt_floor(s_dot(u, u) * (SCALE as int));
    if len <= 0 {
        (0, 0, 0)
    } else {
        (
            clamp_spec(div_fp(u.0, len), -DIR_MAX as int, DIR_MAX as int),
            clamp_spec(div_fp(u.1, len), -DIR_MAX as int, DIR_MAX as int),
            clamp_spec(div_fp(u.2, len), -DIR_MAX as int, DIR_MAX as int),
        )
    }
}

/// Componentwise bounds on two vectors bound their dot product.
pub proof fn lemma_s_dot_bound(u: (int, int, int), v: (int, int, int), bu: int, bv: int)
    requires
        s_bounded(u, bu),
        s_bounded(v, bv),
        0 <= bu,
        0 <= bv,
    ensures
        3 * ((-(bu * bv)) / (SCALE as int)) <= s_dot(u, v) <= 3 * ((bu * bv) / (SCALE as int)),
{
    lemma_mul_fp_bound(u.0, v.0, bu, bv);
    lemma_mul_fp_bound(u.1, v.1, bu, bv);
    lemma_mul_fp_bound(u.2, v.2, bu, bv);
}

/// Componentwise difference of two vectors.
pub fn vsub(u: Vec3, v: Vec3) -> (r: Vec3)
    requires
        i64::MIN <= u.x - v.x <= i64::MAX,
        i64::MIN <= u.y - v.y <= i64::MAX,
        i64::MIN <= u.z - v.z <= i64::MAX,
    ensures
        v3(r) == s_sub(v3(u), v3(v)),
{
    Vec3 { x: u.x - v.x, y: u.y - v.y, z: u.z - v.z }
}

/// Componentwise negation of a vector.
pub fn vneg(u: Vec3) -> (r: Vec3)
    requires
        u.x > i64::MIN,
        u.y > i64::MIN,
        u.z > i64::MIN,
    ensures
        v3(r) == s_neg(v3(u)),
{
    Vec3 { x: -u.x, y: -u.y, z: -u.z }
}

/// Fixed-point dot product of two vectors.
pub fn vdot(u: Vec3, v: Vec3) -> (r: i64)
    requires
        s_bounded(v3(u), 33554432),
        s_bounded(v3(v), 33554432),
    ensures
        r as int == s_dot(v3(u), v3(v)),
{
    proof {
        lemma_mul_fp_bound(u.x as int, v.x as int, 33554432, 33554432);
        lemma_mul_fp_bound(u.y as int, v.y as int, 33554432, 33554432);
        lemma_mul_fp_bound(u.z as int, v.z as int, 33554432, 33554432);
    }
    let px = crate::fixed::fp_mul(u.x, v.x);
    let py = crate::fixed::fp_mul(u.y, v.y);
    let pz = crate::fixed::fp_mul(u.z, v.z);
    px + py + pz
}

/// Normalize a vector to (fixed-point) unit length, with the defensive
/// degenerate-vector treatment `s_normalize` states.
pub fn normalize(u: Vec3) -> (r: Vec3)
    requires
        s_bounded(v3(u), NORM_IN_MAX as int),
    ensures
        v3(r) == s_normalize(v3(u)),
        s_bounded(v3(r), DIR_MAX as int),
{
    let q = vdot(u, u);
    proof {
        lemma_mul_fp_bound(u.x as int, u.x as int, NORM_IN_MAX as int, NORM_IN_MAX as int);
        lemma_mul_fp_bound(u.y as int, u.y as int, NORM_IN_MAX as int, NORM_IN_MAX as int);
        lemma_mul_fp_bound(u.z as int, u.z as int, NORM_IN_MAX as int, NORM_IN_MAX as int);
        lemma_div_floor_in_range(u.x as int * u.x as int, SCALE as int);
        lemma_div_floor_in_range(u.y as int * u.y as int, SCALE as int);
        lemma_div_floor_in_range(u.z as int * u.z as int, SCALE as int);
        assert(0 <= u.x as int * u.x as int) by (nonlinear_arith);
        assert(0 <= u.y as int * u.y as int) by (nonlinear_arith);
        assert(0 <= u.z as int * u.z as int) by (nonlinear_arith);
    }
    let qs: i64 = q * SCALE;
    let len_u: u64 = isqrt(qs as u64);
    proof {
        if len_u as int > 0x8000_0000 {
            assert((len_u as int) * (len_u as int) > qs as int) by (nonlinear_arith)
                requires
                    len_u as int > 0x8000_0000,
                    qs as int <= 0x4000_0000_0000_0000,
            ;
        }
    }
    let len: i64 = len_u as i64;
    if len <= 0 {
        Vec3 { x: 0, y: 0, z: 0 }
    } else {
        Vec3 {
            x: clamp_i64(fp_div(u.x, len), -DIR_MAX, DIR_MAX),
            y: clamp_i64(fp_div(u.y, len), -DIR_MAX, DIR_MAX),
            z: clamp_i64(fp_div(u.z, len), -DIR_MAX, DIR_MAX),
        }
    }
}

} // verus!
