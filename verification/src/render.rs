//! Ray-sphere intersection: the quadratic-formula hit test at the heart of
//! the caster.
//!
//! Substituting the parametric ray `P(t) = cam + t * dir` into the sphere
//! equation `|P - center|^2 = radius^2` gives the quadratic
//! `a*t^2 + b*t + c = 0` whose coefficients and discriminant are spelled out
//! below in fixed-point arithmetic.

use vstd::prelude::*;
use vstd::arithmetic::div_mod::lemma_div_multiples_vanish;
use crate::fixed::{
    clamp_spec, div_fp, fp_div, fp_mul, is_sqrt_floor, isqrt, lemma_div_floor_in_range,
    lemma_mul_fp_bound, lemma_mul_fp_bound_nn, lemma_sqrt_floor_unique, max0, mul_fp, sqrt_floor,
    SCALE,
};
use crate::vec3::{
    lemma_s_dot_bound, s_bounded, s_dot, s_neg, s_normalize, s_sub, v3, vdot, vsub, Vec3,
    COORD_MAX, DIR_MAX,
};

verus! {

/// Upper bound on an accepted hit distance (raw value, 2048.0 in scalar
/// units). Every point of every well-formed scene lies far closer to the
/// camera than this, so the cap only discards degenerate distances, in the
/// same defensive spirit as treating a non-finite distance as a miss.
pub const T_MAX: i64 = 2097152;

/// The quadratic coefficient `a = dir . dir`.
pub open spec fn a_of(dir: (int, int, int)) -> int {
    s_dot(dir, dir)
}

/// The quadratic coefficient `b = 2 * (oc . dir)`, with `oc = cam - center`.
pub open spec fn b_of(center: (int, int, int), cam: (int, int, int), dir: (int, int, int)) -> int {
    2 * s_dot(s_sub(cam, center), dir)
}

/// The quadratic coefficient `c = oc . oc - radius^2`.
pub open spec fn c_of(center: (int, int, int), cam: (int, int, int), radius: int) -> int {
    s_dot(s_sub(cam, center), s_sub(cam, center)) - mul_fp(radius, radius)
}

/// The discriminant `b^2 - 4*a*c`; the ray meets the sphere exactly when it
/// is nonnegative.
pub open spec fn disc_of(
    center: (int, int, int),
    cam: (int, int, int),
    dir: (int, int, int),
    radius: int,
) -> int {
    let a = a_of(dir);
    let b = b_of(center, cam, dir);
    let c = c_of(center, cam, radius);
    mul_fp(b, b) - 4 * mul_fp(a, c)
}

/// The smaller quadratic root `(-b - sqrt(disc)) / (2a)`.
pub open spec fn t1_of(
    center: (int, int, int),
    cam: (int, int, int),
    dir: (int, int, int),
    radius: int,
) -> int {
    let a = a_of(dir);
    let b = b_of(center, cam, dir);
    let sq = sqrt_floor(disc_of(center, cam, dir, radius) * (SCALE as int));
    div_fp(-b - sq, 2 * a)
}

/// The larger quadratic root `(-b + sqrt(disc)) / (2a)`.
pub open spec fn t2_of(
    center: (int, int, int),
    cam: (int, int, int),
    dir: (int, int, int),
    radius: int,
) -> int {
    let a = a_of(dir);
    let b = b_of(center, cam, dir);
    let sq = sqrt_floor(disc_of(center, cam, dir, radius) * (SCALE as int));
    div_fp(-b + sq, 2 * a)
}

/// The hit distance of a ray against one sphere: the smaller root that is
/// nonnegative, or nothing when the discriminant is negative, when both
/// roots lie behind the camera, or in the degenerate cases (a direction of
/// zero length, a distance beyond `T_MAX`) that are defensively treated as
/// a miss.
pub open spec fn calc_t_spec(
    center: (int, int, int),
    cam: (int, int, int),
    dir: (int, int, int),
    radius: int,
) -> Option<int> {
    let a = a_of(dir);
    if a <= 0 {
        None
    } else if disc_of(center, cam, dir, radius) < 0 {
        None
    } else {
        let t1 = t1_of(center, cam, dir, radius);
        let t2 = t2_of(center, cam, dir, radius);
        let t = if t1 >= 0 {
            t1
        } else {
            t2
        };
        if 0 <= t <= T_MAX as int {
            Some(t)
        } else {
            None
        }
    }
}

/// The executable option mirrors the mathematical one.
pub open spec fn opt_eq(r: Option<i64>, s: Option<int>) -> bool {
    match r {
        Some(t) => s == Some(t as int),
        None => s is None,
    }
}

/// A ray whose discriminant against a sphere is negative misses it: no
/// distance is reported.
pub proof fn lemma_miss_when_discriminant_negative(
    center: (int, int, int),
    cam: (int, int, int),
    dir: (int, int, int),
    radius: int,
)
    requires
        disc_of(center, cam, dir, radius) < 0,
    ensures
        calc_t_spec(center, cam, dir, radius) is None,
{
}

/// A sphere entirely behind the camera (both roots negative) is never
/// reported as a hit, even when the discriminant is nonnegative.
pub proof fn lemma_behind_camera_no_hit(
    center: (int, int, int),
    cam: (int, int, int),
    dir: (int, int, int),
    radius: int,
)
    requires
        t1_of(center, cam, dir, radius) < 0,
        t2_of(center, cam, dir, radius) < 0,
    ensures
        calc_t_spec(center, cam, dir, radius) is None,
{
}

/// Hit distance of the ray `cam + t * dir` against the sphere at `center`
/// with the given radius.
pub fn calc_t(sphere: Vec3, cam_pos: Vec3, ray_dir: Vec3, radius: i64) -> (t: Option<i64>)
    requires
        s_bounded(v3(sphere), COORD_MAX as int),
        s_bounded(v3(cam_pos), COORD_MAX as int),
        s_bounded(v3(ray_dir), DIR_MAX as int),
        0 < radius <= COORD_MAX,
    ensures
        opt_eq(t, calc_t_spec(v3(sphere), v3(cam_pos), v3(ray_dir), radius as int)),
{
    let ghost gcenter = v3(sphere);
    let ghost gcam = v3(cam_pos);
    let ghost gdir = v3(ray_dir);

    let oc = vsub(cam_pos, sphere);
    let a = vdot(ray_dir, ray_dir);
    proof {
        lemma_s_dot_bound(gdir, gdir, DIR_MAX as int, DIR_MAX as int);
    }
    if a <= 0 {
        return None;
    }
    let doc = vdot(oc, ray_dir);
    proof {
        lemma_s_dot_bound(v3(oc), gdir, 524288, DIR_MAX as int);
    }
    let b = 2 * doc;
    let ococ = vdot(oc, oc);
    proof {
        lemma_s_dot_bound(v3(oc), v3(oc), 524288, 524288);
        lemma_mul_fp_bound(radius as int, radius as int, COORD_MAX as int, COORD_MAX as int);
    }
    let c = ococ - fp_mul(radius, radius);
    proof {
        lemma_mul_fp_bound(b as int, b as int, 12582912, 12582912);
        lemma_mul_fp_bound(a as int, c as int, 49152, 872415232);
    }
    let disc = fp_mul(b, b) - 4 * fp_mul(a, c);
    if disc < 0 {
        return None;
    }
    let sq_u = isqrt((disc * SCALE) as u64);
    proof {
        if sq_u as int > 33554432 {
            assert((sq_u as int) * (sq_u as int) > (disc * SCALE) as int) by (nonlinear_arith)
                requires
                    sq_u as int > 33554432,
                    (disc * SCALE) as int <= 0x2_0000_0000_0000,
            ;
        }
    }
    let sq = sq_u as i64;
    let t1 = fp_div(-b - sq, 2 * a);
    let t = if t1 >= 0 {
        t1
    } else {
        fp_div(-b + sq, 2 * a)
    };
    if 0 <= t && t <= T_MAX {
        Some(t)
    } else {
        None
    }
}

/// The nearest hit among the first `n` spheres of the scene: the least hit
/// distance, with the earliest sphere winning ties (a later sphere replaces
/// the best hit so far only when strictly nearer).
pub open spec fn nearest_upto(
    spheres: Seq<Vec3>,
    cam: (int, int, int),
    dir: (int, int, int),
    radius: int,
    n: int,
) -> Option<(int, int)>
    decreases n,
{
    if n <= 0 {
        None
    } else {
        let prev = nearest_upto(spheres, cam, dir, radius, n - 1);
        match calc_t_spec(v3(spheres[n - 1]), cam, dir, radius) {
            Some(t) => match prev {
                None => Some((n - 1, t)),
                Some(p) => if t < p.1 {
                    Some((n - 1, t))
                } else {
                    Some(p)
                },
            },
            None => prev,
        }
    }
}

/// The nearest hit among all spheres of the scene: index of the winning
/// sphere and the hit distance.
pub open spec fn nearest_spec(
    spheres: Seq<Vec3>,
    cam: (int, int, int),
    dir: (int, int, int),
    radius: int,
) -> Option<(int, int)> {
    nearest_upto(spheres, cam, dir, radius, spheres.len() as int)
}

/// The executable index/distance pair mirrors the mathematical one.
pub open spec fn opt_pair_eq(r: Option<(usize, i64)>, s: Option<(int, int)>) -> bool {
    match r {
        Some(p) => s == Some((p.0 as int, p.1 as int)),
        None => s is None,
    }
}

/// A reported nearest hit always names a sphere of the prefix it was drawn
/// from, together with that sphere's own hit distance.
pub proof fn lemma_nearest_props(
    spheres: Seq<Vec3>,
    cam: (int, int, int),
    dir: (int, int, int),
    radius: int,
    n: int,
)
    ensures
        match nearest_upto(spheres, cam, dir, radius, n) {
            Some(p) => 0 <= p.0 < n && calc_t_spec(v3(spheres[p.0]), cam, dir, radius) == Some(
                p.1,
            ),
            None => true,
        },
    decreases n,
{
    if n > 0 {
        lemma_nearest_props(spheres, cam, dir, radius, n - 1);
    }
}

/// The nearest hit over a prefix is no farther than any hit inside that
/// prefix.
pub proof fn lemma_nearest_le(
    spheres: Seq<Vec3>,
    cam: (int, int, int),
    dir: (int, int, int),
    radius: int,
    n: int,
    j: int,
    tj: int,
)
    requires
        0 <= j < n,
        calc_t_spec(v3(spheres[j]), cam, dir, radius) == Some(tj),
    ensures
        match nearest_upto(spheres, cam, dir, radius, n) {
            Some(p) => p.1 <= tj,
            None => false,
        },
    decreases n,
{
    if j < n - 1 {
        lemma_nearest_le(spheres, cam, dir, radius, n - 1, j, tj);
    }
}

/// Nearest wins: when two spheres are both hit by the same ray at different
/// depths, the selected hit is at most as deep as the nearer one, and the
/// farther sphere is never the one selected.
pub proof fn lemma_nearest_wins(
    spheres: Seq<Vec3>,
    cam: (int, int, int),
    dir: (int, int, int),
    radius: int,
    i: int,
    j: int,
    ti: int,
    tj: int,
)
    requires
        0 <= i < spheres.len(),
        0 <= j < spheres.len(),
        calc_t_spec(v3(spheres[i]), cam, dir, radius) == Some(ti),
        calc_t_spec(v3(spheres[j]), cam, dir, radius) == Some(tj),
        ti < tj,
    ensures
        match nearest_spec(spheres, cam, dir, radius) {
            Some(p) => p.1 <= ti && p.0 != j,
            None => false,
        },
{
    let n = spheres.len() as int;
    lemma_nearest_le(spheres, cam, dir, radius, n, i, ti);
    lemma_nearest_props(spheres, cam, dir, radius, n);
}

/// Nearest-hit search: test the ray against every sphere and keep the
/// nearest valid hit, the first such sphere winning ties.
pub fn nearest_hit(spheres: &Vec<Vec3>, cam_pos: Vec3, ray_dir: Vec3, radius: i64) -> (r: Option<
    (usize, i64),
>)
    requires
        forall|k: int|
            0 <= k < spheres@.len() ==> s_bounded(#[trigger] v3(spheres@[k]), COORD_MAX as int),
        s_bounded(v3(cam_pos), COORD_MAX as int),
        s_bounded(v3(ray_dir), DIR_MAX as int),
        0 < radius <= COORD_MAX,
    ensures
        opt_pair_eq(r, nearest_spec(spheres@, v3(cam_pos), v3(ray_dir), radius as int)),
{
    let ghost gcam = v3(cam_pos);
    let ghost gdir = v3(ray_dir);
    let mut best: Option<(usize, i64)> = None;
    let mut i: usize = 0;
    while i < spheres.len()
        invariant
            0 <= i <= spheres@.len(),
            forall|k: int|
                0 <= k < spheres@.len() ==> s_bounded(#[trigger] v3(spheres@[k]), COORD_MAX as int),
            s_bounded(v3(cam_pos), COORD_MAX as int),
            s_bounded(v3(ray_dir), DIR_MAX as int),
            0 < radius <= COORD_MAX,
            gcam == v3(cam_pos),
            gdir == v3(ray_dir),
            opt_pair_eq(best, nearest_upto(spheres@, gcam, gdir, radius as int, i as int)),
        decreases spheres@.len() - i,
    {
        let t_opt = calc_t(spheres[i], cam_pos, ray_dir, radius);
        match t_opt {
            Some(t) => {
                match best {
                    None => {
                        best = Some((i, t));
                    },
                    Some(p) => {
                        if t < p.1 {
                            best = Some((i, t));
                        }
                    },
                }
            },
            None => {},
        }
        i = i + 1;
    }
    best
}

/// Upper clamp on the specular base (2.0 in scalar units). For genuinely
/// normalized vectors the reflected-times-view dot product never exceeds
/// this, and any clamped value at least 1.0 already saturates the final
/// channel, so the clamp never changes an output channel; it only bounds the
/// arithmetic of the 12th power.
pub const SPEC_MAX: i64 = 2048;

/// Twelfth fixed-point power, by repeated squaring: `s^2`, `s^4`, `s^8`,
/// then `s^8 * s^4`.
pub open spec fn spec_pow12(s: int) -> int {
    let s2 = mul_fp(s, s);
    let s4 = mul_fp(s2, s2);
    let s8 = mul_fp(s4, s4);
    mul_fp(s8, s4)
}

/// One output channel: the base color scaled by the diffuse term, plus the
/// specular term uncoupled from the color, scaled to the 0..255 range and
/// clamped there.
pub open spec fn channel_spec(c: int, diffuse: int, spec12: int) -> int {
    clamp_spec(((mul_fp(c, diffuse) + spec12) * 255) / (SCALE as int), 0, 255)
}

/// An output pixel: one 8-bit value per channel.
#[derive(Clone, Copy, PartialEq, Eq, Structural, Debug)]
pub struct Pixel {
    pub r: u8,
    pub g: u8,
    pub b: u8,
}

/// The pixel's channels hold exactly the given channel values.
pub open spec fn pixel_is(p: Pixel, c: (int, int, int)) -> bool {
    p.r as int == c.0 && p.g as int == c.1 && p.b as int == c.2
}

/// Shading of a hit: surface normal at the hit point, diffuse term from the
/// light direction, Phong-style specular term from the reflected light and
/// the view direction, combined per channel.
pub open spec fn shade_hit_spec(
    center: (int, int, int),
    cam: (int, int, int),
    dir: (int, int, int),
    t: int,
    light: (int, int, int),
    color: (int, int, int),
) -> (int, int, int) {
    let hit = (cam.0 + mul_fp(dir.0, t), cam.1 + mul_fp(dir.1, t), cam.2 + mul_fp(dir.2, t));
    let n = s_normalize(s_sub(hit, center));
    let diffuse = max0(s_dot(n, light));
    let refl = (
        mul_fp(n.0, 2 * diffuse) - light.0,
        mul_fp(n.1, 2 * diffuse) - light.1,
        mul_fp(n.2, 2 * diffuse) - light.2,
    );
    let view = s_neg(dir);
    let base = clamp_spec(s_dot(refl, view), 0, SPEC_MAX as int);
    let spec12 = spec_pow12(base);
    (
        channel_spec(color.0, diffuse, spec12),
        channel_spec(color.1, diffuse, spec12),
        channel_spec(color.2, diffuse, spec12),
    )
}

/// Clamping: whatever the diffuse and specular contributions, every final
/// channel value lies in the 0..=255 range.
pub proof fn lemma_channel_clamped(c: int, diffuse: int, spec12: int)
    ensures
        0 <= channel_spec(c, diffuse, spec12) <= 255,
{
}

/// One output channel, executable.
fn shade_channel(c: i64, diffuse: i64, s12: i64) -> (r: u8)
    requires
        0 <= c <= SCALE,
        0 <= diffuse <= 49152,
        0 <= s12 <= 4194304,
    ensures
        r as int == channel_spec(c as int, diffuse as int, s12 as int),
{
    proof {
        lemma_mul_fp_bound_nn(c as int, diffuse as int, SCALE as int, 49152);
    }
    let cd = fp_mul(c, diffuse);
    let raw = (cd + s12) * 255;
    let scaled = crate::fixed::div_floor(raw, SCALE);
    let clamped = crate::fixed::clamp_i64(scaled, 0, 255);
    clamped as u8
}

/// Shade the hit of the ray `cam_pos + t * ray_dir` on the given sphere.
pub fn shade_hit(sphere: Vec3, cam_pos: Vec3, ray_dir: Vec3, t: i64, light: Vec3, color: Vec3) -> (p:
    Pixel)
    requires
        s_bounded(v3(sphere), COORD_MAX as int),
        s_bounded(v3(cam_pos), COORD_MAX as int),
        s_bounded(v3(ray_dir), DIR_MAX as int),
        0 <= t <= T_MAX,
        s_bounded(v3(light), DIR_MAX as int),
        0 <= color.x <= SCALE,
        0 <= color.y <= SCALE,
        0 <= color.z <= SCALE,
    ensures
        pixel_is(
            p,
            shade_hit_spec(
                v3(sphere),
                v3(cam_pos),
                v3(ray_dir),
                t as int,
                v3(light),
                v3(color),
            ),
        ),
{
    proof {
        lemma_mul_fp_bound(ray_dir.x as int, t as int, DIR_MAX as int, T_MAX as int);
        lemma_mul_fp_bound(ray_dir.y as int, t as int, DIR_MAX as int, T_MAX as int);
        lemma_mul_fp_bound(ray_dir.z as int, t as int, DIR_MAX as int, T_MAX as int);
    }
    let hit = Vec3 {
        x: cam_pos.x + fp_mul(ray_dir.x, t),
        y: cam_pos.y + fp_mul(ray_dir.y, t),
        z: cam_pos.z + fp_mul(ray_dir.z, t),
    };
    let n0 = vsub(hit, sphere);
    let n = crate::vec3::normalize(n0);
    let d0 = vdot(n, light);
    proof {
        lemma_s_dot_bound(v3(n), v3(light), DIR_MAX as int, DIR_MAX as int);
    }
    let diffuse = if d0 < 0 {
        0
    } else {
        d0
    };
    let two_d = 2 * diffuse;
    proof {
        lemma_mul_fp_bound(n.x as int, two_d as int, DIR_MAX as int, 98304);
        lemma_mul_fp_bound(n.y as int, two_d as int, DIR_MAX as int, 98304);
        lemma_mul_fp_bound(n.z as int, two_d as int, DIR_MAX as int, 98304);
    }
    let refl = Vec3 {
        x: fp_mul(n.x, two_d) - light.x,
        y: fp_mul(n.y, two_d) - light.y,
        z: fp_mul(n.z, two_d) - light.z,
    };
    let view = crate::vec3::vneg(ray_dir);
    proof {
        lemma_s_dot_bound(v3(refl), v3(view), 397312, DIR_MAX as int);
    }
    let dot_rv = vdot(refl, view);
    let base = crate::fixed::clamp_i64(dot_rv, 0, SPEC_MAX);
    proof {
        lemma_mul_fp_bound_nn(base as int, base as int, 2048, 2048);
    }
    let s2 = fp_mul(base, base);
    proof {
        lemma_mul_fp_bound_nn(s2 as int, s2 as int, 4096, 4096);
    }
    let s4 = fp_mul(s2, s2);
    proof {
        lemma_mul_fp_bound_nn(s4 as int, s4 as int, 16384, 16384);
    }
    let s8 = fp_mul(s4, s4);
    proof {
        lemma_mul_fp_bound_nn(s8 as int, s4 as int, 262144, 16384);
    }
    let s12 = fp_mul(s8, s4);
    Pixel {
        r: shade_channel(color.x, diffuse, s12),
        g: shade_channel(color.y, diffuse, s12),
        b: shade_channel(color.z, diffuse, s12),
    }
}

/// Ray-sphere correctness: a camera on the z-axis at distance `d` from a
/// sphere of radius `r` at the origin, looking straight at it, hits the
/// visible hemisphere at distance exactly `d - r` (in scalar units; all
/// three quantities are integers, so the fixed-point arithmetic is exact).
pub proof fn lemma_axial_hit_distance(d: int, r: int)
    requires
        0 < r < d,
        d <= 256,
    ensures
        calc_t_spec(
            (0int, 0int, 0int),
            (0int, 0int, -d * (SCALE as int)),
            (0int, 0int, SCALE as int),
            r * (SCALE as int),
        ) == Some((d - r) * (SCALE as int)),
{
    let s = SCALE as int;
    let center = (0int, 0int, 0int);
    let cam = (0int, 0int, -d * s);
    let dir = (0int, 0int, s);
    let rad = r * s;

    // a = dir . dir = 1.0
    lemma_div_multiples_vanish(s, s);
    assert(a_of(dir) == s);

    // b = 2 * (oc . dir) = -2 d
    assert((-d * s) * s == s * (-d * s)) by (nonlinear_arith);
    lemma_div_multiples_vanish(-d * s, s);
    assert(mul_fp(-d * s, s) == -d * s);
    assert(b_of(center, cam, dir) == 2 * (-d * s));

    // c = oc . oc - rad^2 = (d^2 - r^2) * s
    assert((-d * s) * (-d * s) == s * (d * d * s)) by (nonlinear_arith);
    lemma_div_multiples_vanish(d * d * s, s);
    assert(mul_fp(-d * s, -d * s) == d * d * s);
    assert(rad * rad == s * (r * r * s)) by (nonlinear_arith)
        requires
            rad == r * s,
    ;
    lemma_div_multiples_vanish(r * r * s, s);
    assert(mul_fp(rad, rad) == r * r * s);
    assert(c_of(center, cam, rad) == d * d * s - r * r * s);

    // disc = b^2 - 4 a c = 4 r^2
    let b = 2 * (-d * s);
    assert(b * b == s * (4 * (d * d * s))) by (nonlinear_arith)
        requires
            b == 2 * (-d * s),
    ;
    lemma_div_multiples_vanish(4 * (d * d * s), s);
    assert(mul_fp(b, b) == 4 * (d * d * s));
    lemma_div_multiples_vanish(d * d * s - r * r * s, s);
    assert(mul_fp(s, d * d * s - r * r * s) == d * d * s - r * r * s);
    let disc = disc_of(center, cam, dir, rad);
    assert(disc == 4 * (d * d * s) - 4 * (d * d * s - r * r * s));
    assert(disc == 4 * (r * r * s));

    // sqrt(disc) = 2 r (exactly)
    assert(disc * s == (2 * r * s) * (2 * r * s)) by (nonlinear_arith)
        requires
            disc == 4 * (r * r * s),
    ;
    assert(is_sqrt_floor(disc * s, 2 * r * s)) by (nonlinear_arith)
        requires
            r >= 1,
            s == 1024,
            disc * s == (2 * r * s) * (2 * r * s),
    ;
    lemma_sqrt_floor_unique(disc * s, 2 * r * s);
    let sq = 2 * r * s;

    // t1 = (-b - sqrt(disc)) / (2a) = d - r
    assert((-b - sq) * s == (2 * s) * ((d - r) * s)) by (nonlinear_arith)
        requires
            b == 2 * (-d * s),
            sq == 2 * r * s,
    ;
    lemma_div_multiples_vanish((d - r) * s, 2 * s);
    assert(div_fp(-b - sq, 2 * s) == (d - r) * s);
    assert(t1_of(center, cam, dir, rad) == (d - r) * s);

    // the root is valid: nonnegative and below the distance cap
    assert(0 <= (d - r) * s <= T_MAX as int) by (nonlinear_arith)
        requires
            0 < d - r <= 256,
            s == 1024,
    ;
}

/// Upper bound on the image dimensions the renderer is proved for.
pub const DIM_MAX: usize = 16384;

/// The ray direction of a pixel under the pinhole model: screen offsets
/// from the image center, both divided by the image height (a deliberate
/// projection choice that stretches wide images horizontally), depth 1.0,
/// then normalized.
pub open spec fn ray_dir_spec(x: int, y: int, w: int, h: int) -> (int, int, int) {
    let hs = h * (SCALE as int);
    let ix = x * (SCALE as int) - (w * (SCALE as int)) / 2;
    let iy = y * (SCALE as int) - hs / 2;
    s_normalize((div_fp(ix, hs), div_fp(iy, hs), SCALE as int))
}

/// The color of one pixel: black when the ray misses every sphere, the
/// shaded nearest hit otherwise.
pub open spec fn shade_pixel_spec(
    x: int,
    y: int,
    w: int,
    h: int,
    cam: (int, int, int),
    scene: crate::scene::Scene,
) -> (int, int, int) {
    let dir = ray_dir_spec(x, y, w, h);
    match nearest_spec(scene.spheres@, cam, dir, scene.radius as int) {
        None => (0int, 0int, 0int),
        Some(p) => shade_hit_spec(
            v3(scene.spheres@[p.0]),
            cam,
            dir,
            p.1,
            v3(scene.light),
            v3(scene.color),
        ),
    }
}

/// No hit: a ray that misses all spheres produces exactly black.
pub proof fn lemma_no_hit_black(
    x: int,
    y: int,
    w: int,
    h: int,
    cam: (int, int, int),
    scene: crate::scene::Scene,
)
    requires
        nearest_spec(scene.spheres@, cam, ray_dir_spec(x, y, w, h), scene.radius as int) is None,
    ensures
        shade_pixel_spec(x, y, w, h, cam, scene) == (0int, 0int, 0int),
{
}

/// Determinism: pixel shading is a function of the pixel, camera and scene
/// alone, so two pixels that both satisfy the shading contract for the same
/// inputs are equal.
pub proof fn lemma_shading_deterministic(
    p1: Pixel,
    p2: Pixel,
    x: int,
    y: int,
    w: int,
    h: int,
    cam: (int, int, int),
    scene: crate::scene::Scene,
)
    requires
        pixel_is(p1, shade_pixel_spec(x, y, w, h, cam, scene)),
        pixel_is(p2, shade_pixel_spec(x, y, w, h, cam, scene)),
    ensures
        p1 == p2,
{
}

/// Nearest wins, at the pixel level: when a pixel's ray hits two spheres at
/// different depths, the pixel is shaded from the selected sphere, whose hit
/// is at most as deep as the nearer of the two; the farther sphere is never
/// the one shaded.
pub proof fn lemma_pixel_shades_nearer_sphere(
    x: int,
    y: int,
    w: int,
    h: int,
    cam: (int, int, int),
    scene: crate::scene::Scene,
    i: int,
    j: int,
    ti: int,
    tj: int,
)
    requires
        0 <= i < scene.spheres@.len(),
        0 <= j < scene.spheres@.len(),
        calc_t_spec(v3(scene.spheres@[i]), cam, ray_dir_spec(x, y, w, h), scene.radius as int)
            == Some(ti),
        calc_t_spec(v3(scene.spheres@[j]), cam, ray_dir_spec(x, y, w, h), scene.radius as int)
            == Some(tj),
        ti < tj,
    ensures
        match nearest_spec(scene.spheres@, cam, ray_dir_spec(x, y, w, h), scene.radius as int) {
            Some(p) => p.0 != j && p.1 <= ti && shade_pixel_spec(x, y, w, h, cam, scene)
                == shade_hit_spec(
                v3(scene.spheres@[p.0]),
                cam,
                ray_dir_spec(x, y, w, h),
                p.1,
                v3(scene.light),
                v3(scene.color),
            ),
            None => false,
        },
{
    lemma_nearest_wins(
        scene.spheres@,
        cam,
        ray_dir_spec(x, y, w, h),
        scene.radius as int,
        i,
        j,
        ti,
        tj,
    );
}

/// Shade one pixel: build the pixel's ray, find the nearest sphere it hits,
/// and shade that hit, or return black when there is none.
pub fn shade_pixel(
    x: usize,
    y: usize,
    width: usize,
    height: usize,
    cam_pos: Vec3,
    scene: &crate::scene::Scene,
) -> (p: Pixel)
    requires
        x < width,
        y < height,
        width <= DIM_MAX,
        height <= DIM_MAX,
        s_bounded(v3(cam_pos), COORD_MAX as int),
        scene.wf(),
    ensures
        pixel_is(
            p,
            shade_pixel_spec(
                x as int,
                y as int,
                width as int,
                height as int,
                v3(cam_pos),
                *scene,
            ),
        ),
{
    let xs = (x as i64) * SCALE;
    let ys = (y as i64) * SCALE;
    let ws = (width as i64) * SCALE;
    let hs = (height as i64) * SCALE;
    let ix = xs - crate::fixed::div_floor(ws, 2);
    let iy = ys - crate::fixed::div_floor(hs, 2);
    proof {
        lemma_div_floor_in_range(ws as int, 2);
        lemma_div_floor_in_range(hs as int, 2);
        crate::fixed::lemma_div_grows_denominator(ix as int * SCALE as int, SCALE as int, hs as int);
        crate::fixed::lemma_div_grows_denominator(iy as int * SCALE as int, SCALE as int, hs as int);
        lemma_div_multiples_vanish(ix as int, SCALE as int);
        lemma_div_multiples_vanish(iy as int, SCALE as int);
        assert(ix as int * SCALE as int == SCALE as int * (ix as int)) by (nonlinear_arith);
        assert(iy as int * SCALE as int == SCALE as int * (iy as int)) by (nonlinear_arith);
    }
    let dx = fp_div(ix, hs);
    let dy = fp_div(iy, hs);
    let d0 = Vec3 { x: dx, y: dy, z: SCALE };
    let dir = crate::vec3::normalize(d0);
    let r = nearest_hit(&scene.spheres, cam_pos, dir, scene.radius);
    proof {
        lemma_nearest_props(
            scene.spheres@,
            v3(cam_pos),
            v3(dir),
            scene.radius as int,
            scene.spheres@.len() as int,
        );
    }
    match r {
        None => Pixel { r: 0, g: 0, b: 0 },
        Some((i, t)) => shade_hit(scene.spheres[i], cam_pos, dir, t, scene.light, scene.color),
    }
}

/// The pixel stored for screen position `(x, y)` holds the shading of that
/// position.
pub open spec fn shades_at(
    pixels: Seq<Pixel>,
    w: int,
    h: int,
    x: int,
    y: int,
    cam: (int, int, int),
    scene: crate::scene::Scene,
) -> bool {
    pixel_is(pixels[y * w + x], shade_pixel_spec(x, y, w, h, cam, scene))
}

/// Render the whole image, row-major: one independently shaded pixel per
/// screen position.
pub fn render(width: usize, height: usize, cam_pos: Vec3, scene: &crate::scene::Scene) -> (out:
    Vec<Pixel>)
    requires
        1 <= width <= DIM_MAX,
        1 <= height <= DIM_MAX,
        s_bounded(v3(cam_pos), COORD_MAX as int),
        scene.wf(),
    ensures
        out@.len() == width * height,
        forall|x: int, y: int|
            0 <= x < width && 0 <= y < height ==> #[trigger] shades_at(
                out@,
                width as int,
                height as int,
                x,
                y,
                v3(cam_pos),
                *scene,
            ),
{
    let ghost gcam = v3(cam_pos);
    let mut out: Vec<Pixel> = Vec::new();
    let mut yy: usize = 0;
    while yy < height
        invariant
            0 <= yy <= height,
            out@.len() == yy * width,
            1 <= width <= DIM_MAX,
            1 <= height <= DIM_MAX,
            s_bounded(v3(cam_pos), COORD_MAX as int),
            scene.wf(),
            gcam == v3(cam_pos),
            forall|x2: int, y2: int|
                0 <= x2 < width && 0 <= y2 < yy ==> #[trigger] shades_at(
                    out@,
                    width as int,
                    height as int,
                    x2,
                    y2,
                    gcam,
                    *scene,
                ),
        decreases height - yy,
    {
        let mut xx: usize = 0;
        while xx < width
            invariant
                0 <= xx <= width,
                0 <= yy < height,
                out@.len() == yy * width + xx,
                1 <= width <= DIM_MAX,
                1 <= height <= DIM_MAX,
                s_bounded(v3(cam_pos), COORD_MAX as int),
                scene.wf(),
                gcam == v3(cam_pos),
                forall|x2: int, y2: int|
                    0 <= x2 < width && 0 <= y2 < yy ==> #[trigger] shades_at(
                        out@,
                        width as int,
                        height as int,
                        x2,
                        y2,
                        gcam,
                        *scene,
                    ),
                forall|x2: int|
                    0 <= x2 < xx ==> #[trigger] shades_at(
                        out@,
                        width as int,
                        height as int,
                        x2,
                        yy as int,
                        gcam,
                        *scene,
                    ),
            decreases width - xx,
        {
            let ghost old_out = out@;
            let p = shade_pixel(xx, yy, width, height, cam_pos, scene);
            out.push(p);
            proof {
                assert forall|x2: int, y2: int|
                    0 <= x2 < width && 0 <= y2 < yy implies #[trigger] shades_at(
                    out@,
                    width as int,
                    height as int,
                    x2,
                    y2,
                    gcam,
                    *scene,
                ) by {
                    assert(y2 * width + x2 < yy * width) by (nonlinear_arith)
                        requires
                            0 <= x2 < width,
                            0 <= y2,
                            y2 + 1 <= yy,
                    ;
                    assert(shades_at(old_out, width as int, height as int, x2, y2, gcam, *scene));
                }
                assert forall|x2: int| 0 <= x2 < xx + 1 implies #[trigger] shades_at(
                    out@,
                    width as int,
                    height as int,
                    x2,
                    yy as int,
                    gcam,
                    *scene,
                ) by {
                    if x2 < xx {
                        assert(shades_at(
                            old_out,
                            width as int,
                            height as int,
                            x2,
                            yy as int,
                            gcam,
                            *scene,
                        ));
                    } else {
                        assert(yy * width + x2 == old_out.len());
                    }
                }
            }
            xx = xx + 1;
        }
        proof {
            assert((yy + 1) * width == yy * width + width) by (nonlinear_arith);
        }
        yy = yy + 1;
    }
    proof {
        assert(height as int * width as int == width as int * height as int) by (nonlinear_arith);
    }
    out
}

} // verus!
