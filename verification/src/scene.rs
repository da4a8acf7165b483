//! The scene: sphere centers, one light direction, one base color, and the
//! shared sphere radius, validated at construction and immutable afterwards.

use vstd::prelude::*;
use crate::fixed::SCALE;
use crate::vec3::{normalize, s_bounded, s_normalize, v3, Vec3, COORD_MAX, DIR_MAX, NORM_IN_MAX};

verus! {

/// Why a scene was rejected at construction time.
#[derive(Clone, Copy, PartialEq, Eq, Structural, Debug)]
pub enum SceneError {
    /// No spheres at all: a degenerate scene is rejected rather than
    /// rendered all-black.
    NoSpheres,
    /// A sphere center lies outside the coordinate range.
    CenterOutOfRange,
    /// The light direction is not a bounded (normalized) direction.
    LightOutOfRange,
    /// A color channel lies outside `[0, SCALE]` (that is, `[0.0, 1.0]`).
    ColorOutOfRange,
    /// The shared radius is not positive or exceeds the coordinate range.
    RadiusOutOfRange,
}

/// An immutable scene: sphere centers, a light direction, a base surface
/// color, and the radius shared by all spheres.
pub struct Scene {
    pub spheres: Vec<Vec3>,
    pub light: Vec3,
    pub color: Vec3,
    pub radius: i64,
}

impl Scene {
    /// Well-formedness: at least one sphere, every quantity inside the
    /// ranges the rendering arithmetic is proved for.
    pub open spec fn wf(&self) -> bool {
        &&& self.spheres@.len() >= 1
        &&& forall|i: int|
            0 <= i < self.spheres@.len() ==> s_bounded(
                #[trigger] v3(self.spheres@[i]),
                COORD_MAX as int,
            )
        &&& s_bounded(v3(self.light), DIR_MAX as int)
        &&& 0 <= self.color.x <= SCALE
        &&& 0 <= self.color.y <= SCALE
        &&& 0 <= self.color.z <= SCALE
        &&& 0 < self.radius <= COORD_MAX
    }

    /// Build a scene from parts, rejecting every configuration the renderer
    /// is not specified for. The checks run in the order of the fields:
    /// spheres, light, color, radius; the first failure names the error.
    pub fn new(spheres: Vec<Vec3>, light: Vec3, color: Vec3, radius: i64) -> (r: Result<
        Scene,
        SceneError,
    >)
        ensures
            match r {
                Ok(s) => {
                    &&& s.wf()
                    &&& s.spheres@ == spheres@
                    &&& s.light == light
                    &&& s.color == color
                    &&& s.radius == radius
                },
                Err(e) => {
                    &&& !(Scene { spheres, light, color, radius }).wf()
                    &&& match e {
                        SceneError::NoSpheres => spheres@.len() == 0,
                        SceneError::CenterOutOfRange => spheres@.len() > 0 && exists|i: int|
                            0 <= i < spheres@.len() && !s_bounded(
                                #[trigger] v3(spheres@[i]),
                                COORD_MAX as int,
                            ),
                        SceneError::LightOutOfRange => {
                            &&& spheres@.len() > 0
                            &&& forall|i: int|
                                0 <= i < spheres@.len() ==> s_bounded(
                                    #[trigger] v3(spheres@[i]),
                                    COORD_MAX as int,
                                )
                            &&& !s_bounded(v3(light), DIR_MAX as int)
                        },
                        SceneError::ColorOutOfRange => {
                            &&& s_bounded(v3(light), DIR_MAX as int)
                            &&& !(0 <= color.x <= SCALE && 0 <= color.y <= SCALE && 0 <= color.z
                                <= SCALE)
                        },
                        SceneError::RadiusOutOfRange => {
                            &&& 0 <= color.x <= SCALE && 0 <= color.y <= SCALE && 0 <= color.z
                                <= SCALE
                            &&& !(0 < radius <= COORD_MAX)
                        },
                    }
                },
            },
    {
        if spheres.len() == 0 {
            return Err(SceneError::NoSpheres);
        }
        let mut i: usize = 0;
        while i < spheres.len()
            invariant
                0 <= i <= spheres@.len(),
                forall|k: int|
                    0 <= k < i ==> s_bounded(#[trigger] v3(spheres@[k]), COORD_MAX as int),
            decreases spheres@.len() - i,
        {
            let c = spheres[i];
            if c.x < -COORD_MAX || c.x > COORD_MAX || c.y < -COORD_MAX || c.y > COORD_MAX || c.z
                < -COORD_MAX || c.z > COORD_MAX {
                proof {
                    assert(!s_bounded(v3(spheres@[i as int]), COORD_MAX as int));
                }
                return Err(SceneError::CenterOutOfRange);
            }
            i = i + 1;
        }
        if light.x < -DIR_MAX || light.x > DIR_MAX || light.y < -DIR_MAX || light.y > DIR_MAX
            || light.z < -DIR_MAX || light.z > DIR_MAX {
            return Err(SceneError::LightOutOfRange);
        }
        if color.x < 0 || color.x > SCALE || color.y < 0 || color.y > SCALE || color.z < 0
            || color.z > SCALE {
            return Err(SceneError::ColorOutOfRange);
        }
        if radius <= 0 || radius > COORD_MAX {
            return Err(SceneError::RadiusOutOfRange);
        }
        Ok(Scene { spheres, light, color, radius })
    }
}

/// Relies on rand::random: a value of the type is drawn from the thread-local
/// generator; nothing is assumed about which value comes back.
pub assume_specification<T>[ rand::random::<T> ]() -> (r: T)
    where
        rand::distributions::Standard: rand::distributions::Distribution<T>,
;

/// One uniform-style draw from `[0, span)`, reduced from a random 64-bit
/// value. Which value comes back is not specified; only the range is.
fn random_below(span: u64) -> (r: u64)
    requires
        span >= 1,
    ensures
        r < span,
{
    let raw: u64 = rand::random::<u64>();
    raw % span
}

/// The fixed light direction of the built scene, before normalization:
/// (500, -50, -100) in scalar units.
pub open spec fn build_light_raw() -> (int, int, int) {
    (500 * SCALE as int, -50 * SCALE as int, -100 * SCALE as int)
}

/// Centers produced by `build_scene` lie in this box: x in [-35, 35],
/// y in [-20, 20], z in [20, 60], in scalar units.
pub open spec fn in_build_box(c: (int, int, int)) -> bool {
    &&& -35 * SCALE as int <= c.0 <= 35 * SCALE as int
    &&& -20 * SCALE as int <= c.1 <= 20 * SCALE as int
    &&& 20 * SCALE as int <= c.2 <= 60 * SCALE as int
}

/// Build a scene of `sphere_count` randomly placed spheres of the given
/// radius, a fixed normalized light direction, and a red base color.
/// Sphere centers are drawn independently inside the box `in_build_box`
/// describes; the distribution inside the box is not part of the contract.
/// A degenerate request (no spheres, or a radius outside the supported
/// range) is rejected.
pub fn build_scene(sphere_count: usize, radius: i64) -> (r: Result<Scene, SceneError>)
    ensures
        match r {
            Ok(s) => {
                &&& s.wf()
                &&& s.spheres@.len() == sphere_count
                &&& forall|i: int|
                    0 <= i < s.spheres@.len() ==> in_build_box(#[trigger] v3(s.spheres@[i]))
                &&& v3(s.light) == s_normalize(build_light_raw())
                &&& v3(s.color) == (SCALE as int, 0int, 0int)
                &&& s.radius == radius
            },
            Err(e) => {
                &&& sphere_count == 0 || radius <= 0 || radius > COORD_MAX
                &&& (e == SceneError::NoSpheres <==> sphere_count == 0)
                &&& (e == SceneError::RadiusOutOfRange <==> sphere_count > 0 && !(0 < radius
                    <= COORD_MAX))
            },
        },
{
    if sphere_count == 0 {
        return Err(SceneError::NoSpheres);
    }
    if radius <= 0 || radius > COORD_MAX {
        return Err(SceneError::RadiusOutOfRange);
    }
    let mut spheres: Vec<Vec3> = Vec::new();
    let mut i: usize = 0;
    while i < sphere_count
        invariant
            0 <= i <= sphere_count,
            spheres@.len() == i,
            forall|k: int|
                0 <= k < spheres@.len() ==> in_build_box(#[trigger] v3(spheres@[k])),
            forall|k: int|
                0 <= k < spheres@.len() ==> s_bounded(#[trigger] v3(spheres@[k]), COORD_MAX as int),
        decreases sphere_count - i,
    {
        let x = random_below(70 * 1024 + 1) as i64 - 35 * SCALE;
        let y = random_below(40 * 1024 + 1) as i64 - 20 * SCALE;
        let z = random_below(40 * 1024 + 1) as i64 - 20 * SCALE + 40 * SCALE;
        spheres.push(Vec3 { x, y, z });
        i = i + 1;
    }
    let light = normalize(Vec3 { x: 500 * SCALE, y: -50 * SCALE, z: -100 * SCALE });
    let color = Vec3 { x: SCALE, y: 0, z: 0 };
    Ok(Scene { spheres, light, color, radius })
}

} // verus!
