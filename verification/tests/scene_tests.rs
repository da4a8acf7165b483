use raycast::fixed::SCALE;
use raycast::scene::{build_scene, Scene, SceneError};
use raycast::vec3::{normalize, Vec3, COORD_MAX, DIR_MAX};

fn unit_light() -> Vec3 {
    normalize(Vec3 { x: 0, y: 0, z: -SCALE })
}

fn red() -> Vec3 {
    Vec3 { x: SCALE, y: 0, z: 0 }
}

#[test]
fn empty_scene_is_rejected() {
    let r = Scene::new(Vec::new(), unit_light(), red(), 5 * SCALE);
    assert!(matches!(r, Err(SceneError::NoSpheres)));
}

#[test]
fn out_of_range_center_is_rejected() {
    let spheres = vec![Vec3 { x: COORD_MAX + 1, y: 0, z: 0 }];
    let r = Scene::new(spheres, unit_light(), red(), 5 * SCALE);
    assert!(matches!(r, Err(SceneError::CenterOutOfRange)));
}

#[test]
fn out_of_range_light_is_rejected() {
    let spheres = vec![Vec3 { x: 0, y: 0, z: 0 }];
    let bad_light = Vec3 { x: DIR_MAX + 1, y: 0, z: 0 };
    let r = Scene::new(spheres, bad_light, red(), 5 * SCALE);
    assert!(matches!(r, Err(SceneError::LightOutOfRange)));
}

#[test]
fn out_of_range_color_is_rejected() {
    let spheres = vec![Vec3 { x: 0, y: 0, z: 0 }];
    let bad_color = Vec3 { x: SCALE + 1, y: 0, z: 0 };
    let r = Scene::new(spheres, unit_light(), bad_color, 5 * SCALE);
    assert!(matches!(r, Err(SceneError::ColorOutOfRange)));
}

#[test]
fn bad_radius_is_rejected() {
    let spheres = vec![Vec3 { x: 0, y: 0, z: 0 }];
    let r = Scene::new(spheres, unit_light(), red(), 0);
    assert!(matches!(r, Err(SceneError::RadiusOutOfRange)));
    let spheres = vec![Vec3 { x: 0, y: 0, z: 0 }];
    let r = Scene::new(spheres, unit_light(), red(), COORD_MAX + 1);
    assert!(matches!(r, Err(SceneError::RadiusOutOfRange)));
}

#[test]
fn valid_scene_keeps_its_parts() {
    let spheres = vec![Vec3 { x: SCALE, y: -SCALE, z: 40 * SCALE }];
    let s = Scene::new(spheres.clone(), unit_light(), red(), 5 * SCALE).unwrap();
    assert_eq!(s.spheres, spheres);
    assert_eq!(s.light, unit_light());
    assert_eq!(s.color, red());
    assert_eq!(s.radius, 5 * SCALE);
}

#[test]
fn build_scene_of_zero_spheres_is_rejected() {
    let r = build_scene(0, 5 * SCALE);
    assert!(matches!(r, Err(SceneError::NoSpheres)));
}

#[test]
fn build_scene_rejects_bad_radius() {
    let r = build_scene(3, -1);
    assert!(matches!(r, Err(SceneError::RadiusOutOfRange)));
}

#[test]
fn build_scene_places_spheres_in_the_box() {
    let s = build_scene(200, 5 * SCALE).unwrap();
    assert_eq!(s.spheres.len(), 200);
    for c in &s.spheres {
        assert!(-35 * SCALE <= c.x && c.x <= 35 * SCALE);
        assert!(-20 * SCALE <= c.y && c.y <= 20 * SCALE);
        assert!(20 * SCALE <= c.z && c.z <= 60 * SCALE);
    }
    assert_eq!(s.color, Vec3 { x: SCALE, y: 0, z: 0 });
    let expected_light = normalize(Vec3 { x: 500 * SCALE, y: -50 * SCALE, z: -100 * SCALE });
    assert_eq!(s.light, expected_light);
    assert_eq!(s.radius, 5 * SCALE);
}

#[test]
fn normalize_axis_vector_is_exact() {
    let n = normalize(Vec3 { x: 0, y: 0, z: 5 * SCALE });
    assert_eq!(n, Vec3 { x: 0, y: 0, z: SCALE });
    let n = normalize(Vec3 { x: -7 * SCALE, y: 0, z: 0 });
    assert_eq!(n, Vec3 { x: -SCALE, y: 0, z: 0 });
}

#[test]
fn normalize_zero_vector_is_zero() {
    let n = normalize(Vec3 { x: 0, y: 0, z: 0 });
    assert_eq!(n, Vec3 { x: 0, y: 0, z: 0 });
}
