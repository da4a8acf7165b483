use raycast::fixed::SCALE;
use raycast::render::{calc_t, nearest_hit, shade_hit, shade_pixel, Pixel};
use raycast::scene::Scene;
use raycast::vec3::{normalize, Vec3};

fn origin() -> Vec3 {
    Vec3 { x: 0, y: 0, z: 0 }
}

fn cam_at_minus_50() -> Vec3 {
    Vec3 { x: 0, y: 0, z: -50 * SCALE }
}

fn forward() -> Vec3 {
    Vec3 { x: 0, y: 0, z: SCALE }
}

#[test]
fn axial_hit_distance_is_d_minus_r() {
    // Sphere of radius 5 at the origin, camera 50 units away on the z-axis:
    // the hit distance is exactly 45.0.
    let t = calc_t(origin(), cam_at_minus_50(), forward(), 5 * SCALE);
    assert_eq!(t, Some(45 * SCALE));
}

#[test]
fn far_offset_sphere_is_missed() {
    // Closest approach 100 units, radius 5: negative discriminant, no hit.
    let sphere = Vec3 { x: 100 * SCALE, y: 0, z: 0 };
    let t = calc_t(sphere, cam_at_minus_50(), forward(), 5 * SCALE);
    assert_eq!(t, None);
}

#[test]
fn sphere_behind_camera_is_missed() {
    // Both roots negative: the sphere sits 50 units behind the camera.
    let sphere = Vec3 { x: 0, y: 0, z: -100 * SCALE };
    let t = calc_t(sphere, cam_at_minus_50(), forward(), 5 * SCALE);
    assert_eq!(t, None);
}

#[test]
fn camera_inside_sphere_hits_far_wall() {
    // From the center of a sphere of radius 5 the smaller root is behind
    // the camera, so the valid hit is the larger root: the far wall at 5.0.
    let t = calc_t(origin(), origin(), forward(), 5 * SCALE);
    assert_eq!(t, Some(5 * SCALE));
}

#[test]
fn nearest_sphere_wins() {
    let near = origin();
    let far = Vec3 { x: 0, y: 0, z: 20 * SCALE };
    let spheres = vec![near, far];
    let hit = nearest_hit(&spheres, cam_at_minus_50(), forward(), 5 * SCALE);
    assert_eq!(hit, Some((0, 45 * SCALE)));

    let spheres_swapped = vec![far, near];
    let hit = nearest_hit(&spheres_swapped, cam_at_minus_50(), forward(), 5 * SCALE);
    assert_eq!(hit, Some((1, 45 * SCALE)));
}

#[test]
fn first_sphere_wins_ties() {
    let spheres = vec![origin(), origin()];
    let hit = nearest_hit(&spheres, cam_at_minus_50(), forward(), 5 * SCALE);
    assert_eq!(hit, Some((0, 45 * SCALE)));
}

#[test]
fn no_spheres_means_no_hit() {
    let spheres: Vec<Vec3> = Vec::new();
    let hit = nearest_hit(&spheres, cam_at_minus_50(), forward(), 5 * SCALE);
    assert_eq!(hit, None);
}

#[test]
fn head_on_light_gives_white_hot_highlight() {
    // Light shining straight down the z-axis onto the facing hemisphere:
    // diffuse is exactly 1.0 and the specular term exactly 1.0, so the red
    // channel would reach 510 before the clamp and every channel saturates.
    let light = Vec3 { x: 0, y: 0, z: -SCALE };
    let color = Vec3 { x: SCALE, y: 0, z: 0 };
    let p = shade_hit(origin(), cam_at_minus_50(), forward(), 45 * SCALE, light, color);
    assert_eq!(p, Pixel { r: 255, g: 255, b: 255 });
}

#[test]
fn angled_light_gives_exact_shade() {
    // Light from a 3-4-5 direction: normalize((0, -3, -4)) is (0, -615, -820)
    // after floor rounding. At the head-on hit the normal is (0, 0, -1024),
    // so diffuse = 820 (0.80), the specular base is 820, its 12th power is
    // 70, and the channels come out as (820+70)*255/1024 = 221 for red and
    // 70*255/1024 = 17 for green and blue.
    let light = normalize(Vec3 { x: 0, y: -3 * SCALE, z: -4 * SCALE });
    assert_eq!(light, Vec3 { x: 0, y: -615, z: -820 });
    let color = Vec3 { x: SCALE, y: 0, z: 0 };
    let p = shade_hit(origin(), cam_at_minus_50(), forward(), 45 * SCALE, light, color);
    assert_eq!(p, Pixel { r: 221, g: 17, b: 17 });
}

fn single_red_sphere_scene() -> Scene {
    let light = normalize(Vec3 { x: 500 * SCALE, y: -50 * SCALE, z: -100 * SCALE });
    let color = Vec3 { x: SCALE, y: 0, z: 0 };
    Scene::new(vec![origin()], light, color, 5 * SCALE).unwrap()
}

#[test]
fn center_pixel_hits_and_is_red_or_white() {
    // The end-to-end scenario: one red sphere of radius 5 at the origin,
    // camera at (0, 0, -50), the fixed normalized light. The image-center
    // ray points straight at the sphere.
    let scene = single_red_sphere_scene();
    let p = shade_pixel(640, 360, 1280, 720, cam_at_minus_50(), &scene);
    assert!(p.r > 0);
    assert!(p.r >= p.g);
    assert!(p.r >= p.b);
}

#[test]
fn corner_pixel_is_exactly_black() {
    let scene = single_red_sphere_scene();
    let p = shade_pixel(0, 0, 1280, 720, cam_at_minus_50(), &scene);
    assert_eq!(p, Pixel { r: 0, g: 0, b: 0 });
}

#[test]
fn shading_is_deterministic() {
    let scene = single_red_sphere_scene();
    let p1 = shade_pixel(640, 360, 1280, 720, cam_at_minus_50(), &scene);
    let p2 = shade_pixel(640, 360, 1280, 720, cam_at_minus_50(), &scene);
    assert_eq!(p1, p2);
    let q1 = shade_pixel(17, 3, 1280, 720, cam_at_minus_50(), &scene);
    let q2 = shade_pixel(17, 3, 1280, 720, cam_at_minus_50(), &scene);
    assert_eq!(q1, q2);
}

#[test]
fn render_produces_row_major_grid() {
    let scene = single_red_sphere_scene();
    let cam = cam_at_minus_50();
    let out = raycast::render::render(8, 4, cam, &scene);
    assert_eq!(out.len(), 32);
    for y in 0..4usize {
        for x in 0..8usize {
            let expected = shade_pixel(x, y, 8, 4, cam, &scene);
            assert_eq!(out[y * 8 + x], expected);
        }
    }
}

#[test]
fn render_of_empty_sky_is_black() {
    // A sphere far off to the side: every ray of a small image misses.
    let far = Vec3 { x: 200 * SCALE, y: 0, z: 40 * SCALE };
    let light = normalize(Vec3 { x: 0, y: 0, z: -SCALE });
    let color = Vec3 { x: SCALE, y: 0, z: 0 };
    let scene = Scene::new(vec![far], light, color, 5 * SCALE).unwrap();
    let out = raycast::render::render(4, 4, cam_at_minus_50(), &scene);
    assert_eq!(out.len(), 16);
    for p in out {
        assert_eq!(p, Pixel { r: 0, g: 0, b: 0 });
    }
}
