use raycast::fixed::{clamp_i64, div_floor, fp_div, fp_mul, isqrt, SCALE};

#[test]
fn scale_is_one() {
    assert_eq!(SCALE, 1024);
}

#[test]
fn fp_mul_two_times_two() {
    // 2.0 * 2.0 == 4.0
    assert_eq!(fp_mul(2 * SCALE, 2 * SCALE), 4 * SCALE);
}

#[test]
fn fp_mul_negative() {
    // -2.0 * 1.0 == -2.0
    assert_eq!(fp_mul(-2 * SCALE, SCALE), -2 * SCALE);
}

#[test]
fn fp_div_half() {
    // 1.0 / 2.0 == 0.5
    assert_eq!(fp_div(SCALE, 2 * SCALE), SCALE / 2);
}

#[test]
fn div_floor_rounds_down() {
    assert_eq!(div_floor(7, 2), 3);
    assert_eq!(div_floor(-3, 2), -2);
    assert_eq!(div_floor(-4, 2), -2);
}

#[test]
fn isqrt_small_values() {
    assert_eq!(isqrt(0), 0);
    assert_eq!(isqrt(1), 1);
    assert_eq!(isqrt(3), 1);
    assert_eq!(isqrt(4), 2);
    assert_eq!(isqrt(1_048_576), 1024);
}

#[test]
fn isqrt_largest_input() {
    assert_eq!(isqrt(u64::MAX), 4_294_967_295);
}

#[test]
fn clamp_both_sides() {
    assert_eq!(clamp_i64(300, 0, 255), 255);
    assert_eq!(clamp_i64(-7, 0, 255), 0);
    assert_eq!(clamp_i64(200, 0, 255), 200);
}
