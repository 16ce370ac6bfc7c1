use raytracer::fixed::{clamp, div_trunc, isqrt, mul_fixed, sqrt_fixed, SCALE};
use raytracer::rtweekend::{degrees_to_radians, random_double, random_double_range, INFINITY, PI};

#[test]
fn isqrt_exact_squares() {
    assert_eq!(isqrt(0), 0);
    assert_eq!(isqrt(1), 1);
    assert_eq!(isqrt(144), 12);
    assert_eq!(isqrt(145), 12);
    assert_eq!(isqrt(168), 12);
    assert_eq!(isqrt(169), 13);
    assert_eq!(isqrt(1_000_000_000_000), 1_000_000);
}

#[test]
fn sqrt_fixed_is_fixed_point_sqrt() {
    // sqrt(0.25) == 0.5 in micro-units.
    assert_eq!(sqrt_fixed(250_000), 500_000);
    // sqrt(1.0) == 1.0.
    assert_eq!(sqrt_fixed(1_000_000), 1_000_000);
    // sqrt(2.0) truncated: 1.414213...
    assert_eq!(sqrt_fixed(2_000_000), 1_414_213);
}

#[test]
fn div_trunc_rounds_toward_zero() {
    assert_eq!(div_trunc(7, 2), 3);
    assert_eq!(div_trunc(-7, 2), -3);
    assert_eq!(div_trunc(6, 3), 2);
    assert_eq!(div_trunc(0, 5), 0);
}

#[test]
fn mul_fixed_rescales_products() {
    // 0.5 * 0.5 == 0.25.
    assert_eq!(mul_fixed(500_000, 500_000), 250_000);
    assert_eq!(mul_fixed(-500_000, 500_000), -250_000);
    // Products below one micro-unit truncate to zero.
    assert_eq!(mul_fixed(1, 1), 0);
    // Multiplication by one is exact.
    assert_eq!(mul_fixed(SCALE, 123_456), 123_456);
    assert_eq!(mul_fixed(SCALE, -123_456), -123_456);
}

#[test]
fn clamp_bounds() {
    assert_eq!(clamp(5, 0, 10), 5);
    assert_eq!(clamp(-5, 0, 10), 0);
    assert_eq!(clamp(15, 0, 10), 10);
}

#[test]
fn degrees_to_radians_half_turn() {
    // 180 degrees is pi radians.
    assert_eq!(degrees_to_radians(180_000_000), PI);
    // 90 degrees is pi / 2, truncated.
    assert_eq!(degrees_to_radians(90_000_000), 1_570_796);
    assert_eq!(degrees_to_radians(0), 0);
}

#[test]
fn random_double_stays_in_unit_interval() {
    for _ in 0..200 {
        let r = random_double();
        assert!(0 <= r && r < SCALE);
    }
}

#[test]
fn random_double_range_stays_in_interval() {
    for _ in 0..200 {
        let r = random_double_range(2_000_000, 3_000_000);
        assert!(2_000_000 <= r && r < 3_000_000);
    }
    assert_eq!(random_double_range(7, 7), 7);
}

#[test]
fn infinity_dominates_scene_distances() {
    // The stand-in for an unbounded parameter is far beyond the
    // coordinate bound of any scene.
    assert!(INFINITY > 1_000 * SCALE);
}
