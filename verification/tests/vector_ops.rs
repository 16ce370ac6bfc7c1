use raytracer::fixed::SCALE;
use raytracer::vec3::{
    check_range, cross, dot, random_in_hemisphere, random_in_unit_disk, random_in_unit_sphere,
    random_unit_vector, reflect, refract, unit_vector, Vec3,
};

#[test]
fn accessors_and_index() {
    let v = Vec3::new(1, 2, 3);
    assert_eq!(v.x(), 1);
    assert_eq!(v.y(), 2);
    assert_eq!(v.z(), 3);
    assert_eq!(v.index(0), 1);
    assert_eq!(v.index(1), 2);
    assert_eq!(v.index(2), 3);
}

#[test]
fn componentwise_arithmetic() {
    let a = Vec3::new(1_000_000, 2_000_000, -3_000_000);
    let b = Vec3::new(500_000, -500_000, 1_000_000);
    assert_eq!(a.add(&b), Vec3::new(1_500_000, 1_500_000, -2_000_000));
    assert_eq!(a.sub(&b), Vec3::new(500_000, 2_500_000, -4_000_000));
    assert_eq!(a.neg(), Vec3::new(-1_000_000, -2_000_000, 3_000_000));
    // Component-wise color product: 1 * 0.5, 2 * -0.5, -3 * 1.
    assert_eq!(a.mul(&b), Vec3::new(500_000, -1_000_000, -3_000_000));
    // Scalar product by 0.5.
    assert_eq!(a.scale(500_000), Vec3::new(500_000, 1_000_000, -1_500_000));
    // Division by the scalar 2.0 (two whole units).
    assert_eq!(a.div_scalar(2_000_000), Vec3::new(500_000, 1_000_000, -1_500_000));
}

#[test]
fn vector_set_overwrites() {
    let mut a = Vec3::new(1, 2, 3);
    a.set(&Vec3::new(9, 8, 7));
    assert_eq!(a, Vec3::new(9, 8, 7));
}

#[test]
fn dot_is_raw_product_sum() {
    let u = Vec3::new(2_000_000, 0, 0);
    let v = Vec3::new(3_000_000, 4_000_000, 0);
    // 2 * 3 == 6 in squared micro-units.
    assert_eq!(dot(&u, &v), 6_000_000_000_000);
    assert_eq!(dot(&u, &Vec3::new(0, 5, 0)), 0);
}

#[test]
fn cross_of_axes() {
    let x = Vec3::new(1_000_000, 0, 0);
    let y = Vec3::new(0, 1_000_000, 0);
    assert_eq!(cross(&x, &y), Vec3::new(0, 0, 1_000_000));
    assert_eq!(cross(&y, &x), Vec3::new(0, 0, -1_000_000));
}

#[test]
fn length_of_three_four_five() {
    let v = Vec3::new(3_000_000, 4_000_000, 0);
    assert_eq!(v.length_squared(), 25_000_000_000_000);
    assert_eq!(v.length(), 5_000_000);
}

#[test]
fn unit_vector_of_three_four_five() {
    let v = Vec3::new(3_000_000, 4_000_000, 0);
    assert_eq!(unit_vector(&v), Vec3::new(600_000, 800_000, 0));
}

#[test]
fn near_zero_is_exact_zero() {
    assert!(Vec3::new(0, 0, 0).near_zero());
    assert!(!Vec3::new(0, 1, 0).near_zero());
}

#[test]
fn reflect_bounces_off_plane() {
    // A ray going down-right reflects off a floor to up-right.
    let v = Vec3::new(1_000_000, -1_000_000, 0);
    let n = Vec3::new(0, 1_000_000, 0);
    assert_eq!(reflect(&v, &n), Vec3::new(1_000_000, 1_000_000, 0));
}

#[test]
fn refract_head_on_unit_ratio_is_undeviated() {
    let uv = Vec3::new(0, -1_000_000, 0);
    let n = Vec3::new(0, 1_000_000, 0);
    assert_eq!(refract(&uv, &n, 1_000_000), uv);
}

#[test]
fn random_in_unit_sphere_stays_inside() {
    for _ in 0..50 {
        let p = random_in_unit_sphere();
        assert!(p.length_squared() < SCALE * SCALE);
        assert!(check_range(&p, SCALE));
    }
}

#[test]
fn random_unit_vector_is_near_unit() {
    for _ in 0..50 {
        let p = random_unit_vector();
        assert!(check_range(&p, SCALE));
        assert!(!p.near_zero());
    }
}

#[test]
fn random_in_hemisphere_agrees_with_normal() {
    let n = Vec3::new(0, 1_000_000, 0);
    for _ in 0..50 {
        let p = random_in_hemisphere(&n);
        assert!(dot(&p, &n) >= 0);
    }
}

#[test]
fn random_in_unit_disk_is_flat() {
    for _ in 0..50 {
        let p = random_in_unit_disk();
        assert_eq!(p.z(), 0);
        assert!(p.length_squared() < SCALE * SCALE);
    }
}
