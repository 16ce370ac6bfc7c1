use raytracer::material::{Lambertian, Material};
use raytracer::ray::Ray;
use raytracer::rtweekend::INFINITY;
use raytracer::sphere::Sphere;
use raytracer::vec3::{dot, Vec3};

fn gray() -> Material {
    Material::Lambertian(Lambertian::new(&Vec3::new(500_000, 500_000, 500_000)))
}

#[test]
fn axis_sphere_roots_are_exact() {
    // Sphere two units ahead on the axis, radius one half: the near root
    // is 1.5, and the hit point lies exactly on the surface.
    let s = Sphere::new(Vec3::new(0, 0, -2_000_000), 500_000, gray());
    let r = Ray::new(&Vec3::new(0, 0, 0), &Vec3::new(0, 0, -1_000_000));
    let rec = s.hit(&r, 1_000, INFINITY).unwrap();
    assert_eq!(rec.t, 1_500_000);
    assert_eq!(rec.p, Vec3::new(0, 0, -1_500_000));
    let from_center = rec.p.sub(&Vec3::new(0, 0, -2_000_000));
    assert_eq!(from_center.length_squared(), 500_000i128 * 500_000i128);
    assert!(rec.front_face);
    assert_eq!(rec.normal, Vec3::new(0, 0, 1_000_000));
}

#[test]
fn ray_from_inside_reports_exit_with_back_face() {
    // Ray origin at the center of a unit sphere: the near root is behind
    // the window, the exit is reported, and the inside face is flagged.
    let s = Sphere::new(Vec3::new(0, 0, 0), 1_000_000, gray());
    let r = Ray::new(&Vec3::new(0, 0, 0), &Vec3::new(0, 0, -1_000_000));
    let rec = s.hit(&r, 1_000, INFINITY).unwrap();
    assert_eq!(rec.t, 1_000_000);
    assert_eq!(rec.p, Vec3::new(0, 0, -1_000_000));
    assert!(!rec.front_face);
    // The stored normal still points against the ray.
    assert_eq!(rec.normal, Vec3::new(0, 0, 1_000_000));
    assert!(dot(&r.direction(), &rec.normal) < 0);
}

#[test]
fn offset_ray_misses() {
    let s = Sphere::new(Vec3::new(0, 0, -2_000_000), 500_000, gray());
    let r = Ray::new(&Vec3::new(3_000_000, 0, 0), &Vec3::new(0, 0, -1_000_000));
    assert!(s.hit(&r, 1_000, INFINITY).is_none());
}

#[test]
fn window_excludes_both_roots() {
    let s = Sphere::new(Vec3::new(0, 0, -2_000_000), 500_000, gray());
    let r = Ray::new(&Vec3::new(0, 0, 0), &Vec3::new(0, 0, -1_000_000));
    // Roots are 1.5 and 2.5; a window ending at 1.0 sees neither.
    assert!(s.hit(&r, 1_000, 1_000_000).is_none());
}

#[test]
fn near_root_outside_window_falls_back_to_far_root() {
    let s = Sphere::new(Vec3::new(0, 0, -2_000_000), 500_000, gray());
    let r = Ray::new(&Vec3::new(0, 0, 0), &Vec3::new(0, 0, -1_000_000));
    let rec = s.hit(&r, 1_600_000, INFINITY).unwrap();
    assert_eq!(rec.t, 2_500_000);
    assert!(!rec.front_face);
}

#[test]
fn window_bounds_are_strict() {
    let s = Sphere::new(Vec3::new(0, 0, -2_000_000), 500_000, gray());
    let r = Ray::new(&Vec3::new(0, 0, 0), &Vec3::new(0, 0, -1_000_000));
    // A root exactly at the lower bound is rejected in favor of the far
    // root; one exactly at the upper bound is rejected outright.
    let rec = s.hit(&r, 1_500_000, INFINITY).unwrap();
    assert_eq!(rec.t, 2_500_000);
    assert!(s.hit(&r, 1_000, 1_500_000).is_none());
}

#[test]
fn hit_carries_the_material() {
    let m = Material::Lambertian(Lambertian::new(&Vec3::new(100_000, 200_000, 300_000)));
    let s = Sphere::new(Vec3::new(0, 0, -2_000_000), 500_000, m);
    let r = Ray::new(&Vec3::new(0, 0, 0), &Vec3::new(0, 0, -1_000_000));
    let rec = s.hit(&r, 1_000, INFINITY).unwrap();
    assert_eq!(rec.material, m);
}

#[test]
fn tangent_ray_has_a_double_root() {
    // The discriminant is exactly zero: both roots coincide at t = 2 and
    // the graze is reported with a zero-dot (back-face) orientation.
    let s = Sphere::new(Vec3::new(0, 500_000, -2_000_000), 500_000, gray());
    let r = Ray::new(&Vec3::new(0, 0, 0), &Vec3::new(0, 0, -1_000_000));
    let rec = s.hit(&r, 1_000, INFINITY).unwrap();
    assert_eq!(rec.t, 2_000_000);
    let from_center = rec.p.sub(&Vec3::new(0, 500_000, -2_000_000));
    assert_eq!(from_center.length_squared(), 500_000i128 * 500_000i128);
    assert!(!rec.front_face);
}
