use raytracer::fixed::SCALE;
use raytracer::hittable::HitRecord;
use raytracer::material::{Lambertian, Material};
use raytracer::vec3::Vec3;

#[test]
fn fresh_record_is_zeroed() {
    let rec = HitRecord::new();
    assert_eq!(rec.p, Vec3::new(0, 0, 0));
    assert_eq!(rec.normal, Vec3::new(0, 0, 0));
    assert_eq!(rec.t, 0);
    assert!(!rec.front_face);
}

#[test]
fn record_set_copies_every_field() {
    let mut rec = HitRecord::new();
    let other = HitRecord {
        p: Vec3::new(1, 2, 3),
        normal: Vec3::new(0, 1_000_000, 0),
        t: 42,
        material: Material::Lambertian(Lambertian::new(&Vec3::new(100_000, 0, 0))),
        front_face: true,
    };
    rec.set(&other);
    assert_eq!(rec, other);
}

#[test]
fn random_vectors_stay_in_their_intervals() {
    for _ in 0..50 {
        let v = Vec3::random();
        assert!(0 <= v.x() && v.x() < SCALE);
        assert!(0 <= v.y() && v.y() < SCALE);
        assert!(0 <= v.z() && v.z() < SCALE);
        let w = Vec3::random_range(-SCALE, SCALE);
        assert!(-SCALE <= w.x() && w.x() < SCALE);
        assert!(-SCALE <= w.y() && w.y() < SCALE);
        assert!(-SCALE <= w.z() && w.z() < SCALE);
    }
}
