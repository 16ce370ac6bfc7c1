use raytracer::hittable::HitRecord;
use raytracer::material::{Dielectric, Lambertian, Material, Metal};
use raytracer::ray::Ray;
use raytracer::vec3::{dot, reflect, unit_vector, Vec3};

fn record_at(p: Vec3, normal: Vec3, front_face: bool) -> HitRecord {
    HitRecord {
        p,
        normal,
        t: 1_000_000,
        material: Material::Lambertian(Lambertian::new(&Vec3::new(0, 0, 0))),
        front_face,
    }
}

#[test]
fn lambertian_scatters_albedo_from_hit_point() {
    let albedo = Vec3::new(100_000, 200_000, 300_000);
    let mat = Lambertian::new(&albedo);
    let rec = record_at(Vec3::new(1, 2, 3), Vec3::new(0, 1_000_000, 0), true);
    let r_in = Ray::new(&Vec3::new(0, 0, 0), &Vec3::new(0, -1_000_000, 0));
    let sample = Vec3::new(1_000_000, 0, 0);
    let (att, scattered) = mat.scatter(&r_in, &rec, &sample);
    assert_eq!(att, albedo);
    assert_eq!(scattered.origin(), rec.p);
    assert_eq!(scattered.direction(), Vec3::new(1_000_000, 1_000_000, 0));
}

#[test]
fn lambertian_degenerate_sum_falls_back_to_normal() {
    // A sample that exactly cancels the normal exercises the near-zero
    // fallback: the direction is never zero length.
    let mat = Lambertian::new(&Vec3::new(500_000, 500_000, 500_000));
    let normal = Vec3::new(0, 1_000_000, 0);
    let rec = record_at(Vec3::new(0, 0, 0), normal, true);
    let r_in = Ray::new(&Vec3::new(0, 0, 0), &Vec3::new(0, -1_000_000, 0));
    let sample = Vec3::new(0, -1_000_000, 0);
    let (_, scattered) = mat.scatter(&r_in, &rec, &sample);
    assert_eq!(scattered.direction(), normal);
    assert!(!scattered.direction().near_zero());
}

#[test]
fn metal_clamps_fuzz_at_construction() {
    let c = Vec3::new(500_000, 500_000, 500_000);
    assert_eq!(Metal::new(&c, 2_000_000).fuzz, 1_000_000);
    assert_eq!(Metal::new(&c, -5).fuzz, 0);
    assert_eq!(Metal::new(&c, 300_000).fuzz, 300_000);
}

#[test]
fn metal_without_fuzz_is_exact_specular_reflection() {
    let mat = Metal::new(&Vec3::new(900_000, 900_000, 900_000), 0);
    let normal = Vec3::new(0, 1_000_000, 0);
    let rec = record_at(Vec3::new(0, 0, 0), normal, true);
    let incoming = Vec3::new(1_000_000, -1_000_000, 0);
    let r_in = Ray::new(&Vec3::new(-1_000_000, 1_000_000, 0), &incoming);
    let sample = Vec3::new(333_333, -123_456, 7);
    let (_, scattered) = mat.scatter(&r_in, &rec, &sample).unwrap();
    let expected = reflect(&unit_vector(&incoming), &normal);
    assert_eq!(scattered.direction(), expected);
    assert_eq!(scattered.direction(), Vec3::new(707_107, 707_107, 0));
}

#[test]
fn metal_absorbs_rays_scattered_into_the_surface() {
    let mat = Metal::new(&Vec3::new(900_000, 900_000, 900_000), 0);
    let normal = Vec3::new(0, 1_000_000, 0);
    let rec = record_at(Vec3::new(0, 0, 0), normal, true);
    // An incoming ray leaving the surface reflects back into it.
    let r_in = Ray::new(&Vec3::new(0, 0, 0), &Vec3::new(1_000_000, 1_000_000, 0));
    let sample = Vec3::new(0, 0, 0);
    assert!(mat.scatter(&r_in, &rec, &sample).is_none());
}

#[test]
fn dielectric_head_on_unit_index_is_undeviated() {
    let mat = Dielectric::new(1_000_000);
    let normal = Vec3::new(0, 0, 1_000_000);
    let rec = record_at(Vec3::new(0, 0, 0), normal, true);
    let r_in = Ray::new(&Vec3::new(0, 0, 1_000_000), &Vec3::new(0, 0, -1_000_000));
    let (att, scattered) = mat.scatter(&r_in, &rec, 500_000);
    assert_eq!(att, Vec3::new(1_000_000, 1_000_000, 1_000_000));
    assert_eq!(scattered.direction(), Vec3::new(0, 0, -1_000_000));
}

#[test]
fn dielectric_oblique_unit_index_is_undeviated() {
    // A 3-4-5 incidence: every intermediate quantity is exact, and the
    // refracted direction equals the (unit) incoming direction.
    let mat = Dielectric::new(1_000_000);
    let normal = Vec3::new(0, 0, 1_000_000);
    let rec = record_at(Vec3::new(0, 0, 0), normal, true);
    let incoming = Vec3::new(600_000, 0, -800_000);
    let r_in = Ray::new(&Vec3::new(0, 0, 1_000_000), &incoming);
    let (_, scattered) = mat.scatter(&r_in, &rec, 500_000);
    assert_eq!(scattered.direction(), incoming);
}

#[test]
fn dielectric_reflects_when_the_coin_beats_schlick() {
    // Same geometry, but a coin below the Schlick reflectance of 320
    // micro-units forces the reflection branch.
    let mat = Dielectric::new(1_000_000);
    let normal = Vec3::new(0, 0, 1_000_000);
    let rec = record_at(Vec3::new(0, 0, 0), normal, true);
    let incoming = Vec3::new(600_000, 0, -800_000);
    let r_in = Ray::new(&Vec3::new(0, 0, 1_000_000), &incoming);
    let (_, scattered) = mat.scatter(&r_in, &rec, 319);
    assert_eq!(scattered.direction(), reflect(&unit_vector(&incoming), &normal));
    assert_eq!(scattered.direction(), Vec3::new(600_000, 0, 800_000));
}

#[test]
fn dielectric_total_internal_reflection() {
    // Leaving glass (back face, ratio 1.5) at a grazing angle: the sine
    // scaled by the ratio exceeds one, so the ray must reflect.
    let mat = Dielectric::new(1_500_000);
    let normal = Vec3::new(0, 0, 1_000_000);
    let rec = record_at(Vec3::new(0, 0, 0), normal, false);
    let incoming = Vec3::new(800_000, 0, -600_000);
    let r_in = Ray::new(&Vec3::new(0, 0, 1_000_000), &incoming);
    let (_, scattered) = mat.scatter(&r_in, &rec, 999_999);
    assert_eq!(scattered.direction(), Vec3::new(800_000, 0, 600_000));
}

#[test]
fn material_dispatch_scatters_per_model() {
    let rec = record_at(Vec3::new(0, 0, 0), Vec3::new(0, 1_000_000, 0), true);
    let r_in = Ray::new(&Vec3::new(0, 1_000_000, 0), &Vec3::new(0, -1_000_000, 0));
    let albedo = Vec3::new(400_000, 200_000, 100_000);
    let lamb = Material::Lambertian(Lambertian::new(&albedo));
    let (att, sc) = lamb.scatter(&r_in, &rec).unwrap();
    assert_eq!(att, albedo);
    assert_eq!(sc.origin(), rec.p);
    let diel = Material::Dielectric(Dielectric::new(1_500_000));
    let (att2, _) = diel.scatter(&r_in, &rec).unwrap();
    assert_eq!(att2, Vec3::new(1_000_000, 1_000_000, 1_000_000));
}

#[test]
fn metal_fuzz_perturbs_the_reflection() {
    let mat = Metal::new(&Vec3::new(900_000, 900_000, 900_000), 500_000);
    let normal = Vec3::new(0, 1_000_000, 0);
    let rec = record_at(Vec3::new(0, 0, 0), normal, true);
    let incoming = Vec3::new(1_000_000, -1_000_000, 0);
    let r_in = Ray::new(&Vec3::new(0, 0, 0), &incoming);
    let sample = Vec3::new(0, 400_000, 0);
    let (_, scattered) = mat.scatter(&r_in, &rec, &sample).unwrap();
    // reflect gives (707107, 707107, 0); fuzz 0.5 times the sample adds
    // (0, 200000, 0).
    assert_eq!(scattered.direction(), Vec3::new(707_107, 907_107, 0));
}

#[test]
fn dot_orientation_matches_front_face_flag() {
    // The record's normal always opposes the incoming ray after
    // set_face_normal.
    let mut rec = record_at(Vec3::new(0, 0, 0), Vec3::new(0, 0, 0), false);
    let r = Ray::new(&Vec3::new(0, 0, 0), &Vec3::new(0, 0, -1_000_000));
    let outward = Vec3::new(0, 0, 1_000_000);
    rec.set_face_normal(&r, &outward);
    assert!(rec.front_face);
    assert_eq!(rec.normal, outward);
    let r_back = Ray::new(&Vec3::new(0, 0, 0), &Vec3::new(0, 0, 1_000_000));
    rec.set_face_normal(&r_back, &outward);
    assert!(!rec.front_face);
    assert_eq!(rec.normal, Vec3::new(0, 0, -1_000_000));
    assert!(dot(&r_back.direction(), &rec.normal) < 0);
}
