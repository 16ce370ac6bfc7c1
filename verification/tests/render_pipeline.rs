use raytracer::camera::Camera;
use raytracer::color::{background_color, pixel_value, ray_color};
use raytracer::hittable_list::HittableList;
use raytracer::material::{Lambertian, Material};
use raytracer::ray::Ray;
use raytracer::sphere::Sphere;
use raytracer::vec3::Vec3;

fn gray() -> Material {
    Material::Lambertian(Lambertian::new(&Vec3::new(500_000, 500_000, 500_000)))
}

fn one_sphere_world() -> HittableList {
    let mut world = HittableList::new();
    world.add(Sphere::new(Vec3::new(0, 0, -1_000_000), 500_000, gray()));
    world
}

#[test]
fn depth_zero_is_black() {
    let world = one_sphere_world();
    let r = Ray::new(&Vec3::new(0, 0, 0), &Vec3::new(0, 0, -1_000_000));
    assert_eq!(ray_color(&r, &world, 0), Vec3::new(0, 0, 0));
    assert_eq!(ray_color(&r, &world, -3), Vec3::new(0, 0, 0));
}

#[test]
fn background_is_symmetric() {
    let world = HittableList::new();
    let up = Ray::new(&Vec3::new(0, 0, 0), &Vec3::new(0, 1_000_000, 0));
    let down = Ray::new(&Vec3::new(0, 0, 0), &Vec3::new(0, -1_000_000, 0));
    assert_eq!(ray_color(&up, &world, 5), Vec3::new(500_000, 700_000, 1_000_000));
    assert_eq!(ray_color(&down, &world, 5), Vec3::new(1_000_000, 1_000_000, 1_000_000));
}

#[test]
fn background_does_not_depend_on_direction_length() {
    let world = HittableList::new();
    let short = Ray::new(&Vec3::new(0, 0, 0), &Vec3::new(0, 500_000, 0));
    assert_eq!(ray_color(&short, &world, 5), Vec3::new(500_000, 700_000, 1_000_000));
}

fn central_camera() -> Camera {
    Camera::new(
        Vec3::new(0, 0, 0),
        Vec3::new(0, 0, -1_000_000),
        Vec3::new(0, 1_000_000, 0),
        1_000_000,  // tangent of half the field of view: 45 degrees up
        1_000_000,  // square viewport
        0,          // pinhole: no defocus blur
        1_000_000,  // focus plane one unit ahead
    )
}

#[test]
fn camera_basis_and_viewport() {
    let cam = central_camera();
    assert_eq!(cam.origin, Vec3::new(0, 0, 0));
    assert_eq!(cam.w, Vec3::new(0, 0, 1_000_000));
    assert_eq!(cam.u, Vec3::new(1_000_000, 0, 0));
    assert_eq!(cam.v, Vec3::new(0, 1_000_000, 0));
    assert_eq!(cam.horizontal, Vec3::new(2_000_000, 0, 0));
    assert_eq!(cam.vertical, Vec3::new(0, 2_000_000, 0));
    assert_eq!(cam.lower_left_corner, Vec3::new(-1_000_000, -1_000_000, -1_000_000));
    assert_eq!(cam.lens_radius, 0);
}

#[test]
fn pinhole_rays_are_deterministic() {
    let cam = central_camera();
    let center = cam.get_ray(500_000, 500_000);
    assert_eq!(center.origin(), Vec3::new(0, 0, 0));
    assert_eq!(center.direction(), Vec3::new(0, 0, -1_000_000));
    let corner = cam.get_ray(0, 0);
    assert_eq!(corner.direction(), Vec3::new(-1_000_000, -1_000_000, -1_000_000));
}

#[test]
fn central_pixel_hits_and_corner_pixel_misses() {
    // End to end: sphere of radius one half, one unit ahead; with a
    // single bounce every hit resolves to black (the diffuse bounce runs
    // out of depth), while a miss shows the background gradient, whose
    // blue component is always one.
    let world = one_sphere_world();
    let cam = central_camera();
    let center = cam.get_ray(500_000, 500_000);
    let center_color = ray_color(&center, &world, 1);
    assert_eq!(center_color, Vec3::new(0, 0, 0));
    let corner = cam.get_ray(0, 0);
    let corner_color = ray_color(&corner, &world, 1);
    assert_eq!(corner_color, background_color(&corner));
    assert_eq!(corner_color.z(), 1_000_000);
    // Deterministic per direction: the same ray gives the same color.
    assert_eq!(corner_color, ray_color(&corner, &world, 1));
}

#[test]
fn pixel_values_resolve_with_gamma() {
    // A quarter-intensity component gamma-corrects to one half: 128.
    let c = Vec3::new(250_000, 0, 1_000_000);
    let (r, g, b) = pixel_value(&c, 1);
    assert_eq!(r, 128);
    assert_eq!(g, 0);
    // Full intensity clamps at 0.999 and maps to 255.
    assert_eq!(b, 255);
}

#[test]
fn pixel_values_average_over_samples() {
    // Two samples summing to one half average to one quarter.
    let c = Vec3::new(500_000, 500_000, 500_000);
    let (r, g, b) = pixel_value(&c, 2);
    assert_eq!((r, g, b), (128, 128, 128));
}

#[test]
fn ray_accessors_and_at() {
    let r = Ray::new(&Vec3::new(1_000_000, 0, 0), &Vec3::new(0, 0, -1_000_000));
    assert_eq!(r.origin(), Vec3::new(1_000_000, 0, 0));
    assert_eq!(r.direction(), Vec3::new(0, 0, -1_000_000));
    // Half a unit along the ray.
    assert_eq!(r.at(500_000), Vec3::new(1_000_000, 0, -500_000));
    let mut s = Ray::new(&Vec3::new(0, 0, 0), &Vec3::new(0, 0, 0));
    s.set(&r);
    assert_eq!(s.origin(), r.origin());
    assert_eq!(s.direction(), r.direction());
}
