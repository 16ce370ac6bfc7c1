//! The result of a successful ray-object intersection.

use vstd::prelude::*;

verus! {

use crate::vec3::{Vec3, Point3, dots, vneg, in_range, lemma_dot_bound2};
use crate::ray::Ray;
use crate::material::{Material, Lambertian};

/// Largest coordinate magnitude (one thousand units) under which the
/// sphere quadratic stays inside `i128`.
pub const COORD_MAX: i128 = 1_000_000_000;

/// Magnitude bound for raw outward normals as the division by the radius
/// can produce them.
pub const NORMAL_MAX: i128 = 10_000_000_000_000_000_000_000_000_000;

/// A hit: the point reached, the normal oriented against the incoming ray,
/// the ray parameter, the struck object's material, and whether the
/// outward-facing side was hit.
#[derive(Clone, Copy, Debug, PartialEq, Eq, Structural)]
pub struct HitRecord {
    pub p: Point3,
    pub normal: Vec3,
    pub t: i128,
    pub material: Material,
    pub front_face: bool,
}

impl HitRecord {
    /// An empty record: everything zero, a black diffuse material.
    pub fn new() -> (r: Self)
        ensures
            r.p@ == (0int, 0int, 0int),
            r.normal@ == (0int, 0int, 0int),
            r.t == 0,
            r.front_face == false,
    {
        HitRecord {
            p: Vec3::new(0, 0, 0),
            normal: Vec3::new(0, 0, 0),
            t: 0,
            material: Material::Lambertian(Lambertian::new(&Vec3::new(0, 0, 0))),
            front_face: false,
        }
    }

    /// Orient the stored normal against the incoming ray: the outward
    /// normal when the ray arrives from outside, its negation otherwise.
    pub fn set_face_normal(&mut self, r: &Ray, outward_normal: &Vec3)
        requires
            in_range(r.dir@, COORD_MAX as int),
            in_range(outward_normal@, NORMAL_MAX as int),
        ensures
            final(self).front_face == (dots(r.dir@, outward_normal@) < 0),
            final(self).normal@ == if dots(r.dir@, outward_normal@) < 0 {
                outward_normal@
            } else {
                vneg(outward_normal@)
            },
            final(self).p == old(self).p,
            final(self).t == old(self).t,
            final(self).material == old(self).material,
    {
        proof {
            lemma_dot_bound2(r.dir@, outward_normal@, COORD_MAX as int, NORMAL_MAX as int);
        }
        let d: i128 = r.dir.e0 * outward_normal.e0 + r.dir.e1 * outward_normal.e1 + r.dir.e2
            * outward_normal.e2;
        self.front_face = d < 0;
        self.normal = if self.front_face {
            *outward_normal
        } else {
            outward_normal.neg()
        };
    }

    /// Overwrite this record with another.
    pub fn set(&mut self, other: &HitRecord)
        ensures
            *final(self) == *other,
    {
        self.p = other.p;
        self.normal = other.normal;
        self.t = other.t;
        self.material = other.material;
        self.front_face = other.front_face;
    }
}

} // verus!
