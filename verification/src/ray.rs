//! Rays: an origin and a (not necessarily unit) direction.

use vstd::prelude::*;

verus! {

use crate::fixed::{FXMAX, ADD_MAX};
use crate::vec3::{Vec3, Point3, vadd, vscale, in_range};

/// Parametric evaluation: the point `origin + t * direction`.
pub open spec fn ray_at_s(orig: (int, int, int), dir: (int, int, int), t: int) -> (int, int, int) {
    vadd(orig, vscale(t, dir))
}

#[derive(Clone, Copy, Debug, PartialEq, Eq, Structural)]
pub struct Ray {
    pub orig: Point3,
    pub dir: Vec3,
}

impl Ray {
    pub fn new(origin: &Point3, direction: &Vec3) -> (r: Self)
        ensures
            r.orig@ == origin@,
            r.dir@ == direction@,
    {
        Ray { orig: *origin, dir: *direction }
    }

    pub fn origin(&self) -> (r: Point3)
        ensures
            r@ == self.orig@,
    {
        self.orig
    }

    pub fn direction(&self) -> (r: Vec3)
        ensures
            r@ == self.dir@,
    {
        self.dir
    }

    /// The point the ray reaches at parameter `t`.
    pub fn at(&self, t: i128) -> (r: Point3)
        requires
            -FXMAX <= t <= FXMAX,
            in_range(self.dir@, FXMAX as int),
            in_range(self.orig@, ADD_MAX as int),
        ensures
            r@ == ray_at_s(self.orig@, self.dir@, t as int),
    {
        let scaled: Vec3 = self.dir.scale(t);
        self.orig.add(&scaled)
    }

    /// Overwrite this ray with another.
    pub fn set(&mut self, other: &Ray)
        ensures
            final(self).orig@ == other.orig@,
            final(self).dir@ == other.dir@,
    {
        self.orig = other.orig;
        self.dir = other.dir;
    }
}

} // verus!
