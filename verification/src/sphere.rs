//! The one primitive: a sphere, intersected by closed-form quadratic root
//! solving.

use vstd::prelude::*;

verus! {

use crate::fixed::{
    SCALE, div_t, mul_fx, sqrt_fl, is_sqrt_floor, lemma_sqrt_exists, lemma_sqrt_fl_is,
    lemma_div_t_mono, lemma_div_t_exact, div_trunc, isqrt, lemma_mul_fx_bound,
};
use crate::vec3::{
    Vec3, Point3, dots, vsub, vneg, vdivs, in_range, near_zero_s, lemma_dot_bound2,
    lemma_some_square_pos, dot,
};
use crate::ray::{Ray, ray_at_s};
use crate::hittable::{HitRecord, COORD_MAX};
use crate::material::{Material, wf_material};
use crate::rtweekend::INFINITY;

#[derive(Clone, Copy, Debug, PartialEq, Eq, Structural)]
pub struct Sphere {
    pub center: Point3,
    pub radius: i128,
    pub material: Material,
}

/// Center within the coordinate bound, a positive bounded radius, a
/// well-formed material.
pub open spec fn wf_sphere(s: Sphere) -> bool {
    &&& in_range(s.center@, COORD_MAX as int)
    &&& 1 <= s.radius <= COORD_MAX
    &&& wf_material(s.material)
}

/// Leading quadratic coefficient: the squared length of the direction.
pub open spec fn sph_a(r: Ray) -> int {
    dots(r.dir@, r.dir@)
}

/// Half the linear coefficient: `(origin - center) . direction`.
pub open spec fn sph_half_b(s: Sphere, r: Ray) -> int {
    dots(vsub(r.orig@, s.center@), r.dir@)
}

/// Constant coefficient: `|origin - center|^2 - radius^2`.
pub open spec fn sph_c(s: Sphere, r: Ray) -> int {
    dots(vsub(r.orig@, s.center@), vsub(r.orig@, s.center@)) - (s.radius as int) * (
    s.radius as int)
}

/// The quarter discriminant `half_b^2 - a c`; negative means no real root.
pub open spec fn sph_disc(s: Sphere, r: Ray) -> int {
    sph_half_b(s, r) * sph_half_b(s, r) - sph_a(r) * sph_c(s, r)
}

/// The near root `(-half_b - sqrt(disc)) / a`, in micro-units.
pub open spec fn sph_root0(s: Sphere, r: Ray) -> int {
    div_t((-sph_half_b(s, r) - sqrt_fl(sph_disc(s, r))) * SCALE as int, sph_a(r))
}

/// The far root `(-half_b + sqrt(disc)) / a`, in micro-units.
pub open spec fn sph_root1(s: Sphere, r: Ray) -> int {
    div_t((-sph_half_b(s, r) + sqrt_fl(sph_disc(s, r))) * SCALE as int, sph_a(r))
}

/// The ray parameter a sphere intersection reports: the near root when it
/// lies strictly inside `(t_min, t_max)`, else the far root when it does,
/// else nothing.
pub open spec fn sphere_hit_t(s: Sphere, r: Ray, t_min: int, t_max: int) -> Option<int> {
    if sph_disc(s, r) < 0 {
        Option::None
    } else if t_min < sph_root0(s, r) && sph_root0(s, r) < t_max {
        Option::Some(sph_root0(s, r))
    } else if t_min < sph_root1(s, r) && sph_root1(s, r) < t_max {
        Option::Some(sph_root1(s, r))
    } else {
        Option::None
    }
}

/// The raw outward normal at parameter `t`: `(point - center) / radius`.
pub open spec fn sphere_outward(s: Sphere, r: Ray, t: int) -> (int, int, int) {
    vdivs(vsub(ray_at_s(r.orig@, r.dir@, t), s.center@), s.radius as int)
}

/// The fields a record of a hit of `s` at `rec.t` must carry: the point
/// reached, the normal oriented against the ray, the sphere's material.
pub open spec fn is_sphere_record(s: Sphere, r: Ray, rec: HitRecord) -> bool {
    let t = rec.t as int;
    let outward = sphere_outward(s, r, t);
    &&& rec.p@ == ray_at_s(r.orig@, r.dir@, t)
    &&& rec.front_face == (dots(r.dir@, outward) < 0)
    &&& rec.normal@ == (if dots(r.dir@, outward) < 0 {
        outward
    } else {
        vneg(outward)
    })
    &&& rec.material == s.material
}

/// The near root never exceeds the far root.
pub proof fn lemma_root_order(s: Sphere, r: Ray)
    requires
        sph_disc(s, r) >= 0,
        sph_a(r) >= 1,
    ensures
        sph_root0(s, r) <= sph_root1(s, r),
        sqrt_fl(sph_disc(s, r)) >= 0,
{
    lemma_sqrt_exists(sph_disc(s, r));
    let hb = sph_half_b(s, r);
    let sq = sqrt_fl(sph_disc(s, r));
    let st = SCALE as int;
    assert((-hb - sq) * st <= (-hb + sq) * st) by (nonlinear_arith)
        requires
            sq >= 0,
            st >= 1,
    ;
    lemma_div_t_mono((-hb - sq) * st, (-hb + sq) * st, sph_a(r));
}

/// Shrinking the upper end of the search window either keeps the reported
/// parameter (when it already lay inside) or loses the hit; equivalently,
/// widening it cannot produce an earlier hit below the old bound.
pub proof fn lemma_sphere_hit_window(s: Sphere, r: Ray, t_min: int, t1: int, t2: int)
    requires
        t1 <= t2,
        sph_a(r) >= 1,
    ensures
        sphere_hit_t(s, r, t_min, t1) matches Option::Some(t) ==> sphere_hit_t(s, r, t_min, t2)
            == Option::Some(t),
        sphere_hit_t(s, r, t_min, t1).is_none() ==> (sphere_hit_t(s, r, t_min, t2).is_none()
            || sphere_hit_t(s, r, t_min, t2)->Some_0 >= t1),
{
    if sph_disc(s, r) >= 0 {
        lemma_root_order(s, r);
    }
}

impl Sphere {
    pub fn new(center: Point3, r: i128, material: Material) -> (res: Self)
        requires
            in_range(center@, COORD_MAX as int),
            1 <= r <= COORD_MAX,
            wf_material(material),
        ensures
            res.center@ == center@,
            res.radius == r,
            res.material == material,
            wf_sphere(res),
    {
        Sphere { center, radius: r, material }
    }

    /// The nearest intersection with parameter strictly inside
    /// `(t_min, t_max)`, or nothing.
    pub fn hit(&self, r: &Ray, t_min: i128, t_max: i128) -> (res: Option<HitRecord>)
        requires
            wf_sphere(*self),
            in_range(r.orig@, COORD_MAX as int),
            in_range(r.dir@, COORD_MAX as int),
            !near_zero_s(r.dir@),
            -INFINITY <= t_min <= INFINITY,
            -INFINITY <= t_max <= INFINITY,
        ensures
            res.is_some() == sphere_hit_t(*self, *r, t_min as int, t_max as int).is_some(),
            res matches Some(rec) ==> {
                &&& sphere_hit_t(*self, *r, t_min as int, t_max as int) == Option::Some(
                    rec.t as int,
                )
                &&& t_min < rec.t < t_max
                &&& is_sphere_record(*self, *r, rec)
            },
    {
        let oc: Vec3 = r.origin().sub(&self.center);
        proof {
            lemma_some_square_pos(r.dir@);
            lemma_dot_bound2(r.dir@, r.dir@, COORD_MAX as int, COORD_MAX as int);
            lemma_dot_bound2(oc@, r.dir@, 2 * COORD_MAX as int, COORD_MAX as int);
            lemma_dot_bound2(oc@, oc@, 2 * COORD_MAX as int, 2 * COORD_MAX as int);
            assert(0 <= self.radius as int * self.radius as int
                <= 1_000_000_000_000_000_000) by (nonlinear_arith)
                requires
                    1 <= self.radius as int <= 1_000_000_000,
            ;
        }
        let a: i128 = r.direction().length_squared();
        let half_b: i128 = dot(&oc, &r.direction());
        let c: i128 = oc.length_squared() - self.radius * self.radius;
        proof {
            assert(half_b as int * half_b as int <= 36_000_000_000_000_000_000_000_000_000_000_000_000) by (nonlinear_arith)
                requires
                    -6_000_000_000_000_000_000 <= half_b as int <= 6_000_000_000_000_000_000,
            ;
            assert(half_b as int * half_b as int >= 0) by (nonlinear_arith);
            assert(-(3_000_000_000_000_000_000 * 13_000_000_000_000_000_000) <= a as int * c as int
                <= 3_000_000_000_000_000_000 * 13_000_000_000_000_000_000) by (nonlinear_arith)
                requires
                    0 <= a as int <= 3_000_000_000_000_000_000,
                    -13_000_000_000_000_000_000 <= c as int <= 13_000_000_000_000_000_000,
            ;
        }
        let disc: i128 = half_b * half_b - a * c;
        if disc < 0 {
            return None;
        }
        let sqrtd: i128 = isqrt(disc);
        proof {
            assert(sqrtd as int <= 9_000_000_000_000_000_000) by (nonlinear_arith)
                requires
                    0 <= sqrtd as int,
                    sqrtd as int * sqrtd as int <= 75_000_000_000_000_000_000_000_000_000_000_000_000,
            ;
        }
        let num0: i128 = (-half_b - sqrtd) * SCALE;
        let mut root: i128 = div_trunc(num0, a);
        if root <= t_min || t_max <= root {
            let num1: i128 = (-half_b + sqrtd) * SCALE;
            root = div_trunc(num1, a);
            if root <= t_min || t_max <= root {
                return None;
            }
        }
        let t: i128 = root;
        proof {
            lemma_mul_fx_bound(t as int, r.dir@.0, INFINITY as int, COORD_MAX as int);
            lemma_mul_fx_bound(t as int, r.dir@.1, INFINITY as int, COORD_MAX as int);
            lemma_mul_fx_bound(t as int, r.dir@.2, INFINITY as int, COORD_MAX as int);
        }
        let p: Point3 = r.at(t);
        let diff: Vec3 = p.sub(&self.center);
        let outward: Vec3 = diff.div_scalar(self.radius);
        let mut rec: HitRecord = HitRecord::new();
        rec.t = t;
        rec.p = p;
        rec.material = self.material;
        rec.set_face_normal(r, &outward);
        Some(rec)
    }
}


/// A ray starting strictly inside the sphere always leaves it: with the
/// search window starting at the origin, the near root is behind the
/// origin and the reported parameter is the far root — provided the exit
/// lies at least one representable step along the ray and inside the
/// window.
pub proof fn lemma_hit_from_inside(s: Sphere, r: Ray, t_max: int)
    requires
        sph_a(r) >= 1,
        sph_c(s, r) < 0,
        1 <= sph_root1(s, r) < t_max,
    ensures
        sph_root0(s, r) <= 0,
        sphere_hit_t(s, r, 0, t_max) == Option::Some(sph_root1(s, r)),
{
    let a = sph_a(r);
    let hb = sph_half_b(s, r);
    let c = sph_c(s, r);
    let disc = sph_disc(s, r);
    assert(a * c <= -1) by (nonlinear_arith)
        requires
            a >= 1,
            c <= -1,
    ;
    assert(hb * hb >= 0) by (nonlinear_arith);
    lemma_sqrt_exists(disc);
    let sq = sqrt_fl(disc);
    if hb >= 0 {
        if sq < hb {
            assert((sq + 1) * (sq + 1) <= hb * hb) by (nonlinear_arith)
                requires
                    0 <= sq + 1,
                    sq + 1 <= hb,
            ;
        }
    } else {
        if sq < -hb {
            assert((sq + 1) * (sq + 1) <= hb * hb) by (nonlinear_arith)
                requires
                    0 <= sq + 1,
                    sq + 1 <= -hb,
            ;
        }
    }
    let num0 = (-hb - sq) * SCALE as int;
    assert(num0 <= 0) by (nonlinear_arith)
        requires
            num0 == (-hb - sq) * SCALE as int,
            -hb - sq <= 0,
            SCALE as int >= 1,
    ;
    assert(sph_root0(s, r) <= 0) by {
        if num0 >= 0 {
            assert(num0 == 0);
            assert(div_t(0, a) == 0);
        } else {
            assert(div_t(num0, a) == -((-num0) / a));
            assert((-num0) / a >= 0) by (nonlinear_arith)
                requires
                    -num0 >= 0,
                    a >= 1,
            ;
        }
    }
}

/// For a sphere centered on the ray's axis (unit direction along negative
/// z, center `k` units ahead) the fixed-point roots are exactly `k -
/// radius` and `k + radius`, and the near hit point lies exactly on the
/// sphere surface.
pub proof fn lemma_axis_roots_exact(s: Sphere, r: Ray, k: int)
    requires
        1 <= s.radius < k,
        r.dir@ == (0int, 0int, -(SCALE as int)),
        s.center@ == (r.orig@.0, r.orig@.1, r.orig@.2 - k),
    ensures
        sph_root0(s, r) == k - s.radius,
        sph_root1(s, r) == k + s.radius,
        ({
            let diff = vsub(ray_at_s(r.orig@, r.dir@, k - s.radius), s.center@);
            dots(diff, diff) == (s.radius as int) * (s.radius as int)
        }),
{
    let st = SCALE as int;
    let rad = s.radius as int;
    let oc = vsub(r.orig@, s.center@);
    assert(oc == (0int, 0int, k));
    let a = sph_a(r);
    let hb = sph_half_b(s, r);
    let c = sph_c(s, r);
    let disc = sph_disc(s, r);
    assert(a == st * st) by (nonlinear_arith)
        requires
            r.dir@ == (0int, 0int, -st),
            a == r.dir@.0 * r.dir@.0 + r.dir@.1 * r.dir@.1 + r.dir@.2 * r.dir@.2,
    ;
    assert(hb == k * (-st)) by (nonlinear_arith)
        requires
            r.dir@ == (0int, 0int, -st),
            oc == (0int, 0int, k),
            hb == oc.0 * r.dir@.0 + oc.1 * r.dir@.1 + oc.2 * r.dir@.2,
    ;
    assert(c == k * k - rad * rad) by (nonlinear_arith)
        requires
            oc == (0int, 0int, k),
            c == oc.0 * oc.0 + oc.1 * oc.1 + oc.2 * oc.2 - rad * rad,
    ;
    assert(disc == (st * rad) * (st * rad)) by (nonlinear_arith)
        requires
            hb == k * (-st),
            c == k * k - rad * rad,
            a == st * st,
            disc == hb * hb - a * c,
    ;
    assert((st * rad) * (st * rad) < (st * rad + 1) * (st * rad + 1)) by (nonlinear_arith)
        requires
            st * rad >= 0,
    ;
    assert(st * rad >= 0) by (nonlinear_arith)
        requires
            st >= 1,
            rad >= 1,
    ;
    assert(is_sqrt_floor(disc, st * rad));
    lemma_sqrt_fl_is(disc, st * rad);
    assert((-hb - st * rad) * st == (k - rad) * (st * st)) by (nonlinear_arith)
        requires
            hb == k * (-st),
    ;
    assert((-hb + st * rad) * st == (k + rad) * (st * st)) by (nonlinear_arith)
        requires
            hb == k * (-st),
    ;
    assert(st * st >= 1) by (nonlinear_arith)
        requires
            st >= 1,
    ;
    lemma_div_t_exact(k - rad, st * st);
    lemma_div_t_exact(k + rad, st * st);
    assert(sph_root0(s, r) == k - rad);
    assert(sph_root1(s, r) == k + rad);
    let t0 = k - rad;
    assert(mul_fx(t0, 0) == 0) by {
        assert(t0 * 0 == 0) by (nonlinear_arith);
        assert(div_t(0, st) == 0);
    }
    assert(mul_fx(t0, -st) == -t0) by {
        assert(t0 * (-st) == (-t0) * st) by (nonlinear_arith);
        lemma_div_t_exact(-t0, st);
    }
    let p = ray_at_s(r.orig@, r.dir@, t0);
    assert(p == (r.orig@.0, r.orig@.1, r.orig@.2 - t0));
    let diff = vsub(p, s.center@);
    assert(diff == (0int, 0int, rad));
    assert(dots(diff, diff) == rad * rad) by (nonlinear_arith)
        requires
            diff == (0int, 0int, rad),
            dots(diff, diff) == diff.0 * diff.0 + diff.1 * diff.1 + diff.2 * diff.2,
    ;
}

/// A ray leaving the exact center of a sphere along the axis: the hit is
/// the exit at parameter `radius`, every intermediate quantity is exact,
/// and any record of that hit carries `front_face == false` with the
/// stored normal flipped against the ray.
pub proof fn lemma_axis_inside_back_face(s: Sphere, r: Ray, t_max: int)
    requires
        1 <= s.radius < t_max,
        r.dir@ == (0int, 0int, -(SCALE as int)),
        s.center@ == r.orig@,
    ensures
        sphere_hit_t(s, r, 0, t_max) == Option::Some(s.radius as int),
        dots(r.dir@, sphere_outward(s, r, s.radius as int)) > 0,
        forall|rec: HitRecord|
            rec.t as int == s.radius as int && #[trigger] is_sphere_record(s, r, rec)
                ==> !rec.front_face && rec.normal@ == (0int, 0int, SCALE as int),
{
    let st = SCALE as int;
    let rad = s.radius as int;
    let oc = vsub(r.orig@, s.center@);
    assert(oc == (0int, 0int, 0int));
    let a = sph_a(r);
    let hb = sph_half_b(s, r);
    let c = sph_c(s, r);
    let disc = sph_disc(s, r);
    assert(a == st * st) by (nonlinear_arith)
        requires
            r.dir@ == (0int, 0int, -st),
            a == r.dir@.0 * r.dir@.0 + r.dir@.1 * r.dir@.1 + r.dir@.2 * r.dir@.2,
    ;
    assert(hb == 0) by (nonlinear_arith)
        requires
            oc == (0int, 0int, 0int),
            hb == oc.0 * r.dir@.0 + oc.1 * r.dir@.1 + oc.2 * r.dir@.2,
    ;
    assert(c == -(rad * rad)) by (nonlinear_arith)
        requires
            oc == (0int, 0int, 0int),
            c == oc.0 * oc.0 + oc.1 * oc.1 + oc.2 * oc.2 - rad * rad,
    ;
    assert(disc == (st * rad) * (st * rad)) by (nonlinear_arith)
        requires
            hb == 0,
            c == -(rad * rad),
            a == st * st,
            disc == hb * hb - a * c,
    ;
    assert(st * rad >= 0) by (nonlinear_arith)
        requires
            st >= 1,
            rad >= 1,
    ;
    assert((st * rad) * (st * rad) < (st * rad + 1) * (st * rad + 1)) by (nonlinear_arith)
        requires
            st * rad >= 0,
    ;
    assert(is_sqrt_floor(disc, st * rad));
    lemma_sqrt_fl_is(disc, st * rad);
    assert((-hb - st * rad) * st == (-rad) * (st * st)) by (nonlinear_arith)
        requires
            hb == 0,
    ;
    assert((-hb + st * rad) * st == rad * (st * st)) by (nonlinear_arith)
        requires
            hb == 0,
    ;
    assert(st * st >= 1) by (nonlinear_arith)
        requires
            st >= 1,
    ;
    lemma_div_t_exact(-rad, st * st);
    lemma_div_t_exact(rad, st * st);
    assert(sph_root0(s, r) == -rad);
    assert(sph_root1(s, r) == rad);
    assert(mul_fx(rad, 0) == 0) by {
        assert(rad * 0 == 0) by (nonlinear_arith);
        assert(div_t(0, st) == 0);
    }
    assert(mul_fx(rad, -st) == -rad) by {
        assert(rad * (-st) == (-rad) * st) by (nonlinear_arith);
        lemma_div_t_exact(-rad, st);
    }
    let p = ray_at_s(r.orig@, r.dir@, rad);
    assert(p == (r.orig@.0, r.orig@.1, r.orig@.2 - rad));
    let diff = vsub(p, s.center@);
    assert(diff == (0int, 0int, -rad));
    let outward = sphere_outward(s, r, rad);
    assert(outward == (0int, 0int, -st)) by {
        assert(div_t(0 * st, rad) == 0) by {
            assert(0 * st == 0) by (nonlinear_arith);
        }
        assert((-rad) * st == (-st) * rad) by (nonlinear_arith);
        lemma_div_t_exact(-st, rad);
    }
    assert(dots(r.dir@, outward) == st * st) by (nonlinear_arith)
        requires
            r.dir@ == (0int, 0int, -st),
            outward == (0int, 0int, -st),
            dots(r.dir@, outward) == r.dir@.0 * outward.0 + r.dir@.1 * outward.1 + r.dir@.2
                * outward.2,
    ;
    assert(st * st > 0) by (nonlinear_arith)
        requires
            st >= 1,
    ;
}
} // verus!
