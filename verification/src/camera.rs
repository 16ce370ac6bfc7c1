//! The defocus-blur camera: maps viewport coordinates to rays, with the
//! ray origin perturbed over a lens disk.
//!
//! The viewport half-height is taken as the tangent of half the vertical
//! field of view, precomputed by the caller: trigonometric evaluation has
//! no exact fixed-point form and stays outside the verified core.

use vstd::prelude::*;

verus! {

use crate::fixed::{SCALE, div_t, mul_fx, div_trunc, mul_fixed, lemma_mul_fx_bound};
use crate::vec3::{
    Vec3, Point3, vadd, vsub, vscale, vdivs, crossv, dots, unit_s, near_zero_s, in_range,
    unit_vector, cross, random_in_unit_disk,
};
use crate::ray::Ray;
use crate::hittable::COORD_MAX;

/// Largest accepted tangent of half the field of view (ten whole units).
pub const TAN_MAX: i128 = 10_000_000;

/// Largest accepted aspect ratio (ten whole units).
pub const ASPECT_MAX: i128 = 10_000_000;

/// Largest accepted lens aperture (one thousand units).
pub const APERTURE_MAX: i128 = 1_000_000_000;

#[derive(Clone, Copy, Debug, PartialEq, Eq, Structural)]
pub struct Camera {
    pub origin: Point3,
    pub lower_left_corner: Point3,
    pub horizontal: Vec3,
    pub vertical: Vec3,
    pub u: Vec3,
    pub v: Vec3,
    pub w: Vec3,
    pub lens_radius: i128,
}

/// Field bounds every constructed camera satisfies.
pub open spec fn wf_camera(c: Camera) -> bool {
    &&& in_range(c.origin@, COORD_MAX as int)
    &&& in_range(c.horizontal@, 1_000_000_000_000)
    &&& in_range(c.vertical@, 1_000_000_000_000)
    &&& in_range(c.lower_left_corner@, 3_000_000_000_000)
    &&& in_range(c.u@, 2_000_000)
    &&& in_range(c.v@, 5_000_000)
    &&& in_range(c.w@, 2_000_000)
    &&& 0 <= c.lens_radius <= APERTURE_MAX
}

/// The ray through viewport coordinates `(s, t)` with lens-disk sample
/// `rd`: origin offset over the lens, direction aimed at the focus plane.
pub open spec fn cam_ray_orig(c: Camera, rd: (int, int, int)) -> (int, int, int) {
    let rdl = vscale(c.lens_radius as int, rd);
    vadd(c.origin@, vadd(vscale(rdl.0, c.u@), vscale(rdl.1, c.v@)))
}

/// The direction of the ray through `(s, t)` with lens-disk sample `rd`.
pub open spec fn cam_ray_dir(c: Camera, s: int, t: int, rd: (int, int, int)) -> (int, int, int) {
    let rdl = vscale(c.lens_radius as int, rd);
    let offset = vadd(vscale(rdl.0, c.u@), vscale(rdl.1, c.v@));
    vsub(
        vsub(
            vadd(vadd(c.lower_left_corner@, vscale(s, c.horizontal@)), vscale(t, c.vertical@)),
            c.origin@,
        ),
        offset,
    )
}

impl Camera {
    /// Build a camera from a viewing frame.  `tan_half_fov` is the tangent
    /// of half the vertical field of view; the viewport is `2 *
    /// tan_half_fov` high, `aspect_ratio` times as wide, scaled by the
    /// focus distance.
    pub fn new(
        lookfrom: Point3,
        lookat: Point3,
        vup: Vec3,
        tan_half_fov: i128,
        aspect_ratio: i128,
        aperture: i128,
        focus_dist: i128,
    ) -> (res: Self)
        requires
            in_range(lookfrom@, COORD_MAX as int),
            in_range(lookat@, COORD_MAX as int),
            in_range(vup@, COORD_MAX as int),
            !near_zero_s(vsub(lookfrom@, lookat@)),
            !near_zero_s(crossv(vup@, unit_s(vsub(lookfrom@, lookat@)))),
            1 <= tan_half_fov <= TAN_MAX,
            1 <= aspect_ratio <= ASPECT_MAX,
            0 <= aperture <= APERTURE_MAX,
            1 <= focus_dist <= COORD_MAX,
        ensures
            res.origin@ == lookfrom@,
            res.w@ == unit_s(vsub(lookfrom@, lookat@)),
            res.u@ == unit_s(crossv(vup@, unit_s(vsub(lookfrom@, lookat@)))),
            res.v@ == crossv(res.w@, res.u@),
            res.horizontal@ == vscale(
                mul_fx(focus_dist as int, mul_fx(aspect_ratio as int, 2 * tan_half_fov as int)),
                res.u@,
            ),
            res.vertical@ == vscale(mul_fx(focus_dist as int, 2 * tan_half_fov as int), res.v@),
            res.lower_left_corner@ == vsub(
                vsub(
                    vsub(lookfrom@, vdivs(res.horizontal@, 2 * SCALE as int)),
                    vdivs(res.vertical@, 2 * SCALE as int),
                ),
                vscale(focus_dist as int, res.w@),
            ),
            res.lens_radius as int == div_t(aperture as int, 2),
            wf_camera(res),
    {
        let viewport_height: i128 = 2 * tan_half_fov;
        let viewport_width: i128 = mul_fixed(aspect_ratio, viewport_height);
        proof {
            lemma_mul_fx_bound(aspect_ratio as int, viewport_height as int, TAN_MAX as int, 2
                * TAN_MAX as int);
        }
        let dirv: Vec3 = lookfrom.sub(&lookat);
        let w: Vec3 = unit_vector(&dirv);
        let cu: Vec3 = cross(&vup, &w);
        proof {
            lemma_mul_fx_bound(vup@.1, w@.2, COORD_MAX as int, SCALE as int);
            lemma_mul_fx_bound(vup@.2, w@.1, COORD_MAX as int, SCALE as int);
            lemma_mul_fx_bound(vup@.2, w@.0, COORD_MAX as int, SCALE as int);
            lemma_mul_fx_bound(vup@.0, w@.2, COORD_MAX as int, SCALE as int);
            lemma_mul_fx_bound(vup@.0, w@.1, COORD_MAX as int, SCALE as int);
            lemma_mul_fx_bound(vup@.1, w@.0, COORD_MAX as int, SCALE as int);
        }
        let u: Vec3 = unit_vector(&cu);
        let v: Vec3 = cross(&w, &u);
        proof {
            lemma_mul_fx_bound(w@.1, u@.2, SCALE as int, SCALE as int);
            lemma_mul_fx_bound(w@.2, u@.1, SCALE as int, SCALE as int);
            lemma_mul_fx_bound(w@.2, u@.0, SCALE as int, SCALE as int);
            lemma_mul_fx_bound(w@.0, u@.2, SCALE as int, SCALE as int);
            lemma_mul_fx_bound(w@.0, u@.1, SCALE as int, SCALE as int);
            lemma_mul_fx_bound(w@.1, u@.0, SCALE as int, SCALE as int);
        }
        let k_h: i128 = mul_fixed(focus_dist, viewport_width);
        proof {
            lemma_mul_fx_bound(focus_dist as int, viewport_width as int, COORD_MAX as int,
                200_000_000);
        }
        let horizontal: Vec3 = u.scale(k_h);
        proof {
            lemma_mul_fx_bound(k_h as int, u@.0, 200_000_000_000, SCALE as int);
            lemma_mul_fx_bound(k_h as int, u@.1, 200_000_000_000, SCALE as int);
            lemma_mul_fx_bound(k_h as int, u@.2, 200_000_000_000, SCALE as int);
        }
        let k_v: i128 = mul_fixed(focus_dist, viewport_height);
        proof {
            lemma_mul_fx_bound(focus_dist as int, viewport_height as int, COORD_MAX as int, 2
                * TAN_MAX as int);
        }
        let vertical: Vec3 = v.scale(k_v);
        proof {
            lemma_mul_fx_bound(k_v as int, v@.0, 20_000_000_000, 2_000_000);
            lemma_mul_fx_bound(k_v as int, v@.1, 20_000_000_000, 2_000_000);
            lemma_mul_fx_bound(k_v as int, v@.2, 20_000_000_000, 2_000_000);
        }
        let half_h: Vec3 = horizontal.div_scalar(2 * SCALE);
        let half_v: Vec3 = vertical.div_scalar(2 * SCALE);
        let fw: Vec3 = w.scale(focus_dist);
        proof {
            lemma_mul_fx_bound(focus_dist as int, w@.0, COORD_MAX as int, SCALE as int);
            lemma_mul_fx_bound(focus_dist as int, w@.1, COORD_MAX as int, SCALE as int);
            lemma_mul_fx_bound(focus_dist as int, w@.2, COORD_MAX as int, SCALE as int);
        }
        let lower_left_corner: Vec3 = lookfrom.sub(&half_h).sub(&half_v).sub(&fw);
        let lens_radius: i128 = div_trunc(aperture, 2);
        Camera {
            origin: lookfrom,
            lower_left_corner,
            horizontal,
            vertical,
            u,
            v,
            w,
            lens_radius,
        }
    }

    /// The ray through viewport coordinates `(s, t)` for a given lens-disk
    /// sample.
    pub fn ray_through(&self, s: i128, t: i128, disk_sample: &Vec3) -> (res: Ray)
        requires
            wf_camera(*self),
            0 <= s <= SCALE,
            0 <= t <= SCALE,
            in_range(disk_sample@, SCALE as int),
        ensures
            res.orig@ == cam_ray_orig(*self, disk_sample@),
            res.dir@ == cam_ray_dir(*self, s as int, t as int, disk_sample@),
    {
        let rdl: Vec3 = disk_sample.scale(self.lens_radius);
        proof {
            lemma_mul_fx_bound(self.lens_radius as int, disk_sample@.0, APERTURE_MAX as int,
                SCALE as int);
            lemma_mul_fx_bound(self.lens_radius as int, disk_sample@.1, APERTURE_MAX as int,
                SCALE as int);
        }
        let ou: Vec3 = self.u.scale(rdl.x());
        let ov: Vec3 = self.v.scale(rdl.y());
        proof {
            lemma_mul_fx_bound(rdl@.0, self.u@.0, APERTURE_MAX as int, 2_000_000);
            lemma_mul_fx_bound(rdl@.0, self.u@.1, APERTURE_MAX as int, 2_000_000);
            lemma_mul_fx_bound(rdl@.0, self.u@.2, APERTURE_MAX as int, 2_000_000);
            lemma_mul_fx_bound(rdl@.1, self.v@.0, APERTURE_MAX as int, 5_000_000);
            lemma_mul_fx_bound(rdl@.1, self.v@.1, APERTURE_MAX as int, 5_000_000);
            lemma_mul_fx_bound(rdl@.1, self.v@.2, APERTURE_MAX as int, 5_000_000);
        }
        let offset: Vec3 = ou.add(&ov);
        let sh: Vec3 = self.horizontal.scale(s);
        let tv: Vec3 = self.vertical.scale(t);
        let new_origin: Vec3 = self.origin.add(&offset);
        let direction: Vec3 = self.lower_left_corner.add(&sh).add(&tv).sub(&self.origin).sub(
            &offset,
        );
        proof {
            assert(cam_ray_dir(*self, s as int, t as int, disk_sample@) == vsub(
                vsub(
                    vadd(
                        vadd(self.lower_left_corner@, vscale(s as int, self.horizontal@)),
                        vscale(t as int, self.vertical@),
                    ),
                    self.origin@,
                ),
                vadd(
                    vscale(mul_fx(self.lens_radius as int, disk_sample@.0), self.u@),
                    vscale(mul_fx(self.lens_radius as int, disk_sample@.1), self.v@),
                ),
            ));
        }
        Ray::new(&new_origin, &direction)
    }

    /// The ray through viewport coordinates `(s, t)`, with the lens-disk
    /// sample drawn internally.
    pub fn get_ray(&self, s: i128, t: i128) -> (res: Ray)
        requires
            wf_camera(*self),
            0 <= s <= SCALE,
            0 <= t <= SCALE,
        ensures
            exists|rd: (int, int, int)|
                {
                    &&& dots(rd, rd) < SCALE as int * SCALE as int
                    &&& in_range(rd, SCALE as int)
                    &&& rd.2 == 0
                    &&& res.orig@ == cam_ray_orig(*self, rd)
                    &&& res.dir@ == #[trigger] cam_ray_dir(*self, s as int, t as int, rd)
                },
    {
        let rd: Vec3 = random_in_unit_disk();
        let res: Ray = self.ray_through(s, t, &rd);
        proof {
            assert(dots(rd@, rd@) < SCALE as int * SCALE as int && in_range(rd@, SCALE as int)
                && rd@.2 == 0 && res.orig@ == cam_ray_orig(*self, rd@) && res.dir@ == cam_ray_dir(
                *self,
                s as int,
                t as int,
                rd@,
            ));
        }
        res
    }
}

} // verus!
