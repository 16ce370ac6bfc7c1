//! The recursive color integrator and the resolution of accumulated
//! radiance to pixel component values.

use vstd::prelude::*;

verus! {

use crate::fixed::{
    SCALE, FXMAX, div_t, mul_fx, sqrt_fl, is_sqrt_floor, clamp_s, div_trunc, sqrt_fixed, clamp,
    lemma_mul_fx_bound, lemma_sqrt_fl_is, lemma_div_t_exact,
};
use crate::vec3::{
    Vec3, Color, UNIT_MAX, VEC_MAX, vadd, vscale, vmul, dots, unit_s, near_zero_s, in_range,
    unit_vector, check_range,
};
use crate::ray::Ray;
use crate::hittable::COORD_MAX;
use crate::material::is_color;
use crate::sphere::{wf_sphere, is_sphere_record, sphere_hit_t};
use crate::hittable_list::{HittableList, wf_list, scene_hit_t};
use crate::rtweekend::INFINITY;

/// The epsilon guard on secondary rays that suppresses shadow acne.
pub const T_EPSILON: i128 = 1_000;

/// Pure white.
pub open spec fn white_s() -> (int, int, int) {
    (SCALE as int, SCALE as int, SCALE as int)
}

/// The sky blue the background blends toward.
pub open spec fn sky_blue_s() -> (int, int, int) {
    (500_000, 700_000, SCALE as int)
}

/// The background gradient: blend white toward sky blue by the unit
/// direction's vertical component mapped from `[-1, 1]` to `[0, 1]`.
pub open spec fn background_s(dir: (int, int, int)) -> (int, int, int) {
    let t = div_t(unit_s(dir).1 + SCALE as int, 2);
    vadd(vscale(SCALE as int - t, white_s()), vscale(t, sky_blue_s()))
}

/// The component-wise product of two colors is a color.
pub proof fn lemma_color_mul(a: (int, int, int), b: (int, int, int))
    requires
        is_color(a),
        is_color(b),
    ensures
        is_color(vmul(a, b)),
{
    lemma_color_mul_component(a.0, b.0);
    lemma_color_mul_component(a.1, b.1);
    lemma_color_mul_component(a.2, b.2);
}

proof fn lemma_color_mul_component(x: int, y: int)
    requires
        0 <= x <= SCALE as int,
        0 <= y <= SCALE as int,
    ensures
        0 <= mul_fx(x, y) <= SCALE as int,
{
    let s = SCALE as int;
    assert(0 <= x * y <= s * s) by (nonlinear_arith)
        requires
            0 <= x <= s,
            0 <= y <= s,
    ;
    assert(0 <= (x * y) / s) by (nonlinear_arith)
        requires
            0 <= x * y,
            s >= 1,
    ;
    assert((x * y) / s <= s) by (nonlinear_arith)
        requires
            0 <= x * y <= s * s,
            s >= 1,
    ;
}

/// The background color of a ray that misses everything.
pub fn background_color(r: &Ray) -> (res: Color)
    requires
        !near_zero_s(r.dir@),
        in_range(r.dir@, VEC_MAX as int),
    ensures
        res@ == background_s(r.dir@),
        is_color(res@),
{
    let unit_direction: Vec3 = unit_vector(&r.direction());
    let t: i128 = div_trunc(unit_direction.y() + SCALE, 2);
    let white: Color = Vec3::new(SCALE, SCALE, SCALE);
    let sky: Color = Vec3::new(500_000, 700_000, SCALE);
    let a: Vec3 = white.scale(SCALE - t);
    let b: Vec3 = sky.scale(t);
    proof {
        lemma_mul_fx_bound(SCALE as int - t as int, white_s().0, SCALE as int - t as int, SCALE as int);
        lemma_mul_fx_bound(SCALE as int - t as int, white_s().1, SCALE as int - t as int, SCALE as int);
        lemma_mul_fx_bound(SCALE as int - t as int, white_s().2, SCALE as int - t as int, SCALE as int);
        lemma_mul_fx_bound(t as int, sky_blue_s().0, t as int, SCALE as int);
        lemma_mul_fx_bound(t as int, sky_blue_s().1, t as int, SCALE as int);
        lemma_mul_fx_bound(t as int, sky_blue_s().2, t as int, SCALE as int);
    }
    a.add(&b)
}

/// The radiance estimate for one ray: black once the bounce budget is
/// exhausted, the background gradient on a miss, and otherwise the
/// scattered attenuation compounded with the recursive estimate.  A hit
/// whose record falls outside the representable range (a degenerate
/// normal, a point or scattered ray beyond the coordinate bound) is
/// treated as absorbed.
pub fn ray_color(r: &Ray, world: &HittableList, depth: i32) -> (res: Color)
    requires
        wf_list(*world),
        in_range(r.orig@, COORD_MAX as int),
        in_range(r.dir@, COORD_MAX as int),
        !near_zero_s(r.dir@),
    ensures
        is_color(res@),
        depth <= 0 ==> res@ == (0int, 0int, 0int),
        depth > 0 && scene_hit_t(world.objects@, *r, T_EPSILON as int, INFINITY as int).is_none()
            ==> res@ == background_s(r.dir@),
    decreases depth,
{
    if depth <= 0 {
        return Vec3::new(0, 0, 0);
    }
    match world.hit(r, T_EPSILON, INFINITY) {
        Some(rec) => {
            proof {
                let j = choose|j: int|
                    0 <= j < world.objects@.len() && #[trigger] sphere_hit_t(
                        world.objects@[j],
                        *r,
                        T_EPSILON as int,
                        INFINITY as int,
                    ) == Option::Some(rec.t as int) && is_sphere_record(world.objects@[j], *r, rec);
                assert(wf_sphere(world.objects@[j]));
                assert(rec.material == world.objects@[j].material);
            }
            if !check_range(&rec.normal, UNIT_MAX) {
                return Vec3::new(0, 0, 0);
            }
            match rec.material.scatter(r, &rec) {
                Some((attenuation, scattered)) => {
                    if !check_range(&scattered.orig, COORD_MAX) || !check_range(
                        &scattered.dir,
                        COORD_MAX,
                    ) || scattered.dir.near_zero() {
                        return Vec3::new(0, 0, 0);
                    }
                    let inner: Color = ray_color(&scattered, world, depth - 1);
                    proof {
                        lemma_color_mul(attenuation@, inner@);
                    }
                    attenuation.mul(&inner)
                },
                None => Vec3::new(0, 0, 0),
            }
        },
        None => background_color(r),
    }
}

/// One resolved pixel component: average over the samples, gamma-2
/// correct, clamp to `[0, 0.999]`, and map to `[0, 255]`.
pub open spec fn pixel_component_s(c: int, samples: int) -> int {
    let scaled = div_t(c, samples);
    let g = sqrt_fl(scaled * SCALE as int);
    let cl = clamp_s(g, 0, 999_000);
    div_t(cl * 256, SCALE as int)
}

/// Resolve one accumulated component to a pixel value in `[0, 255]`.
pub fn pixel_component(c: i128, samples_per_pixel: i128) -> (r: i128)
    requires
        1 <= samples_per_pixel,
        0 <= c <= FXMAX,
    ensures
        r as int == pixel_component_s(c as int, samples_per_pixel as int),
        0 <= r <= 255,
{
    let scaled: i128 = div_trunc(c, samples_per_pixel);
    let g: i128 = sqrt_fixed(scaled);
    let cl: i128 = clamp(g, 0, 999_000);
    div_trunc(cl * 256, SCALE)
}

/// Resolve an accumulated color to its three pixel component values.
pub fn pixel_value(pixel_color: &Color, samples_per_pixel: i128) -> (r: (i128, i128, i128))
    requires
        1 <= samples_per_pixel,
        0 <= pixel_color@.0 <= FXMAX,
        0 <= pixel_color@.1 <= FXMAX,
        0 <= pixel_color@.2 <= FXMAX,
    ensures
        r.0 as int == pixel_component_s(pixel_color@.0, samples_per_pixel as int),
        r.1 as int == pixel_component_s(pixel_color@.1, samples_per_pixel as int),
        r.2 as int == pixel_component_s(pixel_color@.2, samples_per_pixel as int),
        0 <= r.0 <= 255,
        0 <= r.1 <= 255,
        0 <= r.2 <= 255,
{
    (
        pixel_component(pixel_color.x(), samples_per_pixel),
        pixel_component(pixel_color.y(), samples_per_pixel),
        pixel_component(pixel_color.z(), samples_per_pixel),
    )
}


/// The background gradient is symmetric: straight up maps to pure sky
/// blue, straight down to pure white.
pub proof fn lemma_background_symmetric()
    ensures
        background_s((0int, SCALE as int, 0int)) == sky_blue_s(),
        background_s((0int, -(SCALE as int), 0int)) == white_s(),
{
    let st = SCALE as int;
    let up = (0int, st, 0int);
    let down = (0int, -st, 0int);
    assert(dots(up, up) == st * st) by (nonlinear_arith)
        requires
            dots(up, up) == up.0 * up.0 + up.1 * up.1 + up.2 * up.2,
            up == (0int, st, 0int),
    ;
    assert(dots(down, down) == st * st) by (nonlinear_arith)
        requires
            dots(down, down) == down.0 * down.0 + down.1 * down.1 + down.2 * down.2,
            down == (0int, -st, 0int),
    ;
    assert(st * st < (st + 1) * (st + 1)) by (nonlinear_arith)
        requires
            st >= 0,
    ;
    assert(is_sqrt_floor(st * st, st));
    lemma_sqrt_fl_is(st * st, st);
    assert(div_t(0 * st, st) == 0) by {
        assert(0 * st == 0) by (nonlinear_arith);
    }
    lemma_div_t_exact(st, st);
    lemma_div_t_exact(-st, st);
    assert(st * st == st * st);
    assert(unit_s(up) == (0int, st, 0int)) by {
        assert(up.1 * st == st * st) by (nonlinear_arith)
            requires
                up.1 == st,
        ;
    }
    assert(unit_s(down) == (0int, -st, 0int)) by {
        assert(down.1 * st == (-st) * st) by (nonlinear_arith)
            requires
                down.1 == -st,
        ;
        lemma_div_t_exact(-st, st);
        assert(div_t((-st) * st, st) == -st);
    }
    let tu = div_t(unit_s(up).1 + st, 2);
    assert(tu == st) by {
        lemma_div_t_exact(st, 2);
        assert(st + st == st * 2);
    }
    let td = div_t(unit_s(down).1 + st, 2);
    assert(td == 0);
    assert(vscale(0, white_s()) == (0int, 0int, 0int)) by {
        assert(0 * st == 0) by (nonlinear_arith);
    }
    assert(vscale(st, sky_blue_s()) == sky_blue_s()) by {
        assert(st * 500_000 == 500_000 * st) by (nonlinear_arith);
        assert(st * 700_000 == 700_000 * st) by (nonlinear_arith);
        assert(st * st == st * st);
        lemma_div_t_exact(500_000, st);
        lemma_div_t_exact(700_000, st);
        lemma_div_t_exact(st, st);
    }
    assert(vscale(st, white_s()) == white_s()) by {
        lemma_div_t_exact(st, st);
    }
    assert(vscale(0, sky_blue_s()) == (0int, 0int, 0int)) by {
        assert(0 * 500_000 == 0) by (nonlinear_arith);
        assert(0 * 700_000 == 0) by (nonlinear_arith);
        assert(0 * st == 0) by (nonlinear_arith);
    }
}
} // verus!
