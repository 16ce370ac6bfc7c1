//! The three scattering models: diffuse, metallic and dielectric.
//!
//! Each deterministic scatter takes its random sample as an argument and
//! carries an exact contract; the dispatching `Material::scatter` draws the
//! samples itself and states what holds of every outcome.

use vstd::prelude::*;

verus! {

use crate::fixed::{
    SCALE, div_t, mul_fx, sqrt_fx, clamp_s, div_trunc, mul_fixed, sqrt_fixed, min_i, max_i, clamp,
    lemma_mul_fx_bound, lemma_div_t_exact, lemma_sqrt_exists,
};
use crate::vec3::{
    Vec3, Color, UNIT_MAX, RATIO_MAX, VEC_MAX, vadd, vneg, vscale, dots, unit_s, near_zero_s,
    in_range, reflect_s, refract_s, unit_vector, reflect, refract, dot, random_unit_vector,
    random_in_unit_sphere, lemma_dot_bound,
};
use crate::ray::Ray;
use crate::hittable::HitRecord;
use crate::rtweekend::random_double;

/// Smallest accepted index of refraction (one hundredth).
pub const IR_MIN: i128 = 10_000;

/// Largest accepted index of refraction (one hundred).
pub const IR_MAX: i128 = 100_000_000;

/// All components within `[0, 1]`: a color.
pub open spec fn is_color(c: (int, int, int)) -> bool {
    &&& 0 <= c.0 <= SCALE as int
    &&& 0 <= c.1 <= SCALE as int
    &&& 0 <= c.2 <= SCALE as int
}

#[derive(Clone, Copy, Debug, PartialEq, Eq, Structural)]
pub struct Lambertian {
    pub albedo: Color,
}

#[derive(Clone, Copy, Debug, PartialEq, Eq, Structural)]
pub struct Metal {
    pub albedo: Color,
    pub fuzz: i128,
}

#[derive(Clone, Copy, Debug, PartialEq, Eq, Structural)]
pub struct Dielectric {
    pub ir: i128,
}

/// The closed set of materials a primitive can carry.
#[derive(Clone, Copy, Debug, PartialEq, Eq, Structural)]
pub enum Material {
    Lambertian(Lambertian),
    Metal(Metal),
    Dielectric(Dielectric),
}

/// Well-formedness of a material's parameters.
pub open spec fn wf_material(m: Material) -> bool {
    match m {
        Material::Lambertian(l) => is_color(l.albedo@),
        Material::Metal(mt) => is_color(mt.albedo@) && 0 <= mt.fuzz <= SCALE,
        Material::Dielectric(d) => IR_MIN <= d.ir <= IR_MAX,
    }
}

/// The diffuse scatter direction: surface normal plus a unit sample, with
/// the normal itself as fallback when the sum degenerates.
pub open spec fn lambertian_dir(n: (int, int, int), s: (int, int, int)) -> (int, int, int) {
    if near_zero_s(vadd(n, s)) {
        n
    } else {
        vadd(n, s)
    }
}

/// The metallic scatter direction: specular reflection of the normalized
/// incoming direction, perturbed by `fuzz` times a sphere sample.
pub open spec fn metal_dir(
    din: (int, int, int),
    n: (int, int, int),
    fuzz: int,
    s: (int, int, int),
) -> (int, int, int) {
    vadd(reflect_s(unit_s(din), n), vscale(fuzz, s))
}

/// Schlick's approximation of the reflectance for a given cosine and
/// refraction ratio.
pub open spec fn reflectance_s(cosine: int, ref_idx: int) -> int {
    let s = SCALE as int;
    let r0q = div_t((s - ref_idx) * s, s + ref_idx);
    let r0 = mul_fx(r0q, r0q);
    let t = s - cosine;
    let p2 = mul_fx(t, t);
    let p4 = mul_fx(p2, p2);
    let p5 = mul_fx(p4, t);
    r0 + mul_fx(s - r0, p5)
}

/// The refraction ratio at an interface: `1 / ir` entering the front face,
/// `ir` leaving through it.
pub open spec fn diel_ratio(ir: int, front_face: bool) -> int {
    if front_face {
        div_t(SCALE as int * SCALE as int, ir)
    } else {
        ir
    }
}

/// The cosine between the negated unit direction and the normal, capped at
/// one whole unit.
pub open spec fn diel_cos(u: (int, int, int), n: (int, int, int)) -> int {
    let c = div_t(dots(vneg(u), n), SCALE as int);
    if c > SCALE as int {
        SCALE as int
    } else {
        c
    }
}

/// The dielectric scatter direction for a unit incoming direction `u`:
/// total internal reflection when refraction is impossible, a stochastic
/// choice against `coin` between reflection and refraction otherwise.
pub open spec fn dielectric_dir(
    u: (int, int, int),
    n: (int, int, int),
    front_face: bool,
    ir: int,
    coin: int,
) -> (int, int, int) {
    let ratio = diel_ratio(ir, front_face);
    let cos = diel_cos(u, n);
    let rest = SCALE as int - mul_fx(cos, cos);
    let k = if rest >= 0 {
        rest
    } else {
        0
    };
    let sin = sqrt_fx(k);
    if mul_fx(ratio, sin) > SCALE as int || reflectance_s(cos, ratio) > coin {
        reflect_s(u, n)
    } else {
        refract_s(u, n, ratio)
    }
}

impl Lambertian {
    pub fn new(a: &Color) -> (r: Self)
        requires
            is_color(a@),
        ensures
            r.albedo@ == a@,
            wf_material(Material::Lambertian(r)),
    {
        Lambertian { albedo: Vec3::new(a.x(), a.y(), a.z()) }
    }

    /// Diffuse scatter with an injected unit sample: always scatters, the
    /// attenuation is the albedo.
    pub fn scatter(&self, _r_in: &Ray, rec: &HitRecord, unit_sample: &Vec3) -> (res: (Color, Ray))
        requires
            in_range(rec.normal@, UNIT_MAX as int),
            in_range(unit_sample@, SCALE as int),
        ensures
            res.0@ == self.albedo@,
            res.1.orig@ == rec.p@,
            res.1.dir@ == lambertian_dir(rec.normal@, unit_sample@),
    {
        let mut scatter_direction: Vec3 = rec.normal.add(unit_sample);
        if scatter_direction.near_zero() {
            scatter_direction = rec.normal;
        }
        (self.albedo, Ray::new(&rec.p, &scatter_direction))
    }
}

/// The diffuse scatter direction is never degenerate when the surface
/// normal is not.
pub proof fn lemma_lambertian_never_degenerate(n: (int, int, int), s: (int, int, int))
    requires
        !near_zero_s(n),
    ensures
        !near_zero_s(lambertian_dir(n, s)),
{
}

impl Metal {
    pub fn new(a: &Color, fuzz: i128) -> (r: Self)
        requires
            is_color(a@),
        ensures
            r.albedo@ == a@,
            r.fuzz as int == clamp_s(fuzz as int, 0, SCALE as int),
            wf_material(Material::Metal(r)),
    {
        Metal { albedo: Vec3::new(a.x(), a.y(), a.z()), fuzz: clamp(fuzz, 0, SCALE) }
    }

    /// Metallic scatter with an injected sphere sample: accepted exactly
    /// when the perturbed reflection leaves the surface.
    pub fn scatter(&self, r_in: &Ray, rec: &HitRecord, sphere_sample: &Vec3) -> (res: Option<
        (Color, Ray),
    >)
        requires
            0 <= self.fuzz <= SCALE,
            !near_zero_s(r_in.dir@),
            in_range(r_in.dir@, VEC_MAX as int),
            in_range(rec.normal@, UNIT_MAX as int),
            in_range(sphere_sample@, SCALE as int),
        ensures
            res.is_some() <==> dots(
                metal_dir(r_in.dir@, rec.normal@, self.fuzz as int, sphere_sample@),
                rec.normal@,
            ) > 0,
            res matches Some((att, sc)) ==> {
                &&& att@ == self.albedo@
                &&& sc.orig@ == rec.p@
                &&& sc.dir@ == metal_dir(r_in.dir@, rec.normal@, self.fuzz as int, sphere_sample@)
            },
    {
        let din: Vec3 = r_in.direction();
        let unit: Vec3 = unit_vector(&din);
        let reflected: Vec3 = reflect(&unit, &rec.normal);
        let fuzzed: Vec3 = sphere_sample.scale(self.fuzz);
        let direction: Vec3 = reflected.add(&fuzzed);
        proof {
            lemma_mul_fx_bound(self.fuzz as int, sphere_sample@.0, SCALE as int, SCALE as int);
            lemma_mul_fx_bound(self.fuzz as int, sphere_sample@.1, SCALE as int, SCALE as int);
            lemma_mul_fx_bound(self.fuzz as int, sphere_sample@.2, SCALE as int, SCALE as int);
        }
        let d: i128 = dot(&direction, &rec.normal);
        if d > 0 {
            Some((self.albedo, Ray::new(&rec.p, &direction)))
        } else {
            None
        }
    }
}

/// With no fuzz the metallic scatter direction is the exact specular
/// reflection of the normalized incoming direction.
pub proof fn lemma_metal_specular(din: (int, int, int), n: (int, int, int), s: (int, int, int))
    ensures
        metal_dir(din, n, 0, s) == reflect_s(unit_s(din), n),
{
    assert(0 * s.0 == 0) by (nonlinear_arith);
    assert(0 * s.1 == 0) by (nonlinear_arith);
    assert(0 * s.2 == 0) by (nonlinear_arith);
    assert(vscale(0, s) == (0int, 0int, 0int));
}

impl Dielectric {
    pub fn new(index_of_refraction: i128) -> (r: Self)
        requires
            IR_MIN <= index_of_refraction <= IR_MAX,
        ensures
            r.ir == index_of_refraction,
            wf_material(Material::Dielectric(r)),
    {
        Dielectric { ir: index_of_refraction }
    }

    /// Dielectric scatter with an injected coin in `[0, 1)`: always
    /// scatters with full transmission (white attenuation).
    pub fn scatter(&self, r_in: &Ray, rec: &HitRecord, coin: i128) -> (res: (Color, Ray))
        requires
            IR_MIN <= self.ir <= IR_MAX,
            !near_zero_s(r_in.dir@),
            in_range(r_in.dir@, VEC_MAX as int),
            in_range(rec.normal@, UNIT_MAX as int),
            0 <= coin,
        ensures
            res.0@ == (SCALE as int, SCALE as int, SCALE as int),
            res.1.orig@ == rec.p@,
            res.1.dir@ == dielectric_dir(
                unit_s(r_in.dir@),
                rec.normal@,
                rec.front_face,
                self.ir as int,
                coin as int,
            ),
    {
        let attenuation: Color = Vec3::new(SCALE, SCALE, SCALE);
        let refraction_ratio: i128 = if rec.front_face {
            let q: i128 = div_trunc(SCALE * SCALE, self.ir);
            proof {
                assert(q as int >= 1) by (nonlinear_arith)
                    requires
                        (q as int) * (self.ir as int) > 1_000_000_000_000 - self.ir as int,
                        10_000 <= self.ir as int <= 100_000_000,
                        q as int >= 0,
                ;
                assert(q as int <= 100_000_000) by (nonlinear_arith)
                    requires
                        0 <= (q as int) * (self.ir as int) <= 1_000_000_000_000,
                        10_000 <= self.ir as int,
                        q as int >= 0,
                ;
            }
            q
        } else {
            self.ir
        };
        let din: Vec3 = r_in.direction();
        let unit_direction: Vec3 = unit_vector(&din);
        let m: Vec3 = unit_direction.neg();
        let raw: i128 = dot(&m, &rec.normal);
        proof {
            lemma_dot_bound(m@, rec.normal@, UNIT_MAX as int);
        }
        let cos_theta: i128 = min_i(div_trunc(raw, SCALE), SCALE);
        let cc: i128 = mul_fixed(cos_theta, cos_theta);
        proof {
            assert(cos_theta as int * cos_theta as int >= 0) by (nonlinear_arith);
            lemma_mul_fx_bound(cos_theta as int, cos_theta as int, 12_000_000, 12_000_000);
        }
        let rest: i128 = SCALE - cc;
        let k: i128 = max_i(rest, 0);
        let sin_theta: i128 = sqrt_fixed(k);
        proof {
            assert(sin_theta as int <= 1_000_000) by (nonlinear_arith)
                requires
                    0 <= sin_theta as int,
                    sin_theta as int * sin_theta as int <= k as int * 1_000_000,
                    k as int <= 1_000_000,
            ;
        }
        let cannot_refract: bool = mul_fixed(refraction_ratio, sin_theta) > SCALE;
        let direction: Vec3 = if cannot_refract || reflectance(cos_theta, refraction_ratio)
            > coin {
            reflect(&unit_direction, &rec.normal)
        } else {
            refract(&unit_direction, &rec.normal, refraction_ratio)
        };
        (attenuation, Ray::new(&rec.p, &direction))
    }
}

/// Schlick's approximation for the reflectance.
fn reflectance(cosine: i128, ref_idx: i128) -> (r: i128)
    requires
        -12_000_000 <= cosine <= SCALE,
        1 <= ref_idx <= RATIO_MAX,
    ensures
        r as int == reflectance_s(cosine as int, ref_idx as int),
{
    let num: i128 = (SCALE - ref_idx) * SCALE;
    let den: i128 = SCALE + ref_idx;
    let r0q: i128 = div_trunc(num, den);
    proof {
        let s = SCALE as int;
        let n = num as int;
        let d = den as int;
        let q = r0q as int;
        if n >= 0 {
            assert(n <= d * s) by (nonlinear_arith)
                requires
                    n == (s - ref_idx as int) * s,
                    d == s + ref_idx as int,
                    ref_idx as int >= 1,
                    s == 1_000_000,
            ;
            assert(q <= s) by (nonlinear_arith)
                requires
                    0 <= q * d <= n,
                    n <= d * s,
                    d >= 1,
                    s >= 1,
                    q >= 0,
            ;
        } else {
            assert(-(d * s) <= n) by (nonlinear_arith)
                requires
                    n == (s - ref_idx as int) * s,
                    d == s + ref_idx as int,
                    ref_idx as int >= 1,
                    s == 1_000_000,
            ;
            assert(-s <= q) by (nonlinear_arith)
                requires
                    n <= q * d <= 0,
                    -(d * s) <= n,
                    d >= 1,
                    s >= 1,
                    q <= 0,
            ;
        }
    }
    let r0: i128 = mul_fixed(r0q, r0q);
    proof {
        assert(r0q as int * r0q as int >= 0) by (nonlinear_arith);
        assert(r0q as int * r0q as int <= 1_000_000_000_000) by (nonlinear_arith)
            requires
                -1_000_000 <= r0q as int <= 1_000_000,
        ;
    }
    let t: i128 = SCALE - cosine;
    let p2: i128 = mul_fixed(t, t);
    proof {
        assert(t as int * t as int >= 0) by (nonlinear_arith);
        lemma_mul_fx_bound(t as int, t as int, 13_000_000, 13_000_000);
    }
    let p4: i128 = mul_fixed(p2, p2);
    proof {
        assert(p2 as int * p2 as int >= 0) by (nonlinear_arith);
        lemma_mul_fx_bound(p2 as int, p2 as int, 169_000_000, 169_000_000);
    }
    let p5: i128 = mul_fixed(p4, t);
    proof {
        lemma_mul_fx_bound(p4 as int, t as int, 28_561_000_000, 13_000_000);
    }
    let tail: i128 = mul_fixed(SCALE - r0, p5);
    r0 + tail
}

impl Material {
    /// Scatter the incoming ray at a hit of this material, drawing the
    /// samples the model needs.  States what holds of every outcome: the
    /// attenuation is a color, the scattered ray starts at the hit point,
    /// and its direction comes from the model's deterministic rule applied
    /// to some admissible sample.
    pub fn scatter(&self, r_in: &Ray, rec: &HitRecord) -> (res: Option<(Color, Ray)>)
        requires
            wf_material(*self),
            !near_zero_s(r_in.dir@),
            in_range(r_in.dir@, VEC_MAX as int),
            in_range(rec.normal@, UNIT_MAX as int),
        ensures
            res matches Some((att, sc)) ==> is_color(att@) && sc.orig@ == rec.p@,
            self matches Material::Lambertian(l) ==> res.is_some() && (res matches Some(
                (att, sc),
            ) ==> att@ == l.albedo@ && exists|smp: (int, int, int)|
                in_range(smp, SCALE as int) && sc.dir@ == #[trigger] lambertian_dir(
                    rec.normal@,
                    smp,
                )),
            self matches Material::Metal(mt) ==> (res matches Some((att, sc)) ==> att@
                == mt.albedo@ && exists|smp: (int, int, int)|
                in_range(smp, SCALE as int) && sc.dir@ == #[trigger] metal_dir(
                    r_in.dir@,
                    rec.normal@,
                    mt.fuzz as int,
                    smp,
                ) && dots(sc.dir@, rec.normal@) > 0),
            self matches Material::Dielectric(d) ==> res.is_some() && (res matches Some(
                (att, sc),
            ) ==> att@ == (SCALE as int, SCALE as int, SCALE as int) && exists|coin: int|
                0 <= coin < SCALE as int && sc.dir@ == #[trigger] dielectric_dir(
                    unit_s(r_in.dir@),
                    rec.normal@,
                    rec.front_face,
                    d.ir as int,
                    coin,
                )),
    {
        match self {
            Material::Lambertian(l) => {
                let smp: Vec3 = random_unit_vector();
                let (att, sc) = l.scatter(r_in, rec, &smp);
                proof {
                    assert(in_range(smp@, SCALE as int) && sc.dir@ == lambertian_dir(
                        rec.normal@,
                        smp@,
                    ));
                }
                Some((att, sc))
            },
            Material::Metal(mt) => {
                let smp: Vec3 = random_in_unit_sphere();
                let res = mt.scatter(r_in, rec, &smp);
                proof {
                    if res.is_some() {
                        assert(in_range(smp@, SCALE as int) && res->Some_0.1.dir@ == metal_dir(
                            r_in.dir@,
                            rec.normal@,
                            mt.fuzz as int,
                            smp@,
                        ));
                    }
                }
                res
            },
            Material::Dielectric(d) => {
                let coin: i128 = random_double();
                let (att, sc) = d.scatter(r_in, rec, coin);
                proof {
                    assert(0 <= coin as int && (coin as int) < SCALE as int && sc.dir@ == dielectric_dir(
                        unit_s(r_in.dir@),
                        rec.normal@,
                        rec.front_face,
                        d.ir as int,
                        coin as int,
                    ));
                }
                Some((att, sc))
            },
        }
    }
}


/// With a unit index of refraction the refraction ratio is one and total
/// internal reflection can never occur: refraction is taken whenever the
/// Schlick reflectance does not exceed the drawn coin.
pub proof fn lemma_dielectric_unit_index(
    u: (int, int, int),
    n: (int, int, int),
    front_face: bool,
    coin: int,
)
    ensures
        diel_ratio(SCALE as int, front_face) == SCALE as int,
        dielectric_dir(u, n, front_face, SCALE as int, coin) == (if reflectance_s(
            diel_cos(u, n),
            SCALE as int,
        ) > coin {
            reflect_s(u, n)
        } else {
            refract_s(u, n, SCALE as int)
        }),
{
    let st = SCALE as int;
    assert(div_t(st * st, st) == st) by {
        lemma_div_t_exact(st, st);
    }
    let cos = diel_cos(u, n);
    assert(cos * cos >= 0) by (nonlinear_arith);
    assert(mul_fx(cos, cos) >= 0) by {
        assert(div_t(cos * cos, st) == (cos * cos) / st);
        assert((cos * cos) / st >= 0) by (nonlinear_arith)
            requires
                cos * cos >= 0,
                st >= 1,
        ;
    }
    let rest = st - mul_fx(cos, cos);
    let k = if rest >= 0 {
        rest
    } else {
        0
    };
    assert(0 <= k <= st);
    lemma_sqrt_exists(k * st);
    let sin = sqrt_fx(k);
    assert(k * st <= st * st) by (nonlinear_arith)
        requires
            0 <= k <= st,
    ;
    assert(sin <= st) by (nonlinear_arith)
        requires
            0 <= sin,
            sin * sin <= k * st,
            k * st <= st * st,
            st >= 1,
    ;
    assert(mul_fx(st, sin) == sin) by {
        assert(st * sin == sin * st) by (nonlinear_arith);
        lemma_div_t_exact(sin, st);
    }
}
} // verus!
