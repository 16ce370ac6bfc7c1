//! Three-component fixed-point vectors, used as points, directions and
//! colors alike.
//!
//! Every executable operation has a spec-level mirror over integer triples
//! (`@` is the triple of a vector's components as mathematical integers),
//! so contracts throughout the library can state results exactly.

use vstd::prelude::*;

verus! {

use crate::fixed::{
    SCALE, FXMAX, MUL_OUT, ADD_MAX, div_t, mul_fx, sqrt_fl, is_sqrt_floor, sqrt_fx, div_trunc,
    mul_fixed, isqrt, sqrt_fixed, min_i, lemma_mul_fx_bound,
};
use crate::rtweekend::{random_double, random_double_range};

/// Magnitude bound under which dot products, cross products and lengths
/// stay far from `i128` overflow.
pub const VEC_MAX: i128 = 1_000_000_000_000;

/// Magnitude bound for the near-unit vectors handed to reflection and
/// refraction.
pub const UNIT_MAX: i128 = 2_000_000;

/// Largest refraction ratio accepted by `refract`.
pub const RATIO_MAX: i128 = 100_000_000;

#[derive(Clone, Copy, Debug, PartialEq, Eq, Structural)]
pub struct Vec3 {
    pub e0: i128,
    pub e1: i128,
    pub e2: i128,
}

pub type Point3 = Vec3;

pub type Color = Vec3;

impl View for Vec3 {
    type V = (int, int, int);

    open spec fn view(&self) -> (int, int, int) {
        (self.e0 as int, self.e1 as int, self.e2 as int)
    }
}

/// Component-wise sum.
pub open spec fn vadd(a: (int, int, int), b: (int, int, int)) -> (int, int, int) {
    (a.0 + b.0, a.1 + b.1, a.2 + b.2)
}

/// Component-wise difference.
pub open spec fn vsub(a: (int, int, int), b: (int, int, int)) -> (int, int, int) {
    (a.0 - b.0, a.1 - b.1, a.2 - b.2)
}

/// Component-wise negation.
pub open spec fn vneg(a: (int, int, int)) -> (int, int, int) {
    (-a.0, -a.1, -a.2)
}

/// Component-wise fixed-point product (color attenuation).
pub open spec fn vmul(a: (int, int, int), b: (int, int, int)) -> (int, int, int) {
    (mul_fx(a.0, b.0), mul_fx(a.1, b.1), mul_fx(a.2, b.2))
}

/// Scalar fixed-point product.
pub open spec fn vscale(k: int, a: (int, int, int)) -> (int, int, int) {
    (mul_fx(k, a.0), mul_fx(k, a.1), mul_fx(k, a.2))
}

/// Division of a vector by a positive fixed-point scalar.
pub open spec fn vdivs(a: (int, int, int), d: int) -> (int, int, int) {
    (div_t(a.0 * SCALE, d), div_t(a.1 * SCALE, d), div_t(a.2 * SCALE, d))
}

/// The raw dot product: exact sum of component products, in squared
/// micro-units (divide by `SCALE` for the fixed-point value).
pub open spec fn dots(a: (int, int, int), b: (int, int, int)) -> int {
    a.0 * b.0 + a.1 * b.1 + a.2 * b.2
}

/// The cross product, each component rescaled to micro-units.
pub open spec fn crossv(a: (int, int, int), b: (int, int, int)) -> (int, int, int) {
    (
        mul_fx(a.1, b.2) - mul_fx(a.2, b.1),
        mul_fx(a.2, b.0) - mul_fx(a.0, b.2),
        mul_fx(a.0, b.1) - mul_fx(a.1, b.0),
    )
}

/// The vector rescaled to (truncated) unit length.
pub open spec fn unit_s(a: (int, int, int)) -> (int, int, int) {
    vdivs(a, sqrt_fl(dots(a, a)))
}

/// Degenerate below the resolution of the representation.
pub open spec fn near_zero_s(a: (int, int, int)) -> bool {
    a.0 == 0 && a.1 == 0 && a.2 == 0
}

/// All three components within `[-b, b]`.
pub open spec fn in_range(a: (int, int, int), b: int) -> bool {
    -b <= a.0 <= b && -b <= a.1 <= b && -b <= a.2 <= b
}

/// Specular reflection of `v` about `n`.
pub open spec fn reflect_s(v: (int, int, int), n: (int, int, int)) -> (int, int, int) {
    vsub(v, vscale(2 * div_t(dots(v, n), SCALE as int), n))
}

pub proof fn lemma_dot_bound(a: (int, int, int), b: (int, int, int), m: int)
    requires
        0 <= m,
        in_range(a, m),
        in_range(b, m),
    ensures
        -(3 * (m * m)) <= dots(a, b) <= 3 * (m * m),
        -(m * m) <= a.0 * b.0 <= m * m,
        -(m * m) <= a.1 * b.1 <= m * m,
        -(m * m) <= a.2 * b.2 <= m * m,
{
    assert(-(m * m) <= a.0 * b.0 <= m * m) by (nonlinear_arith)
        requires
            -m <= a.0 <= m,
            -m <= b.0 <= m,
            0 <= m,
    ;
    assert(-(m * m) <= a.1 * b.1 <= m * m) by (nonlinear_arith)
        requires
            -m <= a.1 <= m,
            -m <= b.1 <= m,
            0 <= m,
    ;
    assert(-(m * m) <= a.2 * b.2 <= m * m) by (nonlinear_arith)
        requires
            -m <= a.2 <= m,
            -m <= b.2 <= m,
            0 <= m,
    ;
}

/// Dot-product bound with a separate magnitude bound for each argument.
pub proof fn lemma_dot_bound2(a: (int, int, int), b: (int, int, int), ma: int, mb: int)
    requires
        0 <= ma,
        0 <= mb,
        in_range(a, ma),
        in_range(b, mb),
    ensures
        -(3 * (ma * mb)) <= dots(a, b) <= 3 * (ma * mb),
        -(ma * mb) <= a.0 * b.0 <= ma * mb,
        -(ma * mb) <= a.1 * b.1 <= ma * mb,
        -(ma * mb) <= a.2 * b.2 <= ma * mb,
{
    assert(-(ma * mb) <= a.0 * b.0 <= ma * mb) by (nonlinear_arith)
        requires
            -ma <= a.0 <= ma,
            -mb <= b.0 <= mb,
            0 <= ma,
            0 <= mb,
    ;
    assert(-(ma * mb) <= a.1 * b.1 <= ma * mb) by (nonlinear_arith)
        requires
            -ma <= a.1 <= ma,
            -mb <= b.1 <= mb,
            0 <= ma,
            0 <= mb,
    ;
    assert(-(ma * mb) <= a.2 * b.2 <= ma * mb) by (nonlinear_arith)
        requires
            -ma <= a.2 <= ma,
            -mb <= b.2 <= mb,
            0 <= ma,
            0 <= mb,
    ;
}

/// Each component's square is at most the squared length.
proof fn lemma_sq_le_dots(a: (int, int, int))
    ensures
        a.0 * a.0 <= dots(a, a),
        a.1 * a.1 <= dots(a, a),
        a.2 * a.2 <= dots(a, a),
{
    assert(a.0 * a.0 >= 0) by (nonlinear_arith);
    assert(a.1 * a.1 >= 0) by (nonlinear_arith);
    assert(a.2 * a.2 >= 0) by (nonlinear_arith);
}

/// A degenerate vector has squared length zero.
proof fn lemma_zero_dots(a: (int, int, int))
    requires
        near_zero_s(a),
    ensures
        dots(a, a) == 0,
{
    assert(a.0 * a.0 == 0) by (nonlinear_arith)
        requires
            a.0 == 0,
    ;
    assert(a.1 * a.1 == 0) by (nonlinear_arith)
        requires
            a.1 == 0,
    ;
    assert(a.2 * a.2 == 0) by (nonlinear_arith)
        requires
            a.2 == 0,
    ;
}

/// A dot product of a vector with itself is non-negative.
pub proof fn lemma_len_sq_nonneg(a: (int, int, int))
    ensures
        dots(a, a) >= 0,
{
    assert(a.0 * a.0 >= 0) by (nonlinear_arith);
    assert(a.1 * a.1 >= 0) by (nonlinear_arith);
    assert(a.2 * a.2 >= 0) by (nonlinear_arith);
}

/// Negating one side negates the raw dot product.
pub proof fn lemma_dot_neg(a: (int, int, int), b: (int, int, int))
    ensures
        dots(vneg(a), b) == -dots(a, b),
{
    assert((-a.0) * b.0 == -(a.0 * b.0)) by (nonlinear_arith);
    assert((-a.1) * b.1 == -(a.1 * b.1)) by (nonlinear_arith);
    assert((-a.2) * b.2 == -(a.2 * b.2)) by (nonlinear_arith);
}

impl Vec3 {
    pub fn new(e0: i128, e1: i128, e2: i128) -> (r: Self)
        ensures
            r@ == (e0 as int, e1 as int, e2 as int),
    {
        Vec3 { e0, e1, e2 }
    }

    pub fn x(&self) -> (r: i128)
        ensures
            r as int == self@.0,
    {
        self.e0
    }

    pub fn y(&self) -> (r: i128)
        ensures
            r as int == self@.1,
    {
        self.e1
    }

    pub fn z(&self) -> (r: i128)
        ensures
            r as int == self@.2,
    {
        self.e2
    }

    /// The component selected by an index in `{0, 1, 2}`.
    pub fn index(&self, i: usize) -> (r: i128)
        requires
            i < 3,
        ensures
            i == 0 ==> r as int == self@.0,
            i == 1 ==> r as int == self@.1,
            i == 2 ==> r as int == self@.2,
    {
        if i == 0 {
            self.e0
        } else if i == 1 {
            self.e1
        } else {
            self.e2
        }
    }

    /// Overwrite this vector with another.
    pub fn set(&mut self, other: &Vec3)
        ensures
            final(self)@ == other@,
    {
        self.e0 = other.e0;
        self.e1 = other.e1;
        self.e2 = other.e2;
    }

    pub fn add(&self, rhs: &Vec3) -> (r: Vec3)
        requires
            in_range(self@, ADD_MAX as int),
            in_range(rhs@, ADD_MAX as int),
        ensures
            r@ == vadd(self@, rhs@),
    {
        Vec3 { e0: self.e0 + rhs.e0, e1: self.e1 + rhs.e1, e2: self.e2 + rhs.e2 }
    }

    pub fn sub(&self, rhs: &Vec3) -> (r: Vec3)
        requires
            in_range(self@, ADD_MAX as int),
            in_range(rhs@, ADD_MAX as int),
        ensures
            r@ == vsub(self@, rhs@),
    {
        Vec3 { e0: self.e0 - rhs.e0, e1: self.e1 - rhs.e1, e2: self.e2 - rhs.e2 }
    }

    pub fn neg(&self) -> (r: Vec3)
        requires
            in_range(self@, ADD_MAX as int),
        ensures
            r@ == vneg(self@),
    {
        Vec3 { e0: -self.e0, e1: -self.e1, e2: -self.e2 }
    }

    /// Component-wise fixed-point product of two colors.
    pub fn mul(&self, rhs: &Vec3) -> (r: Vec3)
        requires
            in_range(self@, FXMAX as int),
            in_range(rhs@, FXMAX as int),
        ensures
            r@ == vmul(self@, rhs@),
            in_range(r@, MUL_OUT as int),
    {
        Vec3 {
            e0: mul_fixed(self.e0, rhs.e0),
            e1: mul_fixed(self.e1, rhs.e1),
            e2: mul_fixed(self.e2, rhs.e2),
        }
    }

    /// This vector scaled by a fixed-point factor.
    pub fn scale(&self, k: i128) -> (r: Vec3)
        requires
            in_range(self@, FXMAX as int),
            -FXMAX <= k <= FXMAX,
        ensures
            r@ == vscale(k as int, self@),
            in_range(r@, MUL_OUT as int),
    {
        Vec3 {
            e0: mul_fixed(k, self.e0),
            e1: mul_fixed(k, self.e1),
            e2: mul_fixed(k, self.e2),
        }
    }

    /// This vector divided by a positive fixed-point scalar.
    pub fn div_scalar(&self, d: i128) -> (r: Vec3)
        requires
            d >= 1,
            in_range(self@, FXMAX as int),
        ensures
            r@ == vdivs(self@, d as int),
            in_range(r@, FXMAX as int * SCALE as int),
    {
        Vec3 {
            e0: div_trunc(self.e0 * SCALE, d),
            e1: div_trunc(self.e1 * SCALE, d),
            e2: div_trunc(self.e2 * SCALE, d),
        }
    }

    /// The raw squared length, in squared micro-units.
    pub fn length_squared(&self) -> (r: i128)
        requires
            in_range(self@, VEC_MAX as int),
        ensures
            r as int == dots(self@, self@),
            r >= 0,
    {
        proof {
            lemma_dot_bound(self@, self@, VEC_MAX as int);
            lemma_len_sq_nonneg(self@);
        }
        self.e0 * self.e0 + self.e1 * self.e1 + self.e2 * self.e2
    }

    /// The truncated length, in micro-units.
    pub fn length(&self) -> (r: i128)
        requires
            in_range(self@, VEC_MAX as int),
        ensures
            r as int == sqrt_fl(dots(self@, self@)),
            0 <= r,
    {
        let ls: i128 = self.length_squared();
        isqrt(ls)
    }

    /// Degenerate below the resolution of the representation.
    pub fn near_zero(&self) -> (r: bool)
        ensures
            r == near_zero_s(self@),
    {
        self.e0 == 0 && self.e1 == 0 && self.e2 == 0
    }

    /// A vector with components sampled uniformly from `[0, 1)`.
    pub fn random() -> (r: Vec3)
        ensures
            0 <= r@.0 < SCALE as int,
            0 <= r@.1 < SCALE as int,
            0 <= r@.2 < SCALE as int,
    {
        Vec3 { e0: random_double(), e1: random_double(), e2: random_double() }
    }

    /// A vector with components sampled uniformly from `[min, max)`.
    pub fn random_range(min: i128, max: i128) -> (r: Vec3)
        requires
            min < max,
            -FXMAX <= min,
            max <= FXMAX,
            max - min <= FXMAX,
        ensures
            min as int <= r@.0 < max as int,
            min as int <= r@.1 < max as int,
            min as int <= r@.2 < max as int,
    {
        Vec3 {
            e0: random_double_range(min, max),
            e1: random_double_range(min, max),
            e2: random_double_range(min, max),
        }
    }
}

/// Whether every component lies within `[-b, b]`.
pub fn check_range(v: &Vec3, b: i128) -> (r: bool)
    requires
        b >= 0,
    ensures
        r == in_range(v@, b as int),
{
    -b <= v.e0 && v.e0 <= b && -b <= v.e1 && v.e1 <= b && -b <= v.e2 && v.e2 <= b
}

/// The raw dot product of two vectors, in squared micro-units.
pub fn dot(u: &Vec3, v: &Vec3) -> (r: i128)
    requires
        in_range(u@, VEC_MAX as int),
        in_range(v@, VEC_MAX as int),
    ensures
        r as int == dots(u@, v@),
{
    proof {
        lemma_dot_bound(u@, v@, VEC_MAX as int);
    }
    u.e0 * v.e0 + u.e1 * v.e1 + u.e2 * v.e2
}

/// The cross product, rescaled to micro-units.
pub fn cross(u: &Vec3, v: &Vec3) -> (r: Vec3)
    requires
        in_range(u@, VEC_MAX as int),
        in_range(v@, VEC_MAX as int),
    ensures
        r@ == crossv(u@, v@),
{
    Vec3 {
        e0: mul_fixed(u.e1, v.e2) - mul_fixed(u.e2, v.e1),
        e1: mul_fixed(u.e2, v.e0) - mul_fixed(u.e0, v.e2),
        e2: mul_fixed(u.e0, v.e1) - mul_fixed(u.e1, v.e0),
    }
}

/// The vector rescaled to (truncated) unit length.  Its components never
/// exceed one whole unit in magnitude.
pub fn unit_vector(v: &Vec3) -> (r: Vec3)
    requires
        !near_zero_s(v@),
        in_range(v@, VEC_MAX as int),
    ensures
        r@ == unit_s(v@),
        in_range(r@, SCALE as int),
{
    let ls: i128 = v.length_squared();
    proof {
        lemma_some_square_pos(v@);
    }
    let len: i128 = isqrt(ls);
    proof {
        if len == 0 {
            assert(dots(v@, v@) < 1);
        }
        lemma_sq_le_dots(v@);
        lemma_unit_component(v@.0, dots(v@, v@), len as int);
        lemma_unit_component(v@.1, dots(v@, v@), len as int);
        lemma_unit_component(v@.2, dots(v@, v@), len as int);
    }
    Vec3 {
        e0: div_trunc(v.e0 * SCALE, len),
        e1: div_trunc(v.e1 * SCALE, len),
        e2: div_trunc(v.e2 * SCALE, len),
    }
}

pub proof fn lemma_some_square_pos(a: (int, int, int))
    requires
        !near_zero_s(a),
    ensures
        dots(a, a) >= 1,
{
    lemma_len_sq_nonneg(a);
    if a.0 != 0 {
        assert(a.0 * a.0 >= 1) by (nonlinear_arith)
            requires
                a.0 != 0,
        ;
        assert(a.1 * a.1 >= 0) by (nonlinear_arith);
        assert(a.2 * a.2 >= 0) by (nonlinear_arith);
    } else if a.1 != 0 {
        assert(a.1 * a.1 >= 1) by (nonlinear_arith)
            requires
                a.1 != 0,
        ;
        assert(a.0 * a.0 >= 0) by (nonlinear_arith);
        assert(a.2 * a.2 >= 0) by (nonlinear_arith);
    } else {
        assert(a.2 * a.2 >= 1) by (nonlinear_arith)
            requires
                a.2 != 0,
        ;
        assert(a.0 * a.0 >= 0) by (nonlinear_arith);
        assert(a.1 * a.1 >= 0) by (nonlinear_arith);
    }
}

proof fn lemma_unit_component(c: int, ls: int, len: int)
    requires
        c * c <= ls,
        is_sqrt_floor(ls, len),
        len >= 1,
    ensures
        -(SCALE as int) <= div_t(c * SCALE as int, len) <= SCALE as int,
{
    let s = SCALE as int;
    assert(-len <= c <= len) by (nonlinear_arith)
        requires
            c * c <= ls,
            ls < (len + 1) * (len + 1),
            len >= 0,
    ;
    if c >= 0 {
        assert(c * s <= len * s) by (nonlinear_arith)
            requires
                c <= len,
                s > 0,
        ;
        assert((c * s) / len <= s) by (nonlinear_arith)
            requires
                0 <= c * s,
                c * s <= len * s,
                len >= 1,
                s > 0,
        ;
        assert((c * s) / len >= 0) by (nonlinear_arith)
            requires
                0 <= c * s,
                len >= 1,
        ;
    } else {
        assert((-c) * s <= len * s) by (nonlinear_arith)
            requires
                -c <= len,
                s > 0,
        ;
        assert(((-c) * s) / len <= s) by (nonlinear_arith)
            requires
                0 <= (-c) * s,
                (-c) * s <= len * s,
                len >= 1,
                s > 0,
        ;
        assert(((-c) * s) / len >= 0) by (nonlinear_arith)
            requires
                0 <= (-c) * s,
                len >= 1,
        ;
        assert((-c) * s == -(c * s)) by (nonlinear_arith);
    }
}

/// Specular reflection of `v` about the normal `n`.
pub fn reflect(v: &Vec3, n: &Vec3) -> (r: Vec3)
    requires
        in_range(v@, VEC_MAX as int),
        in_range(n@, VEC_MAX as int),
    ensures
        r@ == reflect_s(v@, n@),
        in_range(v@, UNIT_MAX as int) && in_range(n@, UNIT_MAX as int) ==> in_range(
            r@,
            50_000_000,
        ),
{
    let raw: i128 = dot(v, n);
    proof {
        lemma_dot_bound(v@, n@, VEC_MAX as int);
        if in_range(v@, UNIT_MAX as int) && in_range(n@, UNIT_MAX as int) {
            lemma_dot_bound(v@, n@, UNIT_MAX as int);
        }
    }
    let d: i128 = div_trunc(raw, SCALE);
    let k: i128 = 2 * d;
    let scaled: Vec3 = n.scale(k);
    proof {
        if in_range(v@, UNIT_MAX as int) && in_range(n@, UNIT_MAX as int) {
            lemma_mul_fx_bound(k as int, n@.0, 24_000_000, UNIT_MAX as int);
            lemma_mul_fx_bound(k as int, n@.1, 24_000_000, UNIT_MAX as int);
            lemma_mul_fx_bound(k as int, n@.2, 24_000_000, UNIT_MAX as int);
        }
    }
    v.sub(&scaled)
}


/// The truncated cosine between `-uv` and `n`, capped at one whole unit.
pub open spec fn refract_cos(uv: (int, int, int), n: (int, int, int)) -> int {
    let c = div_t(dots(vneg(uv), n), SCALE as int);
    if c > SCALE as int {
        SCALE as int
    } else {
        c
    }
}

/// Snell refraction of `uv` through a surface with normal `n` and
/// refraction ratio `ratio`: the tangential part is scaled by the ratio and
/// the normal part restores (truncated) unit length.
pub open spec fn refract_s(uv: (int, int, int), n: (int, int, int), ratio: int) -> (
    int,
    int,
    int,
) {
    let cos = refract_cos(uv, n);
    let perp = vscale(ratio, vadd(uv, vscale(cos, n)));
    let rest = SCALE as int - div_t(dots(perp, perp), SCALE as int);
    let k = if rest >= 0 {
        rest
    } else {
        -rest
    };
    vadd(perp, vscale(-sqrt_fx(k), n))
}

/// Refraction of the near-unit direction `uv` about the near-unit normal
/// `n` with the given refraction ratio.
pub fn refract(uv: &Vec3, n: &Vec3, etai_over_etat: i128) -> (r: Vec3)
    requires
        in_range(uv@, UNIT_MAX as int),
        in_range(n@, UNIT_MAX as int),
        1 <= etai_over_etat <= RATIO_MAX,
    ensures
        r@ == refract_s(uv@, n@, etai_over_etat as int),
{
    let m: Vec3 = uv.neg();
    let raw: i128 = dot(&m, n);
    proof {
        lemma_dot_bound(m@, n@, UNIT_MAX as int);
    }
    let cos: i128 = min_i(div_trunc(raw, SCALE), SCALE);
    let cn: Vec3 = n.scale(cos);
    proof {
        lemma_mul_fx_bound(cos as int, n@.0, 13_000_000, UNIT_MAX as int);
        lemma_mul_fx_bound(cos as int, n@.1, 13_000_000, UNIT_MAX as int);
        lemma_mul_fx_bound(cos as int, n@.2, 13_000_000, UNIT_MAX as int);
    }
    let inner: Vec3 = uv.add(&cn);
    let perp: Vec3 = inner.scale(etai_over_etat);
    proof {
        lemma_mul_fx_bound(etai_over_etat as int, inner@.0, RATIO_MAX as int, 30_000_000);
        lemma_mul_fx_bound(etai_over_etat as int, inner@.1, RATIO_MAX as int, 30_000_000);
        lemma_mul_fx_bound(etai_over_etat as int, inner@.2, RATIO_MAX as int, 30_000_000);
        lemma_dot_bound(perp@, perp@, 3_000_000_000);
        lemma_len_sq_nonneg(perp@);
    }
    let ls: i128 = perp.length_squared();
    let ls_fx: i128 = div_trunc(ls, SCALE);
    let rest: i128 = SCALE - ls_fx;
    let k: i128 = if rest >= 0 {
        rest
    } else {
        -rest
    };
    let sq: i128 = sqrt_fixed(k);
    proof {
        assert(sq as int * sq as int <= k as int * SCALE as int) by (nonlinear_arith)
            requires
                is_sqrt_floor(k as int * SCALE as int, sq as int),
        ;
        assert(sq as int <= 10_000_000_000_000) by (nonlinear_arith)
            requires
                sq as int * sq as int <= k as int * SCALE as int,
                0 <= k as int <= 100_000_000_000_000_000_000,
                SCALE as int == 1_000_000,
                0 <= sq as int,
        ;
    }
    let par: Vec3 = n.scale(-sq);
    perp.add(&par)
}

/// A sampled vector strictly inside the unit sphere (the origin if the
/// bounded rejection loop never succeeds).
pub fn random_in_unit_sphere() -> (r: Vec3)
    ensures
        dots(r@, r@) < SCALE as int * SCALE as int,
        in_range(r@, SCALE as int),
{
    let mut i: u32 = 0;
    while i < 64
        invariant
            true,
        decreases 64 - i,
    {
        let p: Vec3 = Vec3::random_range(-SCALE, SCALE);
        let ls: i128 = p.length_squared();
        if ls < SCALE * SCALE {
            return p;
        }
        i = i + 1;
    }
    proof {
        lemma_len_sq_nonneg((0int, 0int, 0int));
    }
    Vec3::new(0, 0, 0)
}

/// A sampled vector of (truncated) unit length: some nonzero vector inside
/// the unit sphere, rescaled to unit length.
pub fn random_unit_vector() -> (r: Vec3)
    ensures
        in_range(r@, SCALE as int),
        exists|v: (int, int, int)|
            {
                &&& 1 <= dots(v, v) < SCALE as int * SCALE as int
                &&& in_range(v, SCALE as int)
                &&& r@ == unit_s(v)
            },
{
    let mut i: u32 = 0;
    while i < 64
        invariant
            true,
        decreases 64 - i,
    {
        let p: Vec3 = Vec3::random_range(-SCALE, SCALE);
        let ls: i128 = p.length_squared();
        if 1 <= ls && ls < SCALE * SCALE {
            proof {
                if near_zero_s(p@) {
                    lemma_zero_dots(p@);
                }
            }
            let u: Vec3 = unit_vector(&p);
            proof {
                let w = p@;
                assert(1 <= dots(w, w) < SCALE as int * SCALE as int && in_range(
                    w,
                    SCALE as int,
                ) && u@ == unit_s(w));
            }
            return u;
        }
        i = i + 1;
    }
    let fallback: Vec3 = Vec3::new(500_000, 0, 0);
    proof {
        assert(!near_zero_s(fallback@));
    }
    let u: Vec3 = unit_vector(&fallback);
    proof {
        let w = fallback@;
        assert(dots(w, w) == 500_000int * 500_000int);
        assert(1 <= dots(w, w) < SCALE as int * SCALE as int && in_range(w, SCALE as int) && u@
            == unit_s(w));
    }
    u
}

/// A sampled vector inside the unit sphere, flipped if needed so that it
/// does not point against `normal`.
pub fn random_in_hemisphere(normal: &Vec3) -> (r: Vec3)
    requires
        in_range(normal@, VEC_MAX as int),
    ensures
        dots(r@, r@) < SCALE as int * SCALE as int,
        in_range(r@, SCALE as int),
        dots(r@, normal@) >= 0,
{
    let in_unit_sphere: Vec3 = random_in_unit_sphere();
    let d: i128 = dot(&in_unit_sphere, normal);
    if d > 0 {
        in_unit_sphere
    } else {
        let f: Vec3 = in_unit_sphere.neg();
        proof {
            lemma_dot_neg(in_unit_sphere@, normal@);
            lemma_dot_neg(in_unit_sphere@, in_unit_sphere@);
            lemma_dot_neg(vneg(in_unit_sphere@), in_unit_sphere@);
            assert(dots(f@, f@) == dots(in_unit_sphere@, in_unit_sphere@)) by {
                assert((-in_unit_sphere@.0) * (-in_unit_sphere@.0) == in_unit_sphere@.0
                    * in_unit_sphere@.0) by (nonlinear_arith);
                assert((-in_unit_sphere@.1) * (-in_unit_sphere@.1) == in_unit_sphere@.1
                    * in_unit_sphere@.1) by (nonlinear_arith);
                assert((-in_unit_sphere@.2) * (-in_unit_sphere@.2) == in_unit_sphere@.2
                    * in_unit_sphere@.2) by (nonlinear_arith);
            }
        }
        f
    }
}

/// A sampled vector in the unit disk of the lens plane: zero third
/// component, strictly inside unit length.
pub fn random_in_unit_disk() -> (r: Vec3)
    ensures
        dots(r@, r@) < SCALE as int * SCALE as int,
        in_range(r@, SCALE as int),
        r@.2 == 0,
{
    let mut i: u32 = 0;
    while i < 64
        invariant
            true,
        decreases 64 - i,
    {
        let p: Vec3 = Vec3::new(
            random_double_range(-SCALE, SCALE),
            random_double_range(-SCALE, SCALE),
            0,
        );
        let ls: i128 = p.length_squared();
        if ls < SCALE * SCALE {
            return p;
        }
        i = i + 1;
    }
    proof {
        lemma_len_sq_nonneg((0int, 0int, 0int));
    }
    Vec3::new(0, 0, 0)
}

} // verus!
