//! Fixed-point scalar arithmetic in micro-units.
//!
//! The integer `n` represents the real number `n / SCALE`.  Products are
//! rescaled with truncation toward zero, and square roots truncate toward
//! zero as well, so every operation has an exact integer description.

use vstd::prelude::*;

verus! {

/// One whole unit: the representation of the real number `1.0`.
pub const SCALE: i128 = 1_000_000;

/// Largest magnitude accepted by the rescaling multiplication; two factors
/// of this size keep the intermediate product inside `i128`.
pub const FXMAX: i128 = 10_000_000_000_000_000_000;

/// Every rescaled product lands within this magnitude.
pub const MUL_OUT: i128 = 100_000_000_000_000_000_000_000_000_000_000;

/// Magnitude bound under which component-wise sums and differences cannot
/// overflow.
pub const ADD_MAX: i128 = 1_000_000_000_000_000_000_000_000_000_000_000_000;

/// Truncating (toward zero) division, the rounding used throughout the
/// library.  Only meaningful for a positive divisor.
pub open spec fn div_t(a: int, b: int) -> int {
    if a >= 0 {
        a / b
    } else {
        -((-a) / b)
    }
}

/// The fixed-point product: rescale the exact product back to micro-units.
pub open spec fn mul_fx(a: int, b: int) -> int {
    div_t(a * b, SCALE as int)
}

/// `r` is the square root of `n`, truncated toward zero.
pub open spec fn is_sqrt_floor(n: int, r: int) -> bool {
    0 <= r && r * r <= n && n < (r + 1) * (r + 1)
}

/// The truncated square root of `n` (meaningful for `n >= 0`).
pub open spec fn sqrt_fl(n: int) -> int {
    choose|r: int| is_sqrt_floor(n, r)
}

/// The square root of a micro-unit quantity, again in micro-units.
pub open spec fn sqrt_fx(v: int) -> int {
    sqrt_fl(v * SCALE)
}

/// Truncated square roots are unique, so `sqrt_fl` is pinned down by any
/// witness.
pub proof fn lemma_sqrt_fl_is(n: int, r: int)
    requires
        is_sqrt_floor(n, r),
    ensures
        sqrt_fl(n) == r,
{
    assert(exists|x: int| is_sqrt_floor(n, x)) by {
        assert(is_sqrt_floor(n, r));
    }
    let c = sqrt_fl(n);
    assert(is_sqrt_floor(n, c));
    if c < r {
        assert((c + 1) * (c + 1) <= r * r) by (nonlinear_arith)
            requires
                0 <= c + 1,
                c + 1 <= r,
        ;
    }
    if r < c {
        assert((r + 1) * (r + 1) <= c * c) by (nonlinear_arith)
            requires
                0 <= r + 1,
                r + 1 <= c,
        ;
    }
}

/// A truncated square root exists for every non-negative argument, so
/// `sqrt_fl` satisfies its characterization there.
pub proof fn lemma_sqrt_exists(n: int)
    requires
        0 <= n,
    ensures
        is_sqrt_floor(n, sqrt_fl(n)),
        0 <= sqrt_fl(n),
    decreases n,
{
    if n == 0 {
        assert(is_sqrt_floor(0, 0));
        assert(exists|x: int| is_sqrt_floor(0, x)) by {
            assert(is_sqrt_floor(0, 0));
        }
    } else {
        lemma_sqrt_exists(n - 1);
        let r = sqrt_fl(n - 1);
        if (r + 1) * (r + 1) <= n {
            assert(is_sqrt_floor(n, r + 1)) by {
                assert(n <= (r + 1) * (r + 1)) by {
                    assert(n - 1 < (r + 1) * (r + 1));
                }
                assert((r + 1) * (r + 1) < (r + 2) * (r + 2)) by (nonlinear_arith)
                    requires
                        0 <= r + 1,
                ;
            }
            assert(exists|x: int| is_sqrt_floor(n, x)) by {
                assert(is_sqrt_floor(n, r + 1));
            }
        } else {
            assert(is_sqrt_floor(n, r));
            assert(exists|x: int| is_sqrt_floor(n, x)) by {
                assert(is_sqrt_floor(n, r));
            }
        }
    }
}

/// Dividing an exact multiple is exact, whatever the sign of the factor.
pub proof fn lemma_div_t_exact(x: int, d: int)
    requires
        d >= 1,
    ensures
        div_t(x * d, d) == x,
{
    if x >= 0 {
        assert(x * d == d * x) by (nonlinear_arith);
        assert(x * d >= 0) by (nonlinear_arith)
            requires
                x >= 0,
                d >= 1,
        ;
        vstd::arithmetic::div_mod::lemma_div_multiples_vanish(x, d);
    } else {
        assert(x * d < 0) by (nonlinear_arith)
            requires
                x < 0,
                d >= 1,
        ;
        assert(-(x * d) == d * (-x)) by (nonlinear_arith);
        vstd::arithmetic::div_mod::lemma_div_multiples_vanish(-x, d);
    }
}

/// Truncating division is monotone in the numerator (positive divisor).
pub proof fn lemma_div_t_mono(a1: int, a2: int, b: int)
    requires
        a1 <= a2,
        b >= 1,
    ensures
        div_t(a1, b) <= div_t(a2, b),
{
    if a1 >= 0 {
        vstd::arithmetic::div_mod::lemma_div_is_ordered(a1, a2, b);
    } else if a2 < 0 {
        vstd::arithmetic::div_mod::lemma_div_is_ordered(-a2, -a1, b);
    } else {
        vstd::arithmetic::div_mod::lemma_div_pos_is_pos(a2, b);
        vstd::arithmetic::div_mod::lemma_div_pos_is_pos(-a1, b);
    }
}

/// Truncating division of `a` by a positive `b`.
pub fn div_trunc(a: i128, b: i128) -> (r: i128)
    requires
        b > 0,
        a > i128::MIN,
    ensures
        r as int == div_t(a as int, b as int),
        a >= 0 ==> 0 <= r <= a,
        a < 0 ==> a <= r <= 0,
        a >= 0 ==> 0 <= r as int * b as int <= a as int,
        a < 0 ==> a as int <= r as int * b as int <= 0,
        a >= 0 ==> (a as int - b as int) < r as int * b as int,
{
    if a >= 0 {
        let q: u128 = (a as u128) / (b as u128);
        assert(q as int == a as int / b as int);
        assert(a as int / b as int <= a as int && a as int / b as int >= 0 && 0 <= (a as int / b
            as int) * b as int <= a as int && (a as int - b as int) < (a as int / b as int) * b
            as int) by (nonlinear_arith)
            requires
                a as int >= 0,
                b as int >= 1,
        ;
        q as i128
    } else {
        let m: i128 = -a;
        let q: u128 = (m as u128) / (b as u128);
        assert(q as int == m as int / b as int);
        assert(m as int / b as int <= m as int && m as int / b as int >= 0 && 0 <= (m as int / b
            as int) * b as int <= m as int) by (nonlinear_arith)
            requires
                m as int >= 0,
                b as int >= 1,
        ;
        let r: i128 = -(q as i128);
        proof {
            assert(r as int * b as int == -((q as int) * (b as int))) by (nonlinear_arith)
                requires
                    r as int == -(q as int),
            ;
        }
        r
    }
}

/// Fixed-point multiplication: exact product, rescaled with truncation.
pub fn mul_fixed(a: i128, b: i128) -> (r: i128)
    requires
        -FXMAX <= a <= FXMAX,
        -FXMAX <= b <= FXMAX,
    ensures
        r as int == mul_fx(a as int, b as int),
        a * b >= 0 ==> 0 <= r * (SCALE as int) <= a * b,
        a * b < 0 ==> a * b <= r * (SCALE as int) <= 0,
        -MUL_OUT <= r <= MUL_OUT,
{
    proof {
        assert(-(FXMAX as int) * (FXMAX as int) <= a as int * b as int
            <= (FXMAX as int) * (FXMAX as int)) by (nonlinear_arith)
            requires
                -(FXMAX as int) <= a as int <= FXMAX as int,
                -(FXMAX as int) <= b as int <= FXMAX as int,
        ;
    }
    let p: i128 = a * b;
    let r = div_trunc(p, SCALE);
    proof {
        let pi = a as int * b as int;
        let s = SCALE as int;
        if pi >= 0 {
            assert(0 <= (pi / s) * s <= pi) by (nonlinear_arith)
                requires
                    pi >= 0,
                    s == 1_000_000,
            ;
        } else {
            assert(0 <= ((-pi) / s) * s <= -pi) by (nonlinear_arith)
                requires
                    -pi >= 0,
                    s == 1_000_000,
            ;
        }
    }
    r
}

/// The rescaled product of values within `ba` and `bb` keeps, after the
/// rescaling, a product with `SCALE` within `ba * bb`.
pub proof fn lemma_mul_fx_bound(a: int, b: int, ba: int, bb: int)
    requires
        -ba <= a <= ba,
        -bb <= b <= bb,
        0 <= ba,
        0 <= bb,
    ensures
        -(ba * bb) <= mul_fx(a, b) * (SCALE as int) <= ba * bb,
{
    let s = SCALE as int;
    let p = a * b;
    assert(-(ba * bb) <= p <= ba * bb) by (nonlinear_arith)
        requires
            p == a * b,
            -ba <= a <= ba,
            -bb <= b <= bb,
            0 <= ba,
            0 <= bb,
    ;
    if p >= 0 {
        assert(0 <= (p / s) * s <= p) by (nonlinear_arith)
            requires
                p >= 0,
                s >= 1,
        ;
    } else {
        assert(0 <= ((-p) / s) * s <= -p) by (nonlinear_arith)
            requires
                -p >= 0,
                s >= 1,
        ;
        assert((-((-p) / s)) * s == -(((-p) / s) * s)) by (nonlinear_arith);
    }
}

/// Truncated integer square root by binary search.
pub fn isqrt(n: i128) -> (r: i128)
    requires
        0 <= n,
    ensures
        is_sqrt_floor(n as int, r as int),
        r as int == sqrt_fl(n as int),
        0 <= r,
{
    let x: u128 = n as u128;
    let mut lo: u128 = 0;
    let mut hi: u128 = 1u128 << 64;
    proof {
        assert((1u128 << 64) == 0x1_0000_0000_0000_0000u128) by (bit_vector);
        assert((x as int) < (hi as int) * (hi as int)) by (nonlinear_arith)
            requires
                hi as int == 0x1_0000_0000_0000_0000,
                x as int <= i128::MAX as int,
        ;
    }
    while hi - lo > 1
        invariant
            lo < hi,
            hi <= 0x1_0000_0000_0000_0000u128,
            x == n as u128,
            0 <= n,
            (lo as int) * (lo as int) <= x as int,
            (x as int) < (hi as int) * (hi as int),
        decreases hi - lo,
    {
        let mid: u128 = lo + (hi - lo) / 2;
        proof {
            assert(mid as int * mid as int <= u128::MAX as int) by (nonlinear_arith)
                requires
                    0 <= mid as int,
                    (mid as int) < 0x1_0000_0000_0000_0000,
            ;
        }
        if mid * mid <= x {
            lo = mid;
        } else {
            hi = mid;
        }
    }
    proof {
        assert(hi == lo + 1);
        assert(lo as int * lo as int <= i128::MAX as int);
        lemma_sqrt_fl_is(n as int, lo as int);
    }
    lo as i128
}

/// Square root of a non-negative micro-unit quantity, in micro-units.
pub fn sqrt_fixed(v: i128) -> (r: i128)
    requires
        0 <= v <= FXMAX,
    ensures
        r as int == sqrt_fx(v as int),
        is_sqrt_floor(v as int * SCALE as int, r as int),
        0 <= r,
{
    proof {
        assert(v as int * SCALE as int <= i128::MAX as int) by (nonlinear_arith)
            requires
                0 <= v as int <= FXMAX as int,
        ;
    }
    isqrt(v * SCALE)
}

/// The smaller of two scalars.
pub fn min_i(a: i128, b: i128) -> (r: i128)
    ensures
        r == if a <= b { a } else { b },
{
    if a <= b {
        a
    } else {
        b
    }
}

/// The larger of two scalars.
pub fn max_i(a: i128, b: i128) -> (r: i128)
    ensures
        r == if a >= b { a } else { b },
{
    if a >= b {
        a
    } else {
        b
    }
}

/// `v` clamped to the closed interval `[lo, hi]`.
pub open spec fn clamp_s(v: int, lo: int, hi: int) -> int {
    if v < lo {
        lo
    } else if v > hi {
        hi
    } else {
        v
    }
}

/// Clamp a scalar to a closed interval.
pub fn clamp(v: i128, lo: i128, hi: i128) -> (r: i128)
    requires
        lo <= hi,
    ensures
        r as int == clamp_s(v as int, lo as int, hi as int),
        lo <= r <= hi,
{
    if v < lo {
        lo
    } else if v > hi {
        hi
    } else {
        v
    }
}

} // verus!
