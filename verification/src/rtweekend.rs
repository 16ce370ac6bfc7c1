//! Shared constants and the random scalar source.
//!
//! Randomness is drawn from the process-wide generator of the `rand` crate
//! through one trusted wrapper; everything derived from it is verified for
//! every value the wrapper could hand back.

use vstd::prelude::*;

verus! {

use crate::fixed::{SCALE, FXMAX, mul_fx, div_t, div_trunc, mul_fixed};

/// Stand-in for an unbounded ray parameter: one million distance units.
pub const INFINITY: i128 = 1_000_000_000_000;

/// The circle constant in micro-units.
pub const PI: i128 = 3_141_593;

/// Largest angle magnitude (in micro-degrees) accepted by the conversion.
pub const DEG_MAX: i128 = 1_000_000_000_000;

/// Relies on rand::random::<u64>: one draw from the thread-local generator.
/// Nothing can be promised of a random value.
#[verifier::external_body]
fn random_u64() -> (r: u64) {
    rand::random::<u64>()
}

/// A uniformly sampled fixed-point value in `[0, 1)`.
pub fn random_double() -> (r: i128)
    ensures
        0 <= r < SCALE,
{
    let x: u64 = random_u64();
    let m: u64 = x % 1_000_000u64;
    m as i128
}

/// A sampled fixed-point value in `[min, max)` (or `min` itself when the
/// interval is empty).
pub fn random_double_range(min: i128, max: i128) -> (r: i128)
    requires
        min <= max,
        -FXMAX <= min,
        max <= FXMAX,
        max - min <= FXMAX,
    ensures
        min <= r,
        min < max ==> r < max,
        min == max ==> r == min,
        exists|u: int|
            0 <= u < SCALE && r as int == min + #[trigger] mul_fx((max - min) as int, u),
{
    let u: i128 = random_double();
    let d: i128 = max - min;
    let t: i128 = mul_fixed(d, u);
    proof {
        let di = d as int;
        let ui = u as int;
        let s = SCALE as int;
        assert(di * ui >= 0) by (nonlinear_arith)
            requires
                di >= 0,
                ui >= 0,
        ;
        assert(di * ui <= di * (s - 1)) by (nonlinear_arith)
            requires
                di >= 0,
                ui <= s - 1,
        ;
        if di >= 1 {
            assert(di * (s - 1) < di * s) by (nonlinear_arith)
                requires
                    di >= 1,
            ;
        }
    }
    let r: i128 = min + t;
    proof {
        assert(r as int == min as int + mul_fx((max - min) as int, u as int));
    }
    r
}

/// Degrees to radians, both in micro-units.
pub fn degrees_to_radians(degrees: i128) -> (r: i128)
    requires
        -DEG_MAX <= degrees <= DEG_MAX,
    ensures
        r as int == div_t(degrees as int * PI as int, 180 * SCALE as int),
{
    proof {
        assert(-(DEG_MAX as int) * (PI as int) <= degrees as int * PI as int
            <= (DEG_MAX as int) * (PI as int)) by (nonlinear_arith)
            requires
                -(DEG_MAX as int) <= degrees as int <= DEG_MAX as int,
        ;
    }
    let p: i128 = degrees * PI;
    div_trunc(p, 180 * SCALE)
}

} // verus!
