//! Fixed-point arithmetic in thousandths, and the bounds that keep every
//! computation of the library inside machine integers.

use vstd::prelude::*;

verus! {

/// One whole unit in fixed-point thousandths: `SCALE` stands for `1.0`.
pub const SCALE: i64 = 1000;

/// Largest magnitude a connection weight may take (one billion whole units).
pub const WEIGHT_LIMIT: i64 = 1_000_000_000_000;

/// Largest fitness score a genome may be assigned.
pub const FITNESS_LIMIT: i64 = 1_000_000_000_000;

/// Largest magnitude of the distance coefficients `c1`, `c2`, `c3`.
pub const COEFF_LIMIT: i64 = 100_000_000;

/// Largest configured population size.
pub const POPULATION_LIMIT: usize = 1_000_000;

/// Largest configured number of species.
pub const SPECIES_LIMIT: usize = 1_000_000;

/// Largest player list an evaluator ever holds: one full population plus one
/// elite per surviving species.
pub const ROSTER_LIMIT: usize = 2_000_000;

/// Magnitude of an integer.
pub open spec fn abs_int(x: int) -> int {
    if x >= 0 {
        x
    } else {
        -x
    }
}

/// `w` scaled by the factor `v` (both in thousandths), rounded toward zero
/// and saturated at `WEIGHT_LIMIT`.
pub open spec fn scale_by_milli(w: int, v: int) -> int {
    let mag = (abs_int(w) * abs_int(v)) / (SCALE as int);
    let m = if mag > WEIGHT_LIMIT as int {
        WEIGHT_LIMIT as int
    } else {
        mag
    };
    if (w >= 0) == (v >= 0) {
        m
    } else {
        -m
    }
}

/// Multiplies a weight by a fixed-point factor, rounding toward zero and
/// saturating at the weight bound.
pub fn scale_weight(w: i64, v: i64) -> (r: i64)
    requires
        -WEIGHT_LIMIT <= w <= WEIGHT_LIMIT,
        -(6 * SCALE) <= v <= 6 * SCALE,
    ensures
        r == scale_by_milli(w as int, v as int),
        -WEIGHT_LIMIT <= r <= WEIGHT_LIMIT,
{
    let aw: i64 = if w >= 0 {
        w
    } else {
        -w
    };
    let av: i64 = if v >= 0 {
        v
    } else {
        -v
    };
    let wm: u128 = aw as u128;
    let vm: u128 = av as u128;
    assert(wm * vm <= 6_000_000_000_000_000) by (nonlinear_arith)
        requires
            wm <= 1_000_000_000_000,
            vm <= 6000,
    ;
    let mag: u128 = wm * vm / (SCALE as u128);
    let mag: u128 = if mag > WEIGHT_LIMIT as u128 {
        WEIGHT_LIMIT as u128
    } else {
        mag
    };
    let m: i64 = mag as i64;
    if (w >= 0) == (v >= 0) {
        m
    } else {
        -m
    }
}

} // verus!
