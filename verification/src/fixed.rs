//! Fixed-point scalar arithmetic.
//!
//! A scalar is an `i64` holding a real value scaled by `SCALE` (16 fractional
//! bits). Every operation clamps its result into `[-BOUND, BOUND]`, so a
//! well-formed scalar always satisfies `in_range` and no operation overflows.

use vstd::prelude::*;

verus! {

/// One real unit: 1.0 is stored as `SCALE`.
pub const SCALE: i64 = 65536;

/// Largest representable magnitude (2^31). Chosen so that the product of two
/// in-range scalars always fits in an `i64`.
pub const BOUND: i64 = 2147483648;

pub const NEG_BOUND: i64 = -2147483648;

/// A well-formed scalar lies in `[-BOUND, BOUND]`.
pub open spec fn in_range(x: i64) -> bool {
    NEG_BOUND <= x <= BOUND
}

/// Every element of the sequence is a well-formed scalar.
pub open spec fn seq_in_range(s: Seq<i64>) -> bool {
    forall|i: int| 0 <= i < s.len() ==> in_range(#[trigger] s[i])
}

/// Clamp a mathematical integer into the representable range.
pub open spec fn clamp(x: int) -> i64 {
    if x > BOUND {
        BOUND
    } else if x < NEG_BOUND {
        NEG_BOUND
    } else {
        x as i64
    }
}

pub proof fn lemma_clamp_in_range(x: int)
    ensures
        in_range(clamp(x)),
{
}

/// Saturating addition of two scalars.
pub open spec fn spec_sat_add(a: i64, b: i64) -> i64 {
    clamp(a + b)
}

pub fn sat_add(a: i64, b: i64) -> (r: i64)
    requires
        in_range(a),
        in_range(b),
    ensures
        r == spec_sat_add(a, b),
        in_range(r),
{
    let s: i64 = a + b;
    if s > BOUND {
        BOUND
    } else if s < NEG_BOUND {
        NEG_BOUND
    } else {
        s
    }
}

/// Truncating division of a product by `SCALE` (rounds toward zero, as the
/// scaling step of a fixed-point multiplication).
pub open spec fn tdiv_scale(p: int) -> int {
    if p >= 0 {
        p / (SCALE as int)
    } else {
        -((-p) / (SCALE as int))
    }
}

/// Saturating fixed-point multiplication: the product of the real values,
/// rescaled and clamped.
pub open spec fn spec_fx_mul(a: i64, b: i64) -> i64 {
    clamp(tdiv_scale(a * b))
}

pub fn fx_mul(a: i64, b: i64) -> (r: i64)
    requires
        in_range(a),
        in_range(b),
    ensures
        r == spec_fx_mul(a, b),
        in_range(r),
{
    proof {
        assert(a * b <= 0x4000000000000000 && a * b >= -0x4000000000000000) by (nonlinear_arith)
            requires
                -2147483648 <= a <= 2147483648,
                -2147483648 <= b <= 2147483648,
        ;
    }
    let p: i64 = a * b;
    if p >= 0 {
        let q: u64 = (p as u64) / 65536u64;
        let qi: i64 = q as i64;
        if qi > BOUND {
            BOUND
        } else {
            qi
        }
    } else {
        let m: u64 = ((-p) as u64) / 65536u64;
        let mi: i64 = m as i64;
        if mi > BOUND {
            NEG_BOUND
        } else {
            proof {
                assert(tdiv_scale(a * b) == -(mi as int));
            }
            -mi
        }
    }
}

/// Rectification: the non-negative part of a scalar.
pub open spec fn spec_relu(x: i64) -> i64 {
    if x < 0 {
        0
    } else {
        x
    }
}

pub fn relu(x: i64) -> (r: i64)
    ensures
        r == spec_relu(x),
{
    if x < 0 {
        0
    } else {
        x
    }
}

} // verus!
