//! Random sampling, through the `rand` crate.
//!
//! The engine keeps no hidden process-wide randomness: a seedable generator
//! is built once and threaded explicitly through construction (weight
//! sampling) and stepping (noise sampling), so a run is reproducible from
//! its seed. Nothing is assumed of the values drawn beyond their range.

use vstd::prelude::*;
use crate::fixed::SCALE;

verus! {

/// Declares rand's `StdRng` so the generator can stand in fields and
/// signatures; its values are opaque to the proofs.
#[verifier::external_type_specification]
#[verifier::external_body]
pub struct ExStdRng(rand::rngs::StdRng);

/// Relies on rand::SeedableRng::seed_from_u64: builds a generator from a
/// 64-bit seed. Nothing is assumed about the stream it will produce.
#[verifier::external_body]
pub fn rng_from_seed(seed: u64) -> rand::rngs::StdRng {
    <rand::rngs::StdRng as rand::SeedableRng>::seed_from_u64(seed)
}

/// Relies on rand::Rng::gen_range: returns a sample of the given non-empty
/// range, here one real unit's worth of magnitude on either side of zero,
/// the fixed-point image of `[-1, 1)`.
#[verifier::external_body]
pub fn gen_unit(rng: &mut rand::rngs::StdRng) -> (r: i64)
    ensures
        -SCALE <= r < SCALE,
{
    rand::Rng::gen_range(rng, -65536i64..65536i64)
}

/// Draw `n` noise samples, each in the fixed-point image of `[-1, 1)`.
pub fn draw_noise(rng: &mut rand::rngs::StdRng, n: usize) -> (r: Vec<i64>)
    ensures
        r@.len() == n,
        forall|i: int| 0 <= i < n ==> -SCALE <= #[trigger] r@[i] < SCALE,
{
    let mut r: Vec<i64> = Vec::new();
    let mut k: usize = 0;
    while k < n
        invariant
            k <= n,
            r@.len() == k,
            forall|i: int| 0 <= i < k ==> -SCALE <= #[trigger] r@[i] < SCALE,
        decreases n - k,
    {
        r.push(gen_unit(rng));
        k += 1;
    }
    r
}

} // verus!
