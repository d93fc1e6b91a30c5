//! The random generator handle.
//!
//! Randomness is threaded explicitly: every sampling function takes a
//! `&mut rand::rngs::ThreadRng`, so the draws a render makes are visible in
//! the signatures. Nothing is assumed of a draw beyond its range.

use vstd::prelude::*;

verus! {

#[verifier::external_type_specification]
#[verifier::external_body]
pub struct ExThreadRng(rand::rngs::ThreadRng);

/// Relies on `rand::Rng::gen_range` over an `i64` range: the draw lies in the
/// half-open range that was passed. The range is non-empty, so the call does
/// not panic.
#[verifier::external_body]
pub fn rand_in_range(rng: &mut rand::rngs::ThreadRng, lo: i64, hi: i64) -> (r: i64)
    requires
        lo < hi,
    ensures
        lo <= r < hi,
{
    rand::Rng::gen_range(rng, lo..hi)
}

} // verus!
