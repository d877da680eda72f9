//! Randomness capability: uniform draws from the `rand` crate's seedable
//! standard generator, behind trusted declarations. Nothing is assumed of the
//! values drawn beyond the ranges that `rand` documents.

use vstd::prelude::*;
use rand::Rng;
use rand::prelude::SliceRandom;

verus! {

#[verifier::external_type_specification]
#[verifier::external_body]
pub struct ExStdRng(rand::rngs::StdRng);

/// Relies on rand's `Rng::gen_range`: a draw from `lo..hi`, which panics only
/// on an empty range.
#[verifier::external_body]
pub fn rand_range(rng: &mut rand::rngs::StdRng, lo: usize, hi: usize) -> (r: usize)
    requires
        lo < hi,
    ensures
        lo <= r < hi,
{
    rng.gen_range(lo..hi)
}

/// Relies on rand's `Rng::gen` with the `Standard` distribution on `bool`:
/// a fair coin flip; nothing is known of the outcome.
#[verifier::external_body]
pub fn rand_bool(rng: &mut rand::rngs::StdRng) -> (r: bool) {
    rng.gen()
}

/// Relies on rand's `SliceRandom::choose`: `None` exactly on an empty slice,
/// otherwise some element of it.
#[verifier::external_body]
pub fn choose_cell(v: &Vec<(usize, usize)>, rng: &mut rand::rngs::StdRng) -> (r: Option<(
    usize,
    usize,
)>)
    ensures
        match r {
            Some(c) => exists|i: int| 0 <= i < v@.len() && v@[i] == c,
            None => v@.len() == 0,
        },
{
    v.choose(rng).copied()
}

} // verus!
