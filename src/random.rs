//! The random source threaded through the solvers: a seedable ChaCha20
//! generator, and the draws the solvers make from it.
use rand::seq::SliceRandom;
use rand::Rng;
use rand_chacha::ChaCha20Rng;
use vstd::prelude::*;

verus! {

/// rand_chacha's seedable `ChaCha20Rng`, carried through the solvers as an
/// opaque value.
#[verifier::external_type_specification]
#[verifier::external_body]
pub struct ExChaCha20Rng(ChaCha20Rng);

/// An index drawn uniformly from `0..bound`, which must not be empty.
pub(crate) fn random_below(rng: &mut ChaCha20Rng, bound: usize) -> (r: usize)
    requires
        bound > 0,
    ensures
        r < bound,
{
    let mut indices: Vec<usize> = Vec::new();
    let mut i: usize = 0;
    while i < bound
        invariant
            i <= bound,
            indices@.len() == i,
            forall|t: int| 0 <= t < i ==> #[trigger] indices@[t] == t,
        decreases bound - i,
    {
        indices.push(i);
        i += 1;
    }
    let r = choose_one(&indices, rng);
    proof {
        let t = choose|t: int| 0 <= t < indices@.len() && indices@[t] == r;
    }
    r
}

/// Relies on rand's `SliceRandom::choose`: one element of a non-empty slice.
#[verifier::external_body]
pub(crate) fn choose_one(items: &Vec<usize>, rng: &mut ChaCha20Rng) -> (r: usize)
    requires
        items.len() > 0,
    ensures
        items@.contains(r),
{
    *items.as_slice().choose(rng).unwrap()
}

/// Relies on rand's `Rng::gen_range`: a value of the half-open range
/// `low..high`, which must not be empty.
#[verifier::external_body]
pub(crate) fn random_in(rng: &mut ChaCha20Rng, low: i64, high: i64) -> (r: i64)
    requires
        low < high,
    ensures
        low <= r < high,
{
    rng.gen_range(low..high)
}

} // verus!
