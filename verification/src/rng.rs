//! The randomness boundary: a seedable generator from the `rand` crate,
//! reached only through the trusted wrappers below. Every wrapper states no
//! more than what holds of every outcome of the call.

use vstd::prelude::*;
use vstd::seq_lib::*;
use rand::Rng;
use rand::SeedableRng;
use rand::seq::SliceRandom;

verus! {

#[verifier::external_type_specification]
#[verifier::external_body]
pub struct ExStdRng(rand::rngs::StdRng);

/// Relies on `rand::SeedableRng::seed_from_u64`: builds a generator from a
/// seed. Nothing is promised of the values it will produce.
#[verifier::external_body]
pub fn seed_rng(seed: u64) -> rand::rngs::StdRng {
    rand::rngs::StdRng::seed_from_u64(seed)
}

/// Relies on `rand::Rng::gen_range`: returns a value in the half-open range,
/// and panics only on an empty range, which the precondition excludes.
#[verifier::external_body]
pub fn rand_index(rng: &mut rand::rngs::StdRng, bound: usize) -> (r: usize)
    requires
        bound >= 1,
    ensures
        r < bound,
{
    rng.gen_range(0..bound)
}

/// Relies on `rand::Rng::gen_range`: returns a value in the half-open range,
/// and panics only on an empty range, which the precondition excludes.
#[verifier::external_body]
pub fn rand_u64_below(rng: &mut rand::rngs::StdRng, bound: u64) -> (r: u64)
    requires
        bound >= 1,
    ensures
        r < bound,
{
    rng.gen_range(0..bound)
}

/// Relies on `rand::seq::SliceRandom::choose`: returns `None` exactly when
/// the slice is empty, and otherwise one of its elements.
#[verifier::external_body]
pub fn pick_one_char(rng: &mut rand::rngs::StdRng, v: &Vec<char>) -> (r: Option<char>)
    ensures
        r is Some <==> v@.len() > 0,
        r is Some ==> v@.contains(r->Some_0),
{
    v.choose(rng).copied()
}

/// Relies on `rand::seq::SliceRandom::shuffle`: permutes the slice in place,
/// so the multiset of its elements is unchanged.
#[verifier::external_body]
pub fn shuffle_names(rng: &mut rand::rngs::StdRng, v: &mut Vec<String>)
    ensures
        final(v)@.to_multiset() == old(v)@.to_multiset(),
        final(v)@.len() == old(v)@.len(),
{
    v.shuffle(rng)
}

} // verus!
