use rand::seq::SliceRandom;
use rand::Rng;
use vstd::prelude::*;
use crate::domain::stop::Stop;

verus! {

/// The random number generator of `rand` that can be seeded, so that a run
/// can be repeated.
#[verifier::external_type_specification]
#[verifier::external_body]
pub struct ExStdRng(rand::rngs::StdRng);

/// `rand::seq::SliceRandom::choose` on `candidates`, with the generator
/// that `rand::thread_rng` gives. It is trusted to return nothing for an
/// empty slice and otherwise one of the slice's elements; which one is
/// left open.
#[verifier::external_body]
pub(crate) fn choose_stop(candidates: &[Stop]) -> (chosen: Option<Stop>)
    ensures
        match chosen {
            Some(stop) => candidates@.contains(stop),
            None => candidates@.len() == 0,
        },
{
    candidates.choose(&mut rand::thread_rng()).copied()
}

/// `rand::Rng::gen_range` on the inclusive range from `min` to `max`, which
/// must not be empty. It is trusted to return a number of that range;
/// which one is left open.
#[verifier::external_body]
pub(crate) fn random_in_range(min: usize, max: usize, rng: &mut rand::rngs::StdRng) -> (value: usize)
    requires
        min <= max,
    ensures
        min <= value <= max,
{
    rng.gen_range(min..=max)
}

} // verus!
