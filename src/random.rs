use vstd::prelude::*;
use rand::rngs::StdRng;
use rand::seq::SliceRandom;

verus! {

/// The random source of the engine: rand's seedable standard generator.
#[verifier::external_type_specification]
#[verifier::external_body]
pub struct ExStdRng(rand::rngs::StdRng);

/// Relies on rand's `SliceRandom::shuffle`: it only swaps elements, so the
/// result is a permutation of the input.
#[verifier::external_body]
pub(crate) fn shuffle_in_place<T>(rng: &mut StdRng, v: &mut Vec<T>)
    ensures
        final(v)@.len() == old(v)@.len(),
        final(v)@.to_multiset() == old(v)@.to_multiset(),
{
    v.as_mut_slice().shuffle(rng);
}

/// Relies on rand's `SliceRandom::choose`: `None` exactly on an empty
/// slice, otherwise a reference to one of its elements.
#[verifier::external_body]
pub(crate) fn pick<'a, T>(rng: &mut StdRng, v: &'a Vec<T>) -> (r: Option<&'a T>)
    ensures
        r.is_some() <==> v@.len() > 0,
        r.is_some() ==> v@.contains(*r.unwrap()),
{
    v.as_slice().choose(rng)
}

} // verus!
