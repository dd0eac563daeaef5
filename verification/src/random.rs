//! The random choices the generator makes, drawn from the `rand` crate.
use vstd::prelude::*;
use rand::seq::SliceRandom;

verus! {

/// The thread-local random number generator of `rand`, carried through opaquely.
#[verifier::external_type_specification]
#[verifier::external_body]
pub struct ExThreadRng(rand::rngs::ThreadRng);

/// Calls `rand::rng()`, a handle to the thread-local generator. Nothing is
/// claimed of the handle; `rand` panics here only if the operating system's
/// random source fails when the thread first seeds its generator.
#[verifier::external_body]
pub(crate) fn thread_rng() -> rand::rngs::ThreadRng {
    rand::rng()
}

/// Calls `SliceRandom::shuffle` on the vector's elements: the order that comes
/// out depends on the generator, so the contract states only that the result
/// is a permutation of the input (same length, same multiset of elements).
#[verifier::external_body]
pub(crate) fn shuffle<T>(v: &mut Vec<T>, rng: &mut rand::rngs::ThreadRng)
    ensures
        final(v)@.len() == old(v)@.len(),
        final(v)@.to_multiset() == old(v)@.to_multiset(),
{
    v.as_mut_slice().shuffle(rng)
}

} // verus!
