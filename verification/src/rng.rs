//! The random source of a board: the thread-local generator of the `rand`
//! crate. Nothing here is proved; the two functions below state what the
//! rest of the library relies on.
use rand::rngs::ThreadRng;
use rand::Rng;
use vstd::prelude::*;

verus! {

/// `rand::rngs::ThreadRng`, a handle to the generator of the current thread.
/// Its state is not modelled.
#[verifier::external_type_specification]
#[verifier::external_body]
pub struct ExThreadRng(rand::rngs::ThreadRng);

/// Calls `rand::thread_rng` for a handle to the generator of the current
/// thread. Nothing is claimed of the handle. The generator is seeded from
/// the operating system on its first use in a thread, and `rand` panics if
/// that seeding fails.
#[verifier::external_body]
pub(crate) fn thread_generator() -> (rng: ThreadRng) {
    rand::thread_rng()
}

/// Calls `rand::Rng::gen_range` on the range `0..bound`. `rand` panics on an
/// empty range, which `bound > 0` rules out; the value it returns lies in
/// the range, and that is all that is claimed of it: which value comes is
/// left to chance, and two calls may differ.
#[verifier::external_body]
pub(crate) fn pick_below(rng: &mut ThreadRng, bound: usize) -> (picked: usize)
    requires
        bound > 0,
    ensures
        picked < bound,
{
    rng.gen_range(0..bound)
}

} // verus!
