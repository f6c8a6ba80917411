use rand::rngs::ThreadRng;
use rand::seq::SliceRandom;
use rand::Rng;
use vstd::prelude::*;

verus! {

/// `rand::rngs::ThreadRng`, the thread-local generator of `rand`, carried
/// as an opaque value.
#[verifier::external_type_specification]
#[verifier::external_body]
pub struct ExThreadRng(ThreadRng);

/// `rand::thread_rng` hands out the calling thread's generator. Nothing is
/// claimed of the generator it returns. It takes no argument; where the
/// system cannot seed the generator on first use, it does not return.
pub assume_specification[ rand::thread_rng ]() -> (rng: ThreadRng);

/// `Rng::gen_ratio` answers `true` with probability `numer / denom`. Claimed
/// of it: a zero numerator never gives `true`, and a numerator equal to the
/// denominator always does. It panics on a zero denominator and on a
/// numerator above the denominator; the precondition leaves both out.
#[verifier::external_body]
pub(crate) fn gen_ratio(rng: &mut ThreadRng, numer: u32, denom: u32) -> (hit: bool)
    requires
        denom > 0,
        numer <= denom,
    ensures
        numer == 0 ==> !hit,
        numer == denom ==> hit,
{
    rng.gen_ratio(numer, denom)
}

/// `SliceRandom::choose` on a slice picks one of its elements at random.
/// Claimed of it: the answer is `None` exactly when the slice is empty, and
/// otherwise it is an element of the slice.
#[verifier::external_body]
pub(crate) fn pick_one<T: Copy>(rng: &mut ThreadRng, items: &[T]) -> (picked: Option<T>)
    ensures
        picked.is_some() <==> items@.len() > 0,
        picked.is_some() ==> items@.contains(picked.unwrap()),
{
    items.choose(rng).copied()
}

} // verus!
