use rand::seq::IteratorRandom;
use rand::Rng;
use vstd::prelude::*;

verus! {

/// Relies on `rand::Rng::gen_range` (rand 0.8) on the generator of `rand::thread_rng`:
/// the value is drawn from `0..bound`. The call panics on an empty range, which
/// `requires` leaves out.
#[verifier::external_body]
pub(crate) fn random_below(bound: u64) -> (r: u64)
    requires
        bound > 0,
    ensures
        r < bound,
{
    rand::thread_rng().gen_range(0..bound)
}

/// Relies on `rand::seq::IteratorRandom::choose` (rand 0.8) over the range `0..n`,
/// with the generator of `rand::thread_rng`: `None` for an empty range, else one of
/// its items.
#[verifier::external_body]
pub(crate) fn choose_in_range(n: usize) -> (r: Option<usize>)
    ensures
        n == 0 ==> r is None,
        n > 0 ==> r is Some && r->0 < n,
{
    (0..n).choose(&mut rand::thread_rng())
}

} // verus!
