//! The two places where chance enters: the order of the first row of a
//! generated grid, and the choice among the candidates of a guessed cell.

use rand::Rng;
use vstd::prelude::*;

verus! {

/// Calls `gen_range(0, high)` on rand's thread-local generator. Of the
/// result only the range is claimed: it lies below `high`. The call panics
/// unless the range is non-empty, hence the precondition.
#[verifier::external_body]
pub(crate) fn random_below(high: u8) -> (r: u8)
    requires
        high > 0,
    ensures
        r < high,
{
    rand::thread_rng().gen_range(0, high)
}

/// Calls `shuffle` on rand's thread-local generator, which swaps elements
/// of the slice in place. Of the result only this is claimed: it holds the
/// same values as before, each as often as before.
#[verifier::external_body]
pub(crate) fn shuffle_digits(perm: &mut [u8; 9])
    ensures
        final(perm)@.to_multiset() == old(perm)@.to_multiset(),
{
    rand::thread_rng().shuffle(perm)
}

} // verus!
