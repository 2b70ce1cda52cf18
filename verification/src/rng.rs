//! The randomness source: the calls into the `rand` crate.

use rand::rngs::StdRng;
use rand::seq::IteratorRandom;
use rand::Rng;
use vstd::prelude::*;

verus! {

/// `rand::rngs::StdRng`, the generator that all random decisions of a run
/// are drawn from, one after the other.
#[verifier::external_type_specification]
#[verifier::external_body]
pub struct ExStdRng(rand::rngs::StdRng);

/// No two picks are the same.
pub open spec fn distinct(picks: Seq<usize>) -> bool {
    forall|i: int, j: int| 0 <= i < j < picks.len() ==> picks[i] != picks[j]
}

/// Draws a number below `bound` (`Rng::gen_range(0..bound)`).
///
/// Trusted: the number drawn lies in the range asked for. `gen_range`
/// panics on an empty range, so the bound has to be positive.
#[verifier::external_body]
pub(crate) fn draw_below(rng: &mut StdRng, bound: usize) -> (r: usize)
    requires
        bound > 0,
    ensures
        r < bound,
{
    rng.gen_range(0..bound)
}

/// Picks `amount` of the numbers below `len`
/// (`IteratorRandom::choose_multiple` on `0..len`).
///
/// Trusted: the result holds `amount` numbers of the range, each at most
/// once; their order is not specified. `choose_multiple` reserves room for
/// `amount` items first, so `amount` is kept to what a vector of indices
/// can hold.
#[verifier::external_body]
pub(crate) fn choose_indices(rng: &mut StdRng, len: usize, amount: usize) -> (r: Vec<usize>)
    requires
        amount <= len,
        amount * 8 <= isize::MAX,
    ensures
        r@.len() == amount,
        forall|i: int| 0 <= i < r@.len() ==> #[trigger] r@[i] < len,
        distinct(r@),
{
    (0..len).choose_multiple(rng, amount)
}

} // verus!
