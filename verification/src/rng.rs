//! Random choices made with the `rand` crate.
use vstd::prelude::*;
use rand::seq::SliceRandom;
use rand::Rng;

verus! {

/// The thread-local random number generator of `rand`.
#[verifier::external_type_specification]
#[verifier::external_body]
pub struct ExThreadRng(rand::rngs::ThreadRng);

/// Calls `rand::seq::SliceRandom::choose`: `None` on an empty slice,
/// otherwise one of its elements, picked at random. The contract says only
/// that the result is an element of the slice; which one depends on the
/// generator's state.
#[verifier::external_body]
pub(crate) fn choose_item<T: Copy>(items: &[T], rng: &mut rand::rngs::ThreadRng) -> (r: Option<T>)
    ensures
        r is None <==> items@.len() == 0,
        r matches Some(x) ==> items@.contains(x),
{
    items.choose(rng).copied()
}

/// Calls `rand::Rng::gen_range` on the inclusive range `lo..=hi`, which
/// must not be empty: a value of the range, picked at random.
#[verifier::external_body]
pub(crate) fn gen_range_inclusive(rng: &mut rand::rngs::ThreadRng, lo: usize, hi: usize) -> (r: usize)
    requires
        lo <= hi,
    ensures
        lo <= r <= hi,
{
    rng.gen_range(lo..=hi)
}

/// Calls `rand::seq::index::sample`: `amount` distinct indices below
/// `length`, in random order. The contract says how many there are, that
/// they are distinct and that each is below `length`; which ones depends on
/// the generator's state.
#[verifier::external_body]
pub(crate) fn sample_indices(
    rng: &mut rand::rngs::ThreadRng,
    length: usize,
    amount: usize,
) -> (r: Vec<usize>)
    requires
        amount <= length,
    ensures
        r@.len() == amount,
        forall|i: int| 0 <= i < r@.len() ==> r@[i] < length,
        forall|i: int, j: int| 0 <= i < j < r@.len() ==> r@[i] != r@[j],
{
    rand::seq::index::sample(rng, length, amount).into_vec()
}

} // verus!
