use vstd::prelude::*;

verus! {

/// Relies on `rand::seq::index::sample`, driven by the thread-local generator
/// of `rand::thread_rng`: it returns exactly `amount` distinct indices taken
/// from `0..length`, and panics when `amount > length`.
#[verifier::external_body]
pub(crate) fn sample_indices(length: usize, amount: usize) -> (r: Vec<usize>)
    requires
        amount <= length,
    ensures
        r@.len() == amount,
        r@.no_duplicates(),
        forall|i: int| 0 <= i < r@.len() ==> r@[i] < length,
{
    let mut rng = rand::thread_rng();
    rand::seq::index::sample(&mut rng, length, amount).into_vec()
}

} // verus!
