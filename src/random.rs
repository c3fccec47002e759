use rand::rngs::StdRng;
use rand::seq::IteratorRandom;
use rand::seq::SliceRandom;
use rand::Rng;
use vstd::prelude::*;

verus! {

/// The random source that every generator draws from.
#[verifier::external_type_specification]
#[verifier::external_body]
pub struct ExStdRng(StdRng);

/// Relies on `IteratorRandom::choose` over a `Range<u32>`: `None` exactly
/// when the range is empty, else one of its elements.
#[verifier::external_body]
pub(crate) fn choose_below(lo: u32, hi: u32, rng: &mut StdRng) -> (r: Option<u32>)
    ensures
        r is Some <==> lo < hi,
        r matches Some(x) ==> lo <= x < hi,
{
    (lo..hi).choose(rng)
}

/// Relies on `SliceRandom::choose`: `None` exactly when the slice is empty,
/// else one of its elements.
#[verifier::external_body]
pub(crate) fn choose_from<T: Copy>(items: &[T], rng: &mut StdRng) -> (r: Option<T>)
    ensures
        r is Some <==> items@.len() > 0,
        r matches Some(x) ==> items@.contains(x),
{
    items.choose(rng).copied()
}

/// Relies on `SliceRandom::shuffle`: the elements are permuted by swaps.
#[verifier::external_body]
pub(crate) fn shuffle(v: &mut Vec<u32>, rng: &mut StdRng)
    ensures
        final(v)@.to_multiset() == old(v)@.to_multiset(),
{
    v.shuffle(rng)
}

/// Relies on `Rng::gen_range` over `lo..=hi`, which panics on an empty range.
#[verifier::external_body]
pub(crate) fn sample_inclusive(lo: u32, hi: u32, rng: &mut StdRng) -> (r: u32)
    requires
        lo <= hi,
    ensures
        lo <= r <= hi,
{
    rng.gen_range(lo..=hi)
}

/// Relies on `Rng::gen_ratio(1, 2)`: a fair coin.
#[verifier::external_body]
pub(crate) fn coin(rng: &mut StdRng) -> bool {
    rng.gen_ratio(1, 2)
}

} // verus!
