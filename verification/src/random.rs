//! The one source of randomness of the game: a seedable `StdRng` of the
//! `rand` crate, and the few draws that the game makes from it.

use vstd::prelude::*;
use rand::rngs::StdRng;
use rand::seq::IndexedRandom;
use rand::RngExt;

verus! {

/// The seedable generator that all randomness of a round flows through.
#[verifier::external_type_specification]
#[verifier::external_body]
pub struct ExStdRng(StdRng);

/// `RngExt::random_ratio`: a `bool` that is `true` with chance
/// `numerator / denominator`.  The crate guarantees `true` when the two are
/// equal and `false` when `numerator` is zero, and panics when
/// `denominator` is zero or below `numerator`; nothing else is known of the
/// outcome.
#[verifier::external_body]
pub(crate) fn random_ratio(rng: &mut StdRng, numerator: u32, denominator: u32) -> (r: bool)
    requires
        0 < denominator,
        numerator <= denominator,
    ensures
        numerator == denominator ==> r,
        numerator == 0 ==> !r,
{
    rng.random_ratio(numerator, denominator)
}

/// `IndexedRandom::choose`: one element of `items`, picked at random;
/// `None` exactly when `items` is empty. Which element comes out is left to
/// the generator.
#[verifier::external_body]
pub(crate) fn pick_one<T: Copy>(rng: &mut StdRng, items: &[T]) -> (r: Option<T>)
    ensures
        r is None <==> items@.len() == 0,
        r matches Some(x) ==> items@.contains(x),
{
    items.choose(rng).copied()
}

/// `idx` picks `r` out of `items`: `r[i]` is `items[idx[i]]`, and no slot is
/// picked twice.
pub open spec fn picked_from<T>(items: Seq<T>, r: Seq<T>, idx: Seq<int>) -> bool {
    &&& idx.len() == r.len()
    &&& forall|i: int| 0 <= i < r.len() ==> 0 <= #[trigger] idx[i] < items.len()
    &&& forall|i: int| 0 <= i < r.len() ==> #[trigger] r[i] == items[idx[i]]
    &&& forall|i: int, j: int| 0 <= i < j < r.len() ==> #[trigger] idx[i] != #[trigger] idx[j]
}

/// What is picked from a list without duplicates, without picking a slot
/// twice, has no duplicates, and every element comes from the list.
pub proof fn lemma_picked<T>(items: Seq<T>, r: Seq<T>, idx: Seq<int>)
    requires
        picked_from(items, r, idx),
        items.no_duplicates(),
    ensures
        r.no_duplicates(),
        forall|i: int| 0 <= i < r.len() ==> items.contains(#[trigger] r[i]),
{
    assert forall|i: int| 0 <= i < r.len() implies items.contains(#[trigger] r[i]) by {
        assert(items[idx[i]] == r[i]);
    }
    assert forall|i: int, j: int| 0 <= i < r.len() && 0 <= j < r.len() && i != j implies r[i]
        != r[j] by {
        if i < j {
            assert(idx[i] != idx[j]);
        } else {
            assert(idx[j] != idx[i]);
        }
        assert(r[i] == items[idx[i]]);
        assert(r[j] == items[idx[j]]);
    }
}

/// `IndexedRandom::sample`: `amount` elements of `items` (all of them if
/// there are fewer), drawn without repetition, in random order. Which ones,
/// and in which order, is left to the generator.
#[verifier::external_body]
pub(crate) fn pick_many<T: Copy>(rng: &mut StdRng, items: &[T], amount: usize) -> (r: Vec<T>)
    ensures
        r@.len() == if amount < items@.len() {
            amount as int
        } else {
            items@.len() as int
        },
        exists|idx: Seq<int>| #[trigger] picked_from(items@, r@, idx),
{
    items.sample(rng, amount).copied().collect()
}

} // verus!
