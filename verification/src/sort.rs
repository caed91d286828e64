use vstd::prelude::*;
use itertools::Itertools;

verus! {

/// Sorts `(key, id)` pairs by decreasing key with `itertools::Itertools::sorted_by_key`
/// under `std::cmp::Reverse`. The crate documents the sort as stable (it calls
/// `slice::sort_by_key`): the result is a permutation of the input, ordered by
/// decreasing key, and pairs with equal keys keep their input order, which for
/// ids increasing in the input means increasing ids.
#[verifier::external_body]
pub(crate) fn sorted_by_key_desc(items: Vec<(usize, usize)>) -> (r: Vec<(usize, usize)>)
    ensures
        r@.to_multiset() == items@.to_multiset(),
        forall|i: int, j: int| 0 <= i < j < r@.len() ==> #[trigger] r@[i].0 >= #[trigger] r@[j].0,
        (forall|i: int, j: int| 0 <= i < j < items@.len() ==> #[trigger] items@[i].1 < #[trigger] items@[j].1) ==> (
        forall|i: int, j: int|
            0 <= i < j < r@.len() && #[trigger] r@[i].0 == #[trigger] r@[j].0 ==> r@[i].1 < r@[j].1),
{
    items.into_iter().sorted_by_key(|p| std::cmp::Reverse(p.0)).collect()
}

} // verus!
