//! Order searches over `f64` values held as bits.

use vstd::prelude::*;
use crate::float_bits::{le, le_bits, lt, lt_bits, total_key, total_order_key};

verus! {

/// The values `< target` are exactly the first `k`.
pub open spec fn below_prefix(vs: Seq<u64>, target: u64, k: int) -> bool {
    &&& 0 <= k <= vs.len()
    &&& forall|i: int| 0 <= i < k ==> #[trigger] lt_bits(vs[i], target)
    &&& forall|i: int| k <= i < vs.len() ==> !#[trigger] lt_bits(vs[i], target)
}

/// The values `<= target` are exactly the first `k`.
pub open spec fn at_most_prefix(vs: Seq<u64>, target: u64, k: int) -> bool {
    &&& 0 <= k <= vs.len()
    &&& forall|i: int| 0 <= i < k ==> #[trigger] le_bits(vs[i], target)
    &&& forall|i: int| k <= i < vs.len() ==> !#[trigger] le_bits(vs[i], target)
}

/// The first index whose value is not `< target` (binary search; on sorted
/// values, the insertion point before equal values).
pub fn lower_bound(values: &[u64], target: u64) -> (k: usize)
    ensures
        k <= values@.len(),
        forall|j: int| below_prefix(values@, target, j) ==> k == j,
{
    let mut left: usize = 0;
    let mut right: usize = values.len();
    while left < right
        invariant
            left <= right <= values@.len(),
            forall|j: int| below_prefix(values@, target, j) ==> left <= j <= right,
        decreases right - left,
    {
        let mid = left + (right - left) / 2;
        if lt(values[mid], target) {
            left = mid + 1;
        } else {
            right = mid;
        }
    }
    left
}

/// The first index whose value is not `<= target` (binary search; on sorted
/// values, the insertion point after equal values).
pub fn upper_bound(values: &[u64], target: u64) -> (k: usize)
    ensures
        k <= values@.len(),
        forall|j: int| at_most_prefix(values@, target, j) ==> k == j,
{
    let mut left: usize = 0;
    let mut right: usize = values.len();
    while left < right
        invariant
            left <= right <= values@.len(),
            forall|j: int| at_most_prefix(values@, target, j) ==> left <= j <= right,
        decreases right - left,
    {
        let mid = left + (right - left) / 2;
        if le(values[mid], target) {
            left = mid + 1;
        } else {
            right = mid;
        }
    }
    left
}

/// `i` holds a value that is largest in `f64::total_cmp` order, and no
/// earlier index does.
pub open spec fn first_max(vs: Seq<u64>, i: int) -> bool {
    &&& 0 <= i < vs.len()
    &&& forall|j: int| 0 <= j < vs.len() ==> total_key(#[trigger] vs[j]) <= total_key(vs[i])
    &&& forall|j: int| 0 <= j < i ==> total_key(#[trigger] vs[j]) < total_key(vs[i])
}

/// The index of the largest value in `f64::total_cmp` order, ties going to
/// the smallest index; 0 for no values.
pub fn argmax_total(values: &[u64]) -> (i: usize)
    ensures
        values@.len() == 0 ==> i == 0,
        values@.len() > 0 ==> first_max(values@, i as int),
{
    if values.len() == 0 {
        return 0;
    }
    let mut best: usize = 0;
    let mut best_key = total_order_key(values[0]);
    let mut j: usize = 1;
    while j < values.len()
        invariant
            1 <= j <= values@.len(),
            best < j,
            best_key == total_key(values@[best as int]),
            forall|q: int| 0 <= q < j ==> total_key(#[trigger] values@[q]) <= best_key,
            forall|q: int| 0 <= q < best ==> total_key(#[trigger] values@[q]) < best_key,
        decreases values@.len() - j,
    {
        let key = total_order_key(values[j]);
        if key > best_key {
            best = j;
            best_key = key;
        }
        j = j + 1;
    }
    best
}

} // verus!
