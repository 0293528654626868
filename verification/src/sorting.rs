//! Sorting `u64` keys ascending.

use vstd::prelude::*;
use vstd::relations::{sorted_by, total_ordering};

verus! {

/// Ascending order on `u64`.
pub open spec fn u64_leq() -> spec_fn(u64, u64) -> bool {
    |x: u64, y: u64| x <= y
}

/// `<[u64]>::sort_unstable`: as its documentation states, the slice ends up
/// in ascending order and holds the same values as before.
#[verifier::external_body]
fn std_sort_u64(v: &mut Vec<u64>)
    ensures
        sorted_by(final(v)@, u64_leq()),
        final(v)@.to_multiset() == old(v)@.to_multiset(),
{
    v.sort_unstable();
}

pub proof fn lemma_u64_leq_total()
    ensures
        total_ordering(u64_leq()),
{
}

/// Two ascending sequences with the same values are the same sequence.
pub proof fn lemma_sorted_unique(a: Seq<u64>, b: Seq<u64>)
    requires
        sorted_by(a, u64_leq()),
        sorted_by(b, u64_leq()),
        a.to_multiset() == b.to_multiset(),
    ensures
        a == b,
    decreases a.len(),
{
    broadcast use vstd::seq_lib::group_to_multiset_ensures;

    assert(a.len() == a.to_multiset().len());
    assert(b.len() == b.to_multiset().len());
    if a.len() == 0 {
        assert(a =~= b);
    } else {
        // each first element is the least of the common values
        assert(a.to_multiset().count(a[0]) > 0);
        assert(b.contains(a[0]));
        let j = choose|j: int| 0 <= j < b.len() && b[j] == a[0];
        if j > 0 {
            assert(u64_leq()(b[0], b[j]));
        }
        assert(b[0] <= a[0]);
        assert(b.to_multiset().count(b[0]) > 0);
        assert(a.contains(b[0]));
        let i = choose|i: int| 0 <= i < a.len() && a[i] == b[0];
        if i > 0 {
            assert(u64_leq()(a[0], a[i]));
        }
        assert(a[0] == b[0]);
        let ra = a.remove(0);
        let rb = b.remove(0);
        assert(ra.to_multiset() =~= a.to_multiset().remove(a[0]));
        assert(rb.to_multiset() =~= b.to_multiset().remove(b[0]));
        assert(sorted_by(ra, u64_leq())) by {
            assert forall|x: int, y: int| 0 <= x < y < ra.len() implies #[trigger] u64_leq()(
                ra[x],
                ra[y],
            ) by {
                assert(u64_leq()(a[x + 1], a[y + 1]));
            }
        }
        assert(sorted_by(rb, u64_leq())) by {
            assert forall|x: int, y: int| 0 <= x < y < rb.len() implies #[trigger] u64_leq()(
                rb[x],
                rb[y],
            ) by {
                assert(u64_leq()(b[x + 1], b[y + 1]));
            }
        }
        lemma_sorted_unique(ra, rb);
        assert(a =~= seq![a[0]] + ra);
        assert(b =~= seq![b[0]] + rb);
    }
}

/// Sorts ascending: the result is the sorted arrangement of the input.
pub fn sort_ascending(v: &mut Vec<u64>)
    ensures
        final(v)@ == old(v)@.sort_by(u64_leq()),
{
    let ghost before = v@;
    std_sort_u64(v);
    proof {
        lemma_u64_leq_total();
        before.lemma_sort_by_ensures(u64_leq());
        lemma_sorted_unique(v@, before.sort_by(u64_leq()));
    }
}

} // verus!
