//! Bin tables: per-feature ascending boundaries, and the binned matrix.
//!
//! A non-missing value `x` falls into bin `partition_point(b < x)`, the number
//! of boundaries below it: a boundary is the inclusive upper end of its bin,
//! which agrees with the tree rule `x <= threshold`. Missing values get
//! `MISSING_BIN`. Boundaries are `f64` bit patterns.

use vstd::prelude::*;
use crate::float_bits::{
    from_total_order_key, is_nan_bits, key_inverse, le, le_bits, lemma_key_inverse,
    lemma_lt_not_le, lemma_order_trans, lt, lt_bits, total_key, total_order_key,
};
use crate::sorting::{sort_ascending, u64_leq};
use crate::data::{missing_spec, FeatureColumns, FeatureColumnsView};

verus! {

/// Default upper bound on the number of non-missing bins.
pub const DEFAULT_MAX_BINS: usize = 255;

/// The bin id reserved for missing values.
pub const MISSING_BIN: u16 = 0xffff;

/// The most boundaries a feature can have: its bins `0..=len` must all be
/// `u16` ids other than `MISSING_BIN`.
pub const MAX_FEATURE_BOUNDARIES: usize = 65534;

/// Errors of bin table construction.
#[derive(Debug, Clone, Copy, PartialEq, Eq, Structural)]
pub enum BinningError {
    /// A feature has more than `max_bins - 1` boundaries, or more than
    /// `MAX_FEATURE_BOUNDARIES`.
    TooManyBoundaries { feature: usize, got: usize, max_bins: usize },
    /// A feature's boundaries are not strictly ascending.
    BoundariesNotSorted { feature: usize },
}

/// `max_bins.saturating_sub(1)`.
pub open spec fn boundary_limit(max_bins: nat) -> nat {
    if max_bins == 0 {
        0
    } else {
        (max_bins - 1) as nat
    }
}

/// How many boundaries a table with `max_bins` admits per feature.
pub open spec fn table_limit(max_bins: nat) -> nat {
    if boundary_limit(max_bins) <= MAX_FEATURE_BOUNDARIES {
        boundary_limit(max_bins)
    } else {
        MAX_FEATURE_BOUNDARIES as nat
    }
}

/// No adjacent pair `(a, b)` has `a >= b`.
pub open spec fn strictly_ascending(b: Seq<u64>) -> bool {
    forall|i: int| 0 <= i < b.len() - 1 ==> !#[trigger] le_bits(b[i + 1], b[i])
}

/// The first problem of features `f..` of a boundary list, if any.
pub open spec fn first_table_issue(max_bins: nat, bs: Seq<Seq<u64>>, f: int) -> Option<
    BinningError,
>
    decreases bs.len() - f,
{
    if f < 0 || f >= bs.len() {
        None
    } else if bs[f].len() > table_limit(max_bins) {
        Some(
            BinningError::TooManyBoundaries {
                feature: f as usize,
                got: bs[f].len() as usize,
                max_bins: max_bins as usize,
            },
        )
    } else if !strictly_ascending(bs[f]) {
        Some(BinningError::BoundariesNotSorted { feature: f as usize })
    } else {
        first_table_issue(max_bins, bs, f + 1)
    }
}

/// A boundary list that a bin table accepts.
pub open spec fn table_valid(max_bins: nat, bs: Seq<Seq<u64>>) -> bool {
    forall|f: int|
        0 <= f < bs.len() ==> #[trigger] bs[f].len() <= table_limit(max_bins)
            && strictly_ascending(bs[f])
}

/// No issue from feature `f` on means every feature from `f` on is valid.
pub proof fn lemma_first_table_issue(max_bins: nat, bs: Seq<Seq<u64>>, f: int)
    requires
        0 <= f <= bs.len(),
    ensures
        first_table_issue(max_bins, bs, f) is None <==> forall|g: int|
            f <= g < bs.len() ==> #[trigger] bs[g].len() <= table_limit(max_bins)
                && strictly_ascending(bs[g]),
    decreases bs.len() - f,
{
    if f < bs.len() {
        lemma_first_table_issue(max_bins, bs, f + 1);
    }
}

/// The contents of nested vectors.
pub open spec fn nested_view(v: &Vec<Vec<u64>>) -> Seq<Seq<u64>> {
    v@.map_values(|x: Vec<u64>| x@)
}

/// The contents of a bin table.
pub struct BinTableView {
    pub max_bins: nat,
    pub boundaries: Seq<Seq<u64>>,
}

/// Per-feature ascending boundaries.
#[derive(Debug)]
pub struct BinTable {
    max_bins: usize,
    boundaries: Vec<Vec<u64>>,
}

impl View for BinTable {
    type V = BinTableView;

    closed spec fn view(&self) -> BinTableView {
        BinTableView { max_bins: self.max_bins as nat, boundaries: nested_view(&self.boundaries) }
    }
}

/// Whether adjacent boundaries are strictly ascending.
fn check_sorted(b: &Vec<u64>) -> (r: bool)
    ensures
        r == strictly_ascending(b@),
{
    if b.len() < 2 {
        return true;
    }
    let mut i: usize = 0;
    while i < b.len() - 1
        invariant
            b@.len() >= 2,
            i <= b@.len() - 1,
            forall|j: int| 0 <= j < i && j < b@.len() - 1 ==> !#[trigger] le_bits(b@[j + 1], b@[j]),
        decreases b@.len() - i,
    {
        if le(b[i + 1], b[i]) {
            return false;
        }
        i = i + 1;
    }
    true
}

impl BinTable {
    #[verifier::type_invariant]
    spec fn inv(self) -> bool {
        table_valid(self.max_bins as nat, nested_view(&self.boundaries))
    }

    /// Builds a table from checked boundaries: each feature must have at most
    /// `max_bins - 1` (and at most `MAX_FEATURE_BOUNDARIES`) strictly
    /// ascending boundaries. The first offending
    /// feature is reported.
    pub fn new(boundaries: Vec<Vec<u64>>, max_bins: usize) -> (res: Result<BinTable, BinningError>)
        ensures
            match first_table_issue(max_bins as nat, nested_view(&boundaries), 0) {
                Some(e) => res == Err::<BinTable, BinningError>(e),
                None => res matches Ok(t) && t@ == (BinTableView {
                    max_bins: max_bins as nat,
                    boundaries: nested_view(&boundaries),
                }),
            },
            res is Ok ==> table_valid(max_bins as nat, nested_view(&boundaries)),
    {
        let ghost bs = nested_view(&boundaries);
        let limit: usize = if max_bins == 0 {
            0
        } else if max_bins - 1 <= MAX_FEATURE_BOUNDARIES {
            max_bins - 1
        } else {
            MAX_FEATURE_BOUNDARIES
        };
        let mut f: usize = 0;
        while f < boundaries.len()
            invariant
                f <= boundaries@.len(),
                bs == nested_view(&boundaries),
                limit == table_limit(max_bins as nat),
                first_table_issue(max_bins as nat, bs, 0) == first_table_issue(
                    max_bins as nat,
                    bs,
                    f as int,
                ),
                forall|g: int|
                    0 <= g < f ==> #[trigger] bs[g].len() <= table_limit(max_bins as nat)
                        && strictly_ascending(bs[g]),
            decreases boundaries@.len() - f,
        {
            assert(bs[f as int] == boundaries@[f as int]@);
            if boundaries[f].len() > limit {
                return Err(
                    BinningError::TooManyBoundaries {
                        feature: f,
                        got: boundaries[f].len(),
                        max_bins,
                    },
                );
            }
            if !check_sorted(&boundaries[f]) {
                return Err(BinningError::BoundariesNotSorted { feature: f });
            }
            f = f + 1;
        }
        proof {
            lemma_first_table_issue(max_bins as nat, bs, 0);
        }
        Ok(BinTable { max_bins, boundaries })
    }

    /// Number of features.
    pub fn num_features(&self) -> (n: usize)
        ensures
            n == self@.boundaries.len(),
    {
        self.boundaries.len()
    }

    /// Upper bound on non-missing bins.
    pub fn max_bins(&self) -> (n: usize)
        ensures
            n == self@.max_bins,
    {
        self.max_bins
    }

    /// Ascending boundaries of a feature (possibly empty).
    pub fn boundaries(&self, feature: usize) -> (r: &Vec<u64>)
        requires
            feature < self@.boundaries.len(),
        ensures
            r@ == self@.boundaries[feature as int],
    {
        &self.boundaries[feature]
    }

    /// Number of non-missing bins of a feature: boundaries plus one.
    pub fn num_bins(&self, feature: usize) -> (n: usize)
        requires
            feature < self@.boundaries.len(),
        ensures
            n == self@.boundaries[feature as int].len() + 1,
    {
        proof {
            use_type_invariant(self);
        }
        let b = &self.boundaries[feature];
        assert(b@ == self@.boundaries[feature as int]);
        b.len() + 1
    }

    /// The bin id of missing values.
    pub fn missing_bin(&self) -> (b: u16)
        ensures
            b == MISSING_BIN,
    {
        MISSING_BIN
    }
}

// -- quantile boundaries -------------------------------------------------------------

/// The values in `f64::total_cmp` order.
pub open spec fn sorted_by_total(values: Seq<u64>) -> Seq<u64> {
    values.map_values(|b: u64| total_key(b)).sort_by(u64_leq()).map_values(|k: u64| key_inverse(k))
}

/// The sorted position read for quantile `k` of `max_bins`, among `n` values.
pub open spec fn quantile_index(k: int, n: int, max_bins: int) -> int {
    if k * n / max_bins < n - 1 {
        k * n / max_bins
    } else {
        n - 1
    }
}

/// Boundaries from quantiles `1..=k` of the sorted values: each quantile value
/// is kept when it lies above the last one kept.
pub open spec fn quantile_picks(sorted: Seq<u64>, max_bins: nat, k: nat) -> Seq<u64>
    decreases k,
{
    if k == 0 {
        Seq::empty()
    } else {
        let prev = quantile_picks(sorted, max_bins, (k - 1) as nat);
        let v = sorted[quantile_index(k as int, sorted.len() as int, max_bins as int)];
        if prev.len() == 0 || lt_bits(prev.last(), v) {
            prev.push(v)
        } else {
            prev
        }
    }
}

/// The equal-frequency boundaries of `values` for `max_bins` bins.
pub open spec fn quantile_boundaries(values: Seq<u64>, max_bins: nat) -> Seq<u64> {
    if values.len() == 0 {
        Seq::empty()
    } else {
        quantile_picks(sorted_by_total(values), max_bins, boundary_limit(max_bins))
    }
}

/// Each adjacent pair is strictly ascending.
pub open spec fn adjacent_lt(b: Seq<u64>) -> bool {
    forall|i: int| 0 <= i < b.len() - 1 ==> #[trigger] lt_bits(b[i], b[i + 1])
}

/// Equal-frequency boundaries: sort the values in `f64::total_cmp` order,
/// read quantile `k * n / max_bins` for `k` in `1..max_bins`, and keep each
/// one that lies strictly above the previous kept one. The result is
/// strictly ascending, has at most `max_bins - 1` entries, and every entry is
/// one of the input values.
pub fn compute_quantile_boundaries(values: &[u64], max_bins: usize) -> (r: Vec<u64>)
    ensures
        r@ == quantile_boundaries(values@, max_bins as nat),
        r@.len() <= boundary_limit(max_bins as nat),
        adjacent_lt(r@),
        forall|i: int| 0 <= i < r@.len() ==> values@.contains(#[trigger] r@[i]),
{
    let n = values.len();
    if n == 0 {
        return Vec::new();
    }
    let ghost keys_spec = values@.map_values(|b: u64| total_key(b));
    let mut keys: Vec<u64> = Vec::new();
    let mut i: usize = 0;
    while i < n
        invariant
            n == values@.len(),
            i <= n,
            keys@ == values@.subrange(0, i as int).map_values(|b: u64| total_key(b)),
        decreases n - i,
    {
        keys.push(total_order_key(values[i]));
        assert(values@.subrange(0, i + 1) =~= values@.subrange(0, i as int).push(values@[i as int]));
        assert(keys@ =~= values@.subrange(0, i + 1).map_values(|b: u64| total_key(b)));
        i = i + 1;
    }
    assert(values@.subrange(0, n as int) =~= values@);
    let ghost unsorted = keys@;
    sort_ascending(&mut keys);
    let ghost sorted = sorted_by_total(values@);
    proof {
        crate::sorting::lemma_u64_leq_total();
        unsorted.lemma_sort_by_ensures(u64_leq());
        assert(keys@.len() == n) by {
            broadcast use vstd::seq_lib::group_to_multiset_ensures;
            assert(keys@.len() == keys@.to_multiset().len());
            assert(unsorted.len() == unsorted.to_multiset().len());
        }
    }
    let max_b: usize = if max_bins == 0 {
        0
    } else {
        max_bins - 1
    };
    let mut out: Vec<u64> = Vec::new();
    let mut k: usize = 1;
    while k <= max_b
        invariant
            n == values@.len(),
            n > 0,
            keys@.len() == n,
            sorted == keys@.map_values(|k: u64| key_inverse(k)),
            keys@.to_multiset() == unsorted.to_multiset(),
            unsorted == values@.map_values(|b: u64| total_key(b)),
            max_b == boundary_limit(max_bins as nat),
            1 <= k <= max_b + 1,
            out@ == quantile_picks(sorted, max_bins as nat, (k - 1) as nat),
            out@.len() <= k - 1,
            adjacent_lt(out@),
            forall|j: int| 0 <= j < out@.len() ==> values@.contains(#[trigger] out@[j]),
        decreases max_b + 1 - k,
    {
        assert((k as u128) * (n as u128) <= u128::MAX) by (nonlinear_arith)
            requires
                k <= usize::MAX,
                n <= usize::MAX,
                usize::MAX <= u64::MAX,
        ;
        let prod: u128 = (k as u128) * (n as u128);
        assert(prod == k * n);
        let q: u128 = prod / (max_bins as u128);
        let last: u128 = (n as u128) - 1;
        let p: usize = if q < last {
            q as usize
        } else {
            last as usize
        };
        assert(p == quantile_index(k as int, n as int, max_bins as int));
        let v = from_total_order_key(keys[p]);
        proof {
            assert(v == sorted[p as int]);
            broadcast use vstd::seq_lib::group_to_multiset_ensures;
            assert(keys@.contains(keys@[p as int]));
            assert(unsorted.to_multiset().count(keys@[p as int]) > 0);
            assert(unsorted.contains(keys@[p as int]));
            let w = choose|w: int| 0 <= w < unsorted.len() && unsorted[w] == keys@[p as int];
            lemma_key_inverse(values@[w]);
            assert(values@[w] == v);
        }
        let keep = match out.last() {
            None => true,
            Some(prev) => lt(*prev, v),
        };
        if keep {
            out.push(v);
        }
        proof {
            assert(sorted.len() == n);
            assert(out@ =~= quantile_picks(sorted, max_bins as nat, k as nat));
        }
        k = k + 1;
    }
    out
}

// -- laws of the boundaries ---------------------------------------------------------

/// Sequences with the same values still have the same values after a map.
proof fn lemma_map_same_values(a: Seq<u64>, b: Seq<u64>, f: spec_fn(u64) -> u64)
    requires
        a.to_multiset() == b.to_multiset(),
    ensures
        a.map_values(f).to_multiset() == b.map_values(f).to_multiset(),
    decreases a.len(),
{
    broadcast use vstd::seq_lib::group_to_multiset_ensures;

    assert(a.len() == a.to_multiset().len());
    assert(b.len() == b.to_multiset().len());
    if a.len() == 0 {
        assert(a.map_values(f) =~= b.map_values(f));
    } else {
        let x = a.last();
        let ra = a.drop_last();
        assert(a =~= ra.push(x));
        assert(a.to_multiset().count(x) > 0);
        assert(b.contains(x));
        let j = choose|j: int| 0 <= j < b.len() && b[j] == x;
        let rb = b.remove(j);
        assert(ra.to_multiset() =~= a.to_multiset().remove(x));
        assert(rb.to_multiset() == b.to_multiset().remove(b[j]));
        lemma_map_same_values(ra, rb, f);
        assert(a.map_values(f) =~= ra.map_values(f).push(f(x)));
        assert(b.map_values(f) =~= rb.map_values(f).insert(j, f(x)));
        vstd::seq_lib::to_multiset_insert(rb.map_values(f), j, f(x));
    }
}

/// The boundaries depend on which values there are, not on their order:
/// two inputs with the same values, counted with repetition, give the same
/// boundaries.
pub proof fn law_boundaries_ignore_order(a: Seq<u64>, b: Seq<u64>, max_bins: nat)
    requires
        a.to_multiset() == b.to_multiset(),
    ensures
        quantile_boundaries(a, max_bins) == quantile_boundaries(b, max_bins),
{
    broadcast use vstd::seq_lib::group_to_multiset_ensures;

    assert(a.len() == a.to_multiset().len());
    assert(b.len() == b.to_multiset().len());
    if a.len() > 0 {
        let f = |x: u64| total_key(x);
        let ka = a.map_values(f);
        let kb = b.map_values(f);
        lemma_map_same_values(a, b, f);
        crate::sorting::lemma_u64_leq_total();
        ka.lemma_sort_by_ensures(u64_leq());
        kb.lemma_sort_by_ensures(u64_leq());
        crate::sorting::lemma_sorted_unique(ka.sort_by(u64_leq()), kb.sort_by(u64_leq()));
        assert(sorted_by_total(a) == sorted_by_total(b));
    }
}

/// At least one quantile read gives at least one boundary.
proof fn lemma_picks_nonempty(sorted: Seq<u64>, max_bins: nat, k: nat)
    requires
        k >= 1,
    ensures
        quantile_picks(sorted, max_bins, k).len() >= 1,
    decreases k,
{
    if k > 1 {
        lemma_picks_nonempty(sorted, max_bins, (k - 1) as nat);
    }
}

/// With at least two bins, a feature has no boundaries exactly when it has
/// no values.
pub proof fn law_boundaries_empty_iff_no_values(values: Seq<u64>, max_bins: nat)
    requires
        max_bins >= 2,
    ensures
        quantile_boundaries(values, max_bins).len() == 0 <==> values.len() == 0,
{
    if values.len() > 0 {
        lemma_picks_nonempty(sorted_by_total(values), max_bins, boundary_limit(max_bins));
    }
}

// -- bin lookup ------------------------------------------------------------------------

/// The boundaries below `x` are exactly the first `k`.
pub open spec fn partitioned_at(bs: Seq<u64>, x: u64, k: int) -> bool {
    &&& 0 <= k <= bs.len()
    &&& forall|i: int| 0 <= i < k ==> #[trigger] lt_bits(bs[i], x)
    &&& forall|i: int| k <= i < bs.len() ==> !#[trigger] lt_bits(bs[i], x)
}

/// The first index at or after `i` whose boundary is not below `x`.
pub open spec fn first_not_below(bs: Seq<u64>, x: u64, i: int) -> int
    decreases bs.len() - i,
{
    if i < 0 || i >= bs.len() {
        bs.len() as int
    } else if !lt_bits(bs[i], x) {
        i
    } else {
        first_not_below(bs, x, i + 1)
    }
}

/// The bin of a non-missing value: the number of boundaries below it.
pub open spec fn bin_of(bs: Seq<u64>, x: u64) -> int {
    first_not_below(bs, x, 0)
}

/// No boundary is NaN.
pub open spec fn no_nan(bs: Seq<u64>) -> bool {
    forall|i: int| 0 <= i < bs.len() ==> !#[trigger] is_nan_bits(bs[i])
}

/// Binary search for the partition point of `b < x`. Where the boundaries
/// below `x` form a prefix, its length is returned.
fn partition_point_below(bs: &Vec<u64>, x: u64) -> (k: usize)
    ensures
        k <= bs@.len(),
        forall|j: int| partitioned_at(bs@, x, j) ==> k == j,
{
    let mut lo: usize = 0;
    let mut hi: usize = bs.len();
    while lo < hi
        invariant
            lo <= hi <= bs@.len(),
            forall|j: int| partitioned_at(bs@, x, j) ==> lo <= j <= hi,
        decreases hi - lo,
    {
        let mid = lo + (hi - lo) / 2;
        if lt(bs[mid], x) {
            lo = mid + 1;
        } else {
            hi = mid;
        }
    }
    lo
}

impl BinTable {
    /// The bin of a non-missing value: `partition_point(b < value)` over the
    /// feature's boundaries: the number of boundaries below the value when
    /// they contain no NaN. It is one of the feature's `num_bins` ids and
    /// never `MISSING_BIN`. (On a missing value the result is meaningless but
    /// determined.)
    pub fn bin_value(&self, feature: usize, value: u64) -> (r: u16)
        requires
            feature < self@.boundaries.len(),
        ensures
            r as int <= self@.boundaries[feature as int].len(),
            r != MISSING_BIN,
            forall|j: int| partitioned_at(self@.boundaries[feature as int], value, j) ==> r as int == j,
            no_nan(self@.boundaries[feature as int]) ==> r as int == bin_of(self@.boundaries[feature as int], value),
    {
        proof {
            use_type_invariant(self);
        }
        let b = &self.boundaries[feature];
        assert(b@ == self@.boundaries[feature as int]);
        let k = partition_point_below(b, value);
        proof {
            if no_nan(b@) {
                lemma_bin_partition(b@, value);
            }
        }
        k as u16
    }
}

// -- order facts about boundaries ---------------------------------------------------

/// Strictly ascending boundaries without NaN are in increasing order.
pub proof fn lemma_ascending_lt(bs: Seq<u64>, i: int, j: int)
    requires
        strictly_ascending(bs),
        no_nan(bs),
        0 <= i < j < bs.len(),
    ensures
        lt_bits(bs[i], bs[j]),
    decreases j - i,
{
    assert(!le_bits(bs[i + 1], bs[i]));
    lemma_lt_not_le(bs[i], bs[i + 1]);
    if i + 1 < j {
        lemma_ascending_lt(bs, i + 1, j);
        lemma_order_trans(bs[i], bs[i + 1], bs[j]);
    }
}

proof fn lemma_first_not_below_facts(bs: Seq<u64>, x: u64, i: int)
    requires
        0 <= i <= bs.len(),
    ensures
        i <= first_not_below(bs, x, i) <= bs.len(),
        forall|m: int| i <= m < first_not_below(bs, x, i) ==> #[trigger] lt_bits(bs[m], x),
        first_not_below(bs, x, i) < bs.len() ==> !lt_bits(bs[first_not_below(bs, x, i)], x),
    decreases bs.len() - i,
{
    if i < bs.len() && lt_bits(bs[i], x) {
        lemma_first_not_below_facts(bs, x, i + 1);
    }
}

/// Over ascending boundaries without NaN, the boundaries below any value form
/// a prefix, of length `bin_of`.
pub proof fn lemma_bin_partition(bs: Seq<u64>, x: u64)
    requires
        strictly_ascending(bs),
        no_nan(bs),
    ensures
        partitioned_at(bs, x, bin_of(bs, x)),
{
    lemma_first_not_below_facts(bs, x, 0);
    let k = bin_of(bs, x);
    assert forall|i: int| k <= i < bs.len() implies !#[trigger] lt_bits(bs[i], x) by {
        if i > k && lt_bits(bs[i], x) {
            lemma_ascending_lt(bs, k, i);
            lemma_order_trans(bs[k], bs[i], x);
        }
    }
}

/// Binning preserves order: a value not above another never lands in a later
/// bin.
pub proof fn law_bin_monotone(bs: Seq<u64>, x: u64, y: u64)
    requires
        strictly_ascending(bs),
        no_nan(bs),
        le_bits(x, y),
    ensures
        bin_of(bs, x) <= bin_of(bs, y),
{
    lemma_bin_partition(bs, x);
    lemma_bin_partition(bs, y);
    let kx = bin_of(bs, x);
    let ky = bin_of(bs, y);
    if ky < kx {
        assert(lt_bits(bs[ky], x));
        lemma_order_trans(bs[ky], x, y);
        assert(lt_bits(bs[ky], y));
    }
}

/// A boundary is the inclusive upper end of its bin: a number lands in bin
/// `k` or below exactly when it is `<=` boundary `k`, which is the tree's
/// split rule `x <= threshold`.
pub proof fn law_bin_matches_threshold(bs: Seq<u64>, x: u64, k: int)
    requires
        strictly_ascending(bs),
        no_nan(bs),
        !is_nan_bits(x),
        0 <= k < bs.len(),
    ensures
        bin_of(bs, x) <= k <==> le_bits(x, bs[k]),
{
    lemma_bin_partition(bs, x);
    lemma_lt_not_le(bs[k], x);
}

// -- binned matrix -----------------------------------------------------------------

/// Ascending-with-`<` boundaries pass the table's order check.
pub proof fn lemma_adjacent_lt_ascending(b: Seq<u64>)
    requires
        adjacent_lt(b),
    ensures
        strictly_ascending(b),
{
    assert forall|i: int| 0 <= i < b.len() - 1 implies !#[trigger] le_bits(b[i + 1], b[i]) by {
        assert(lt_bits(b[i], b[i + 1]));
        lemma_lt_not_le(b[i], b[i + 1]);
    }
}

/// The non-missing values among the first `i` rows of a column, in row order.
pub open spec fn non_missing(values: Seq<u64>, nulls: Seq<bool>, policy: crate::data::MissingPolicy, i: int) -> Seq<u64>
    decreases i,
{
    if i <= 0 {
        Seq::empty()
    } else {
        let prev = non_missing(values, nulls, policy, i - 1);
        if missing_spec(values[i - 1], nulls[i - 1], policy) {
            prev
        } else {
            prev.push(values[i - 1])
        }
    }
}

/// The stored bin of one cell: `MISSING_BIN` for a missing value, otherwise
/// a bin id other than it, at most the number of boundaries: the partition
/// point of `b < x` where there is one.
pub open spec fn cell_bin_ok(bs: Seq<u64>, x: u64, missing: bool, bin: u16) -> bool {
    if missing {
        bin == MISSING_BIN
    } else {
        &&& bin != MISSING_BIN
        &&& bin as int <= bs.len()
        &&& forall|j: int| partitioned_at(bs, x, j) ==> bin as int == j
    }
}

/// The contents of a binned matrix (feature-major).
pub struct BinnedMatrixView {
    pub num_features: nat,
    pub num_rows: nat,
    pub bins: Seq<u16>,
}

/// A matrix holds the bins of the columns under the table.
pub open spec fn binned_from(m: BinnedMatrixView, cols: FeatureColumnsView, table: BinTableView) -> bool {
    &&& m.num_features == cols.values.len()
    &&& m.num_rows == cols.num_rows
    &&& m.bins.len() == m.num_features * m.num_rows
    &&& forall|f: int, r: int|
        0 <= f < m.num_features && 0 <= r < m.num_rows ==> cell_bin_ok(
            table.boundaries[f],
            cols.values[f][r],
            missing_spec(cols.values[f][r], cols.nulls[f][r], cols.policy),
            #[trigger] m.bins[f * m.num_rows + r],
        )
}

/// The binned training matrix: `bins[feature * num_rows + row]`.
#[derive(Debug)]
pub struct BinnedMatrix {
    num_features: usize,
    num_rows: usize,
    bins: Vec<u16>,
}

impl View for BinnedMatrix {
    type V = BinnedMatrixView;

    closed spec fn view(&self) -> BinnedMatrixView {
        BinnedMatrixView {
            num_features: self.num_features as nat,
            num_rows: self.num_rows as nat,
            bins: self.bins@,
        }
    }
}

proof fn lemma_cell_index(f: int, r: int, nr: int, g: int, q: int)
    by (nonlinear_arith)
    requires
        0 <= g < f,
        0 <= q < nr,
        0 <= r,
    ensures
        g * nr + q < f * nr + r,
        0 <= g * nr + q,
{
}

impl BinnedMatrix {
    #[verifier::type_invariant]
    spec fn inv(self) -> bool {
        self.bins@.len() == self.num_features * self.num_rows
    }

    /// The bin of `feature` at `row` (missing values hold `MISSING_BIN`).
    pub fn bin(&self, feature: usize, row: usize) -> (b: u16)
        requires
            feature * self@.num_rows + row < self@.num_features * self@.num_rows,
        ensures
            b == self@.bins[feature * self@.num_rows + row],
    {
        proof {
            use_type_invariant(self);
        }
        let len = self.bins.len();
        assert(feature * self.num_rows + row < len);
        assert(0 <= feature * self.num_rows) by (nonlinear_arith);
        self.bins[feature * self.num_rows + row]
    }

    /// Number of features.
    pub fn num_features(&self) -> (n: usize)
        ensures
            n == self@.num_features,
    {
        self.num_features
    }

    /// Number of rows.
    pub fn num_rows(&self) -> (n: usize)
        ensures
            n == self@.num_rows,
    {
        self.num_rows
    }

    /// Bins every cell of the columns under `table`.
    pub fn build(ds: &FeatureColumns, table: &BinTable) -> (m: BinnedMatrix)
        requires
            ds@.values.len() == table@.boundaries.len(),
        ensures
            binned_from(m@, ds@, table@),
    {
        let num_features = ds.num_features();
        let num_rows = ds.num_rows();
        let ghost cols = ds@;
        let ghost nr = num_rows as int;
        let mut bins: Vec<u16> = Vec::new();
        let mut f: usize = 0;
        while f < num_features
            invariant
                cols == ds@,
                crate::data::columns_shaped(cols),
                num_features == cols.values.len(),
                num_rows == cols.num_rows,
                nr == num_rows,
                num_features == table@.boundaries.len(),
                f <= num_features,
                bins@.len() == f * nr,
                forall|g: int, q: int|
                    0 <= g < f && 0 <= q < nr ==> cell_bin_ok(
                        table@.boundaries[g],
                        cols.values[g][q],
                        missing_spec(cols.values[g][q], cols.nulls[g][q], cols.policy),
                        #[trigger] bins@[g * nr + q],
                    ),
            decreases num_features - f,
        {
            proof {
                assert(f * nr + nr == (f + 1) * nr) by (nonlinear_arith);
                assert((f + 1) * nr <= num_features * nr) by (nonlinear_arith)
                    requires
                        f + 1 <= num_features,
                        nr >= 0,
                ;
            }
            let mut r: usize = 0;
            while r < num_rows
                invariant
                    cols == ds@,
                    crate::data::columns_shaped(cols),
                    num_features == cols.values.len(),
                    num_rows == cols.num_rows,
                    nr == num_rows,
                    num_features == table@.boundaries.len(),
                    f < num_features,
                    r <= num_rows,
                    bins@.len() == f * nr + r,
                    f * nr + nr <= num_features * nr,
                    forall|g: int, q: int|
                        0 <= g < f && 0 <= q < nr ==> cell_bin_ok(
                            table@.boundaries[g],
                            cols.values[g][q],
                            missing_spec(cols.values[g][q], cols.nulls[g][q], cols.policy),
                            #[trigger] bins@[g * nr + q],
                        ),
                    forall|q: int|
                        0 <= q < r ==> cell_bin_ok(
                            table@.boundaries[f as int],
                            cols.values[f as int][q],
                            missing_spec(cols.values[f as int][q], cols.nulls[f as int][q], cols.policy),
                            #[trigger] bins@[f * nr + q],
                        ),
                decreases num_rows - r,
            {
                let missing = ds.is_missing(f, r);
                let b = if missing {
                    MISSING_BIN
                } else {
                    table.bin_value(f, ds.value(f, r))
                };
                let ghost before = bins@;
                bins.push(b);
                proof {
                    assert forall|g: int, q: int| 0 <= g < f && 0 <= q < nr implies #[trigger] bins@[g * nr + q]
                        == before[g * nr + q] by {
                        lemma_cell_index(f as int, r as int, nr, g, q);
                    }
                }
                r = r + 1;
            }
            proof {
                assert forall|g: int, q: int|
                    0 <= g < f + 1 && 0 <= q < nr implies cell_bin_ok(
                    table@.boundaries[g],
                    cols.values[g][q],
                    missing_spec(cols.values[g][q], cols.nulls[g][q], cols.policy),
                    #[trigger] bins@[g * nr + q],
                ) by {
                    if g == f {
                        assert(bins@[f * nr + q] == bins@[g * nr + q]);
                    }
                }
            }
            f = f + 1;
        }
        BinnedMatrix { num_features, num_rows, bins }
    }
}

/// The equal-frequency boundaries of every column.
pub open spec fn column_boundaries(cols: FeatureColumnsView, max_bins: nat) -> Seq<Seq<u64>> {
    Seq::new(
        cols.values.len(),
        |f: int| quantile_boundaries(non_missing(cols.values[f], cols.nulls[f], cols.policy, cols.num_rows as int), max_bins),
    )
}

/// Every entry of the total-order sort of `values` is one of `values`.
proof fn lemma_sorted_members(values: Seq<u64>)
    ensures
        sorted_by_total(values).len() == values.len(),
        forall|q: int| 0 <= q < values.len() ==> values.contains(#[trigger] sorted_by_total(values)[q]),
{
    broadcast use vstd::seq_lib::group_to_multiset_ensures;

    let keys = values.map_values(|b: u64| total_key(b));
    crate::sorting::lemma_u64_leq_total();
    keys.lemma_sort_by_ensures(u64_leq());
    let sk = keys.sort_by(u64_leq());
    assert(sk.len() == sk.to_multiset().len());
    assert(keys.len() == keys.to_multiset().len());
    assert forall|q: int| 0 <= q < values.len() implies values.contains(#[trigger] sorted_by_total(values)[q]) by {
        assert(sk.to_multiset().count(sk[q]) > 0);
        assert(keys.contains(sk[q]));
        let w = choose|w: int| 0 <= w < keys.len() && keys[w] == sk[q];
        lemma_key_inverse(values[w]);
        assert(sorted_by_total(values)[q] == values[w]);
    }
}

/// Each quantile read picks an entry of the sorted values.
proof fn lemma_picks_members(sorted: Seq<u64>, max_bins: nat, k: nat)
    requires
        sorted.len() > 0,
        k <= boundary_limit(max_bins),
    ensures
        forall|j: int| 0 <= j < quantile_picks(sorted, max_bins, k).len() ==> sorted.contains(
            #[trigger] quantile_picks(sorted, max_bins, k)[j],
        ),
    decreases k,
{
    if k > 0 {
        lemma_picks_members(sorted, max_bins, (k - 1) as nat);
        let n = sorted.len() as int;
        let q = quantile_index(k as int, n, max_bins as int);
        assert(0 <= k * n / (max_bins as int)) by (nonlinear_arith)
            requires
                k >= 1,
                n >= 1,
                max_bins >= 1,
        ;
        assert(0 <= q < n);
        assert(sorted.contains(sorted[q]));
        let prev = quantile_picks(sorted, max_bins, (k - 1) as nat);
        let cur = quantile_picks(sorted, max_bins, k);
        assert forall|j: int| 0 <= j < cur.len() implies sorted.contains(#[trigger] cur[j]) by {
            if j < prev.len() {
                assert(cur[j] == prev[j]);
            } else {
                assert(cur[j] == sorted[q]);
            }
        }
    }
}

/// Every boundary computed from `values` is one of `values`.
pub proof fn lemma_boundaries_are_values(values: Seq<u64>, max_bins: nat)
    ensures
        forall|k: int| 0 <= k < quantile_boundaries(values, max_bins).len() ==> values.contains(
            #[trigger] quantile_boundaries(values, max_bins)[k],
        ),
{
    if values.len() > 0 {
        lemma_sorted_members(values);
        lemma_picks_members(sorted_by_total(values), max_bins, boundary_limit(max_bins));
        let sorted = sorted_by_total(values);
        assert forall|k: int| 0 <= k < quantile_boundaries(values, max_bins).len() implies values.contains(
            #[trigger] quantile_boundaries(values, max_bins)[k],
        ) by {
            let x = quantile_boundaries(values, max_bins)[k];
            assert(sorted.contains(x));
            let q = choose|q: int| 0 <= q < sorted.len() && sorted[q] == x;
            assert(values.contains(sorted[q]));
        }
    }
}

/// A value collected from the first `i` rows is the value of one of them
/// that is not missing.
proof fn lemma_non_missing_rows(values: Seq<u64>, nulls: Seq<bool>, policy: crate::data::MissingPolicy, i: int, x: u64)
    requires
        i <= values.len(),
        i <= nulls.len(),
        non_missing(values, nulls, policy, i).contains(x),
    ensures
        exists|r: int| 0 <= r < i && values[r] == x && !missing_spec(values[r], nulls[r], policy),
    decreases i,
{
    if i > 0 {
        let prev = non_missing(values, nulls, policy, i - 1);
        if missing_spec(values[i - 1], nulls[i - 1], policy) {
            lemma_non_missing_rows(values, nulls, policy, i - 1, x);
        } else if prev.contains(x) {
            lemma_non_missing_rows(values, nulls, policy, i - 1, x);
        } else {
            let s2 = prev.push(values[i - 1]);
            assert(s2 == non_missing(values, nulls, policy, i));
            let j = choose|j: int| 0 <= j < s2.len() && #[trigger] s2[j] == x;
            if j < prev.len() {
                assert(prev[j] == x);
                assert(prev.contains(x));
            }
            assert(j == prev.len());
            assert(values[i - 1] == x);
        }
    }
}

/// Binning sees only the values that are there: every boundary of a feature
/// is the value of one of its rows that is not missing under the dataset's
/// policy (never a missing cell's placeholder).
pub proof fn law_boundaries_come_from_present_values(cols: FeatureColumnsView, max_bins: nat, f: int, k: int)
    requires
        crate::data::columns_shaped(cols),
        0 <= f < cols.values.len(),
        0 <= k < column_boundaries(cols, max_bins)[f].len(),
    ensures
        exists|r: int|
            0 <= r < cols.num_rows && cols.values[f][r] == column_boundaries(cols, max_bins)[f][k] && !missing_spec(
                cols.values[f][r],
                cols.nulls[f][r],
                cols.policy,
            ),
{
    let vs = non_missing(cols.values[f], cols.nulls[f], cols.policy, cols.num_rows as int);
    assert(column_boundaries(cols, max_bins)[f] == quantile_boundaries(vs, max_bins));
    lemma_boundaries_are_values(vs, max_bins);
    assert(vs.contains(quantile_boundaries(vs, max_bins)[k]));
    lemma_non_missing_rows(
        cols.values[f],
        cols.nulls[f],
        cols.policy,
        cols.num_rows as int,
        quantile_boundaries(vs, max_bins)[k],
    );
}

/// Two columns that agree on which rows are missing and on every value
/// that is not missing collect the same values.
proof fn lemma_non_missing_agree(
    v1: Seq<u64>,
    n1: Seq<bool>,
    v2: Seq<u64>,
    n2: Seq<bool>,
    policy: crate::data::MissingPolicy,
    i: int,
)
    requires
        i <= v1.len() && i <= n1.len() && i <= v2.len() && i <= n2.len(),
        forall|r: int| 0 <= r < i ==> missing_spec(v1[r], n1[r], policy) == missing_spec(#[trigger] v2[r], n2[r], policy),
        forall|r: int| 0 <= r < i && !missing_spec(v1[r], n1[r], policy) ==> v1[r] == #[trigger] v2[r],
    ensures
        non_missing(v1, n1, policy, i) == non_missing(v2, n2, policy, i),
    decreases i,
{
    if i > 0 {
        lemma_non_missing_agree(v1, n1, v2, n2, policy, i - 1);
        assert(missing_spec(v1[i - 1], n1[i - 1], policy) == missing_spec(v2[i - 1], n2[i - 1], policy));
    }
}

/// What a missing cell holds does not matter: two datasets with the same
/// shape and policy that agree on which cells are missing and on every
/// cell that is not missing get the same boundaries.
pub proof fn law_missing_cells_do_not_move_boundaries(c1: FeatureColumnsView, c2: FeatureColumnsView, max_bins: nat)
    requires
        crate::data::columns_shaped(c1),
        crate::data::columns_shaped(c2),
        c1.values.len() == c2.values.len(),
        c1.num_rows == c2.num_rows,
        c1.policy == c2.policy,
        forall|f: int, r: int|
            0 <= f < c1.values.len() && 0 <= r < c1.num_rows ==> missing_spec(c1.values[f][r], c1.nulls[f][r], c1.policy)
                == missing_spec(#[trigger] c2.values[f][r], c2.nulls[f][r], c2.policy),
        forall|f: int, r: int|
            0 <= f < c1.values.len() && 0 <= r < c1.num_rows && !missing_spec(c1.values[f][r], c1.nulls[f][r], c1.policy)
                ==> c1.values[f][r] == #[trigger] c2.values[f][r],
    ensures
        column_boundaries(c1, max_bins) == column_boundaries(c2, max_bins),
{
    assert forall|f: int| 0 <= f < c1.values.len() implies #[trigger] column_boundaries(c1, max_bins)[f]
        == column_boundaries(c2, max_bins)[f] by {
        assert(c1.values[f].len() == c1.num_rows && c1.nulls[f].len() == c1.num_rows);
        assert(c2.values[f].len() == c2.num_rows && c2.nulls[f].len() == c2.num_rows);
        assert forall|r: int| 0 <= r < c1.num_rows implies missing_spec(c1.values[f][r], c1.nulls[f][r], c1.policy)
            == missing_spec(#[trigger] c2.values[f][r], c2.nulls[f][r], c1.policy) by {
        }
        lemma_non_missing_agree(c1.values[f], c1.nulls[f], c2.values[f], c2.nulls[f], c1.policy, c1.num_rows as int);
    }
    assert(column_boundaries(c1, max_bins) =~= column_boundaries(c2, max_bins));
}

impl BinTable {
    /// Builds the bin table of the columns (equal-frequency boundaries over
    /// each feature's non-missing values) and bins every cell with it. The
    /// boundaries are refused only where a feature has more than
    /// `MAX_FEATURE_BOUNDARIES` of them, which needs `max_bins` above
    /// `MAX_FEATURE_BOUNDARIES + 1`.
    pub fn build_from_dataset(ds: &FeatureColumns, max_bins: usize) -> (res: Result<(BinTable, BinnedMatrix), BinningError>)
        ensures
            match first_table_issue(max_bins as nat, column_boundaries(ds@, max_bins as nat), 0) {
                Some(e) => res == Err::<(BinTable, BinnedMatrix), BinningError>(e),
                None => res matches Ok((t, m)) && t@ == (BinTableView {
                    max_bins: max_bins as nat,
                    boundaries: column_boundaries(ds@, max_bins as nat),
                }) && binned_from(m@, ds@, t@),
            },
            max_bins <= MAX_FEATURE_BOUNDARIES + 1 ==> res is Ok,
    {
        let nf = ds.num_features();
        let nr = ds.num_rows();
        let ghost cols = ds@;
        let mut boundaries: Vec<Vec<u64>> = Vec::new();
        let mut f: usize = 0;
        while f < nf
            invariant
                cols == ds@,
                crate::data::columns_shaped(cols),
                nf == cols.values.len(),
                nr == cols.num_rows,
                f <= nf,
                boundaries@.len() == f,
                forall|g: int| 0 <= g < f ==> #[trigger] nested_view(&boundaries)[g] == quantile_boundaries(
                    non_missing(cols.values[g], cols.nulls[g], cols.policy, nr as int),
                    max_bins as nat,
                ),
                forall|g: int| 0 <= g < f ==> (#[trigger] nested_view(&boundaries)[g]).len() <= boundary_limit(max_bins as nat)
                    && strictly_ascending(nested_view(&boundaries)[g]),
            decreases nf - f,
        {
            let mut collected: Vec<u64> = Vec::new();
            let mut r: usize = 0;
            while r < nr
                invariant
                    cols == ds@,
                    crate::data::columns_shaped(cols),
                    nf == cols.values.len(),
                    nr == cols.num_rows,
                    f < nf,
                    r <= nr,
                    collected@ == non_missing(cols.values[f as int], cols.nulls[f as int], cols.policy, r as int),
                decreases nr - r,
            {
                if !ds.is_missing(f, r) {
                    collected.push(ds.value(f, r));
                }
                r = r + 1;
            }
            let b = compute_quantile_boundaries(collected.as_slice(), max_bins);
            proof {
                lemma_adjacent_lt_ascending(b@);
            }
            let ghost before = nested_view(&boundaries);
            boundaries.push(b);
            proof {
                assert(nested_view(&boundaries) =~= before.push(b@));
            }
            f = f + 1;
        }
        proof {
            assert(nested_view(&boundaries) =~= column_boundaries(cols, max_bins as nat));
            lemma_first_table_issue(max_bins as nat, nested_view(&boundaries), 0);
        }
        match BinTable::new(boundaries, max_bins) {
            Ok(table) => {
                let matrix = BinnedMatrix::build(ds, &table);
                Ok((table, matrix))
            },
            Err(e) => Err(e),
        }
    }
}

} // verus!
