//! Categorical feature encodings: each category key maps to a smoothed target
//! mean (an `f64` bit pattern); unseen keys map to the feature's prior.
//!
//! Each feature keeps its values in a `HashMap` from key to value; its
//! entries are handed out sorted by key, strictly ascending, so that
//! serialization is deterministic.

use vstd::prelude::*;
use std::collections::HashMap;

verus! {

broadcast use vstd::std_specs::hash::group_hash_axioms;

/// The encoding of one categorical feature.
pub struct FeatureEncodingView {
    pub entries: Seq<(u32, u64)>,
    pub prior: u64,
    pub alpha: u64,
}

/// Keys strictly ascending.
pub open spec fn keys_ascending(entries: Seq<(u32, u64)>) -> bool {
    forall|i: int, j: int| 0 <= i < j < entries.len() ==> #[trigger] entries[i].0 < #[trigger] entries[j].0
}

/// The value of `key` under an encoding: its entry, or the prior.
pub open spec fn lookup(enc: FeatureEncodingView, key: u32) -> u64 {
    if exists|i: int| 0 <= i < enc.entries.len() && #[trigger] enc.entries[i].0 == key {
        enc.entries[choose|i: int| 0 <= i < enc.entries.len() && #[trigger] enc.entries[i].0 == key].1
    } else {
        enc.prior
    }
}

/// The map that an entry list describes, later entries overriding earlier
/// ones.
pub open spec fn entry_map(es: Seq<(u32, u64)>) -> Map<u32, u64>
    decreases es.len(),
{
    if es.len() == 0 {
        Map::empty()
    } else {
        entry_map(es.drop_last()).insert(es.last().0, es.last().1)
    }
}

/// The entries of a map, sorted by key (the one such list: see
/// `lemma_entries_unique`).
pub open spec fn sorted_entries(m: Map<u32, u64>) -> Seq<(u32, u64)> {
    choose|es: Seq<(u32, u64)>| keys_ascending(es) && entry_map(es) == m
}

/// With ascending keys, the map holds exactly the listed keys, each with
/// its listed value.
pub proof fn lemma_entry_map(es: Seq<(u32, u64)>)
    requires
        keys_ascending(es),
    ensures
        entry_map(es).dom().finite(),
        forall|k: u32| #[trigger] entry_map(es).contains_key(k) <==> exists|i: int| 0 <= i < es.len() && es[i].0 == k,
        forall|i: int| 0 <= i < es.len() ==> #[trigger] entry_map(es)[es[i].0] == es[i].1,
    decreases es.len(),
{
    if es.len() > 0 {
        let p = es.drop_last();
        lemma_entry_map(p);
        let m = entry_map(es);
        assert forall|k: u32| #[trigger] m.contains_key(k) <==> exists|i: int| 0 <= i < es.len() && es[i].0 == k by {
            if m.contains_key(k) && k != es.last().0 {
                let i = choose|i: int| 0 <= i < p.len() && p[i].0 == k;
                assert(es[i].0 == k);
            }
            if exists|i: int| 0 <= i < es.len() && es[i].0 == k {
                let i = choose|i: int| 0 <= i < es.len() && es[i].0 == k;
                if i < es.len() - 1 {
                    assert(p[i].0 == k);
                }
            }
        }
        assert forall|i: int| 0 <= i < es.len() implies #[trigger] m[es[i].0] == es[i].1 by {
            if i < es.len() - 1 {
                assert(es[i].0 < es[es.len() - 1].0);
                assert(p[i] == es[i]);
            }
        }
    }
}

/// Two key-ascending entry lists of one map are the same list.
pub proof fn lemma_entries_unique(a: Seq<(u32, u64)>, b: Seq<(u32, u64)>)
    requires
        keys_ascending(a),
        keys_ascending(b),
        entry_map(a) == entry_map(b),
    ensures
        a == b,
    decreases a.len(),
{
    lemma_entry_map(a);
    lemma_entry_map(b);
    if a.len() == 0 {
        if b.len() > 0 {
            assert(entry_map(b).contains_key(b[0].0));
        }
        assert(a =~= b);
    } else {
        assert(entry_map(a).contains_key(a.last().0));
        assert(b.len() > 0);
        let ka = a.last().0;
        let kb = b.last().0;
        assert(entry_map(b).contains_key(ka));
        let j = choose|j: int| 0 <= j < b.len() && b[j].0 == ka;
        if j < b.len() - 1 {
            assert(b[j].0 < b[b.len() - 1].0);
        }
        assert(entry_map(a).contains_key(kb));
        let i = choose|i: int| 0 <= i < a.len() && a[i].0 == kb;
        if i < a.len() - 1 {
            assert(a[i].0 < a[a.len() - 1].0);
        }
        assert(ka == kb);
        assert(a.last().1 == entry_map(a)[ka]);
        assert(b.last().1 == entry_map(b)[kb]);
        let pa = a.drop_last();
        let pb = b.drop_last();
        assert(keys_ascending(pa));
        assert(keys_ascending(pb));
        lemma_entry_map(pa);
        lemma_entry_map(pb);
        assert(!entry_map(pa).contains_key(ka)) by {
            if entry_map(pa).contains_key(ka) {
                let q = choose|q: int| 0 <= q < pa.len() && pa[q].0 == ka;
                assert(a[q].0 < a[a.len() - 1].0);
            }
        }
        assert(!entry_map(pb).contains_key(kb)) by {
            if entry_map(pb).contains_key(kb) {
                let q = choose|q: int| 0 <= q < pb.len() && pb[q].0 == kb;
                assert(b[q].0 < b[b.len() - 1].0);
            }
        }
        assert(entry_map(pa) =~= entry_map(a).remove(ka));
        assert(entry_map(pb) =~= entry_map(b).remove(kb));
        lemma_entries_unique(pa, pb);
        assert(a =~= pa.push(a.last()));
        assert(b =~= pb.push(b.last()));
    }
}

/// A key-ascending list is the sorted entry list of its map.
pub proof fn lemma_sorted_entries_of(es: Seq<(u32, u64)>)
    requires
        keys_ascending(es),
    ensures
        sorted_entries(entry_map(es)) == es,
{
    let s = sorted_entries(entry_map(es));
    assert(keys_ascending(s) && entry_map(s) == entry_map(es));
    lemma_entries_unique(s, es);
}

/// The encoding of one categorical feature.
#[derive(Debug)]
pub struct FeatureEncoding {
    map: HashMap<u32, u64>,
    prior: u64,
    alpha: u64,
}

impl View for FeatureEncoding {
    type V = FeatureEncodingView;

    closed spec fn view(&self) -> FeatureEncodingView {
        FeatureEncodingView { entries: sorted_entries(self.map@), prior: self.prior, alpha: self.alpha }
    }
}

/// The keys of a map, each once.
fn map_keys(m: &HashMap<u32, u64>) -> (r: Vec<u32>)
    ensures
        r@.to_set() == m@.dom(),
        r@.no_duplicates(),
{
    let mut out: Vec<u32> = Vec::new();
    for k in it: m.keys()
        invariant
            out@ == it.seq().unref().take(it.index()),
            it.seq().unref().to_set() == m@.dom(),
            it.seq().unref().no_duplicates(),
            it.index() <= it.seq().len(),
            out@.len() == it.index(),
            it.seq().len() == m@.dom().len(),
            out@.no_duplicates(),
            out@.to_set().subset_of(m@.dom()),
    {
        proof {
            assert(it.seq().unref().take(it.index() + 1) =~= out@.push(*k));
            assert(it.seq().unref().contains(*k));
        }
        out.push(*k);
    }
    proof {
        out@.unique_seq_to_set();
        vstd::set_lib::lemma_len_subset(out@.to_set(), m@.dom());
        vstd::set_lib::lemma_subset_equality(out@.to_set(), m@.dom());
    }
    out
}

impl FeatureEncoding {
    #[verifier::type_invariant]
    spec fn inv(self) -> bool {
        exists|es: Seq<(u32, u64)>| keys_ascending(es) && entry_map(es) == self.map@
    }

    /// An encoding from entries sorted by key; `None` when the keys are not
    /// strictly ascending.
    pub fn new(entries: Vec<(u32, u64)>, prior: u64, alpha: u64) -> (r: Option<FeatureEncoding>)
        ensures
            r is Some <==> keys_ascending(entries@),
            r matches Some(e) ==> e@ == (FeatureEncodingView { entries: entries@, prior, alpha }),
    {
        let mut i: usize = 1;
        while i < entries.len()
            invariant
                1 <= i,
                i <= entries@.len() || entries@.len() < 2,
                forall|a: int, b: int| 0 <= a < b < i && b < entries@.len() ==> #[trigger] entries@[a].0 < #[trigger] entries@[b].0,
            decreases entries@.len() - i,
        {
            if entries[i - 1].0 >= entries[i].0 {
                return None;
            }
            assert forall|a: int, b: int| 0 <= a < b < i + 1 && b < entries@.len() implies #[trigger] entries@[a].0
                < #[trigger] entries@[b].0 by {
                if b == i && a < i - 1 {
                    assert(entries@[a].0 < entries@[i - 1].0);
                }
            }
            i = i + 1;
        }
        assert(keys_ascending(entries@));
        let mut map: HashMap<u32, u64> = HashMap::new();
        let mut j: usize = 0;
        while j < entries.len()
            invariant
                j <= entries@.len(),
                map@ == entry_map(entries@.take(j as int)),
            decreases entries@.len() - j,
        {
            let (k, v) = entries[j];
            map.insert(k, v);
            proof {
                assert(entries@.take(j + 1).drop_last() =~= entries@.take(j as int));
            }
            j = j + 1;
        }
        proof {
            assert(entries@.take(entries@.len() as int) =~= entries@);
            lemma_sorted_entries_of(entries@);
        }
        Some(FeatureEncoding { map, prior, alpha })
    }

    /// The entries, sorted by key.
    pub fn entries(&self) -> (r: Vec<(u32, u64)>)
        ensures
            r@ == self@.entries,
    {
        proof {
            use_type_invariant(self);
        }
        let keys = map_keys(&self.map);
        let mut out: Vec<(u32, u64)> = Vec::new();
        let mut i: usize = 0;
        while i < keys.len()
            invariant
                i <= keys@.len(),
                keys@.to_set() == self.map@.dom(),
                keys@.no_duplicates(),
                keys_ascending(out@),
                forall|k: u32| #[trigger] entry_map(out@).contains_key(k) <==> keys@.take(i as int).contains(k),
                forall|k: u32| entry_map(out@).contains_key(k) ==> #[trigger] entry_map(out@)[k] == self.map@[k],
            decreases keys@.len() - i,
        {
            let k = keys[i];
            proof {
                assert(keys@.to_set().contains(k));
            }
            let v = *self.map.get(&k).unwrap();
            let mut p: usize = 0;
            while p < out.len() && out[p].0 < k
                invariant
                    p <= out@.len(),
                    forall|q: int| 0 <= q < p ==> #[trigger] out@[q].0 < k,
                decreases out@.len() - p,
            {
                p = p + 1;
            }
            let ghost before = out@;
            proof {
                lemma_entry_map(before);
                assert(!keys@.take(i as int).contains(k)) by {
                    if keys@.take(i as int).contains(k) {
                        let q = choose|q: int| 0 <= q < i && keys@[q] == k;
                        assert(keys@[q] == keys@[i as int]);
                    }
                }
                assert(forall|q: int| 0 <= q < before.len() ==> before[q].0 != k) by {
                    assert forall|q: int| 0 <= q < before.len() implies before[q].0 != k by {
                        assert(entry_map(before).contains_key(before[q].0));
                    }
                }
            }
            out.insert(p, (k, v));
            proof {
                let after = out@;
                assert(keys_ascending(after)) by {
                    assert forall|a: int, b: int| 0 <= a < b < after.len() implies #[trigger] after[a].0
                        < #[trigger] after[b].0 by {
                        if b < p {
                        } else if b == p {
                            assert(after[a] == before[a]);
                        } else if a < p {
                            assert(after[b] == before[b - 1]);
                            if p < before.len() {
                                assert(before[p as int].0 >= k);
                                assert(before[p as int].0 != k);
                                if b - 1 > p {
                                    assert(before[p as int].0 < before[b - 1].0);
                                }
                            }
                        } else if a == p {
                            assert(after[b] == before[b - 1]);
                            assert(before[p as int].0 >= k);
                            assert(before[p as int].0 != k);
                            if b - 1 > p {
                                assert(before[p as int].0 < before[b - 1].0);
                            }
                        } else {
                            assert(after[a] == before[a - 1]);
                            assert(after[b] == before[b - 1]);
                        }
                    }
                }
                lemma_entry_map(after);
                assert(keys@.take(i + 1) =~= keys@.take(i as int).push(k));
                assert forall|k2: u32| #[trigger] entry_map(after).contains_key(k2) <==> keys@.take(i + 1).contains(k2) by {
                    if entry_map(after).contains_key(k2) {
                        let q = choose|q: int| 0 <= q < after.len() && after[q].0 == k2;
                        if q < p {
                            assert(after[q] == before[q]);
                            assert(entry_map(before).contains_key(k2));
                            assert(keys@.take(i as int).contains(k2));
                            assert(keys@.take(i + 1).contains(k2));
                        } else if q > p {
                            assert(after[q] == before[q - 1]);
                            assert(entry_map(before).contains_key(k2));
                            assert(keys@.take(i as int).contains(k2));
                            assert(keys@.take(i + 1).contains(k2));
                        } else {
                            assert(keys@.take(i + 1)[i as int] == k);
                        }
                    }
                    if keys@.take(i + 1).contains(k2) {
                        let w = choose|w: int| 0 <= w < i + 1 && #[trigger] keys@.take(i + 1)[w] == k2;
                        if w < i {
                            assert(keys@.take(i as int)[w] == k2);
                        }
                        if k2 == k {
                            assert(after[p as int].0 == k);
                        } else {
                            assert(keys@.take(i as int).contains(k2));
                            assert(entry_map(before).contains_key(k2));
                            let q = choose|q: int| 0 <= q < before.len() && before[q].0 == k2;
                            if q < p {
                                assert(after[q] == before[q]);
                            } else {
                                assert(after[q + 1] == before[q]);
                            }
                        }
                    }
                }
                assert forall|k2: u32| entry_map(after).contains_key(k2) implies #[trigger] entry_map(after)[k2]
                    == self.map@[k2] by {
                    let q = choose|q: int| 0 <= q < after.len() && after[q].0 == k2;
                    assert(entry_map(after)[after[q].0] == after[q].1);
                    if q < p {
                        assert(after[q] == before[q]);
                        assert(entry_map(before)[before[q].0] == before[q].1);
                    } else if q > p {
                        assert(after[q] == before[q - 1]);
                        assert(entry_map(before)[before[q - 1].0] == before[q - 1].1);
                    }
                }
            }
            i = i + 1;
        }
        proof {
            assert(keys@.take(keys@.len() as int) =~= keys@);
            assert(entry_map(out@) =~= self.map@) by {
                assert forall|k: u32| #[trigger] entry_map(out@).contains_key(k) <==> self.map@.contains_key(k) by {
                    if self.map@.contains_key(k) {
                        assert(keys@.to_set().contains(k));
                    }
                }
            }
            lemma_sorted_entries_of(out@);
        }
        out
    }

    /// The prior (bits).
    pub fn prior(&self) -> (r: u64)
        ensures
            r == self@.prior,
    {
        self.prior
    }

    /// The smoothing alpha (bits).
    pub fn alpha(&self) -> (r: u64)
        ensures
            r == self@.alpha,
    {
        self.alpha
    }

    /// The value of `key`: its entry, or the prior for an unseen key.
    pub fn value(&self, key: u32) -> (r: u64)
        ensures
            r == lookup(self@, key),
    {
        proof {
            use_type_invariant(self);
            let es = choose|es: Seq<(u32, u64)>| keys_ascending(es) && entry_map(es) == self.map@;
            lemma_sorted_entries_of(es);
            lemma_entry_map(es);
        }
        match self.map.get(&key) {
            Some(v) => {
                proof {
                    let es = self@.entries;
                    let j = choose|j: int| 0 <= j < es.len() && #[trigger] es[j].0 == key;
                    assert(entry_map(es)[es[j].0] == es[j].1);
                }
                *v
            },
            None => self.prior,
        }
    }
}

/// Encodings of all categorical features, in categorical-feature order.
#[derive(Debug)]
pub struct CategoricalEncoding {
    features: Vec<FeatureEncoding>,
}

impl View for CategoricalEncoding {
    type V = Seq<FeatureEncodingView>;

    closed spec fn view(&self) -> Seq<FeatureEncodingView> {
        self.features@.map_values(|e: FeatureEncoding| e@)
    }
}

impl CategoricalEncoding {
    /// Groups per-feature encodings.
    pub fn from_parts(features: Vec<FeatureEncoding>) -> (r: CategoricalEncoding)
        ensures
            r@ == features@.map_values(|e: FeatureEncoding| e@),
    {
        CategoricalEncoding { features }
    }

    /// Number of categorical features.
    pub fn num_features(&self) -> (n: usize)
        ensures
            n == self@.len(),
    {
        self.features.len()
    }

    /// One feature's encoding.
    pub fn feature(&self, feature: usize) -> (r: &FeatureEncoding)
        requires
            feature < self@.len(),
        ensures
            r@ == self@[feature as int],
    {
        &self.features[feature]
    }

    /// The value of `key` for categorical feature `feature` (prior if unseen).
    pub fn value(&self, feature: usize, key: u32) -> (r: u64)
        requires
            feature < self@.len(),
        ensures
            r == lookup(self@[feature as int], key),
    {
        self.features[feature].value(key)
    }

    /// Prior of a feature (bits).
    pub fn prior(&self, feature: usize) -> (r: u64)
        requires
            feature < self@.len(),
        ensures
            r == self@[feature as int].prior,
    {
        self.features[feature].prior()
    }

    /// Smoothing alpha of a feature (bits).
    pub fn alpha(&self, feature: usize) -> (r: u64)
        requires
            feature < self@.len(),
        ensures
            r == self@[feature as int].alpha,
    {
        self.features[feature].alpha()
    }

    /// A feature's entries sorted by key.
    pub fn entries(&self, feature: usize) -> (r: Vec<(u32, u64)>)
        requires
            feature < self@.len(),
        ensures
            r@ == self@[feature as int].entries,
    {
        self.features[feature].entries()
    }

    /// Encodes one categorical column for prediction: a missing row, or one
    /// without a key, stays `None`; any other row takes its key's value
    /// (the prior for a key never seen in training).
    pub fn apply_to_column(&self, feature: usize, missing: &Vec<bool>, keys: &Vec<Option<u32>>) -> (r: Vec<Option<u64>>)
        requires
            feature < self@.len(),
            missing@.len() == keys@.len(),
        ensures
            r@.len() == keys@.len(),
            forall|i: int| 0 <= i < keys@.len() ==> #[trigger] r@[i] == encoded_cell(self@[feature as int], missing@[i], keys@[i]),
    {
        let mut out: Vec<Option<u64>> = Vec::new();
        let mut i: usize = 0;
        while i < keys.len()
            invariant
                feature < self@.len(),
                missing@.len() == keys@.len(),
                i <= keys@.len(),
                out@.len() == i,
                forall|j: int| 0 <= j < i ==> #[trigger] out@[j] == encoded_cell(self@[feature as int], missing@[j], keys@[j]),
            decreases keys@.len() - i,
        {
            let cell = if missing[i] {
                None
            } else {
                match keys[i] {
                    Some(k) => Some(self.value(feature, k)),
                    None => None,
                }
            };
            out.push(cell);
            i = i + 1;
        }
        out
    }
}

/// A categorical cell after encoding.
pub open spec fn encoded_cell(enc: FeatureEncodingView, missing: bool, key: Option<u32>) -> Option<u64> {
    if missing {
        None
    } else {
        match key {
            Some(k) => Some(lookup(enc, k)),
            None => None,
        }
    }
}

/// A dictionary larger than the limit (a feature without one passes).
pub open spec fn over_limit(len: Option<usize>, limit: usize) -> bool {
    len matches Some(n) && n > limit
}

/// Checks the dictionary sizes of the categorical features, in order,
/// against the most categories a feature may have: `Err((i, n))` names the
/// first position `i` whose dictionary holds `n > limit` keys.
pub fn check_category_counts(dict_lens: &Vec<Option<usize>>, limit: usize) -> (r: Result<(), (usize, usize)>)
    ensures
        r is Ok <==> forall|j: int| 0 <= j < dict_lens@.len() ==> !over_limit(#[trigger] dict_lens@[j], limit),
        r matches Err((i, n)) ==> {
            &&& i < dict_lens@.len()
            &&& dict_lens@[i as int] == Some(n)
            &&& n > limit
            &&& forall|j: int| 0 <= j < i ==> !over_limit(#[trigger] dict_lens@[j], limit)
        },
{
    let mut i: usize = 0;
    while i < dict_lens.len()
        invariant
            i <= dict_lens@.len(),
            forall|j: int| 0 <= j < i ==> !over_limit(#[trigger] dict_lens@[j], limit),
        decreases dict_lens@.len() - i,
    {
        if let Some(n) = dict_lens[i] {
            if n > limit {
                return Err((i, n));
            }
        }
        i = i + 1;
    }
    Ok(())
}

} // verus!
