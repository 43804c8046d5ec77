//! Keys of metric series: a metric name together with its dimensions.
//!
//! The dimensions of a key are kept in ascending order of dimension name, so
//! that two keys built from the same dimensions are equal field by field and
//! hash alike, whatever order the dimensions were handed over in.
//!
//! Names are ordered lexicographically by character code point, which is the
//! order `String` itself has (UTF-8 preserves code point order).
use vstd::prelude::*;
use vstd::string::*;
use std::collections::HashMap;

verus! {

/// The hasher of the dimension maps of records.
#[verifier::external_type_specification]
#[verifier::external_body]
pub struct ExAhashRandomState(ahash::RandomState);

/// What a dimension map holds: dimension name to dimension value.
pub uninterp spec fn dimension_map(m: HashMap<String, String, ahash::RandomState>) -> Map<
    Seq<char>,
    Seq<char>,
>;

/// The entries of a dimension map (`std::collections::HashMap::iter`, each
/// entry cloned). The contract claims that every entry of the map is handed
/// out exactly once, as HashMap iteration does; the order it comes in is the
/// map's iteration order and is not stated.
#[verifier::external_body]
fn dimension_entries(m: &HashMap<String, String, ahash::RandomState>) -> (v: Vec<(String, String)>)
    ensures
        forall|i: int, j: int| 0 <= i < j < v.len() ==> v[i].0@ != v[j].0@,
        forall|i: int|
            0 <= i < v.len() ==> dimension_map(*m).contains_key(#[trigger] v[i].0@) && dimension_map(
                *m,
            )[v[i].0@] == v[i].1@,
        forall|k: Seq<char>|
            #[trigger] dimension_map(*m).contains_key(k) ==> exists|i: int|
                0 <= i < v.len() && #[trigger] v[i].0@ == k,
{
    m.iter().map(|(k, v)| (k.clone(), v.clone())).collect()
}

/// Lexicographic order on names, by character code point.
pub open spec fn name_lt(a: Seq<char>, b: Seq<char>) -> bool
    decreases a.len(),
{
    if a.len() == 0 {
        b.len() > 0
    } else if b.len() == 0 {
        false
    } else if a[0] != b[0] {
        (a[0] as int) < (b[0] as int)
    } else {
        name_lt(a.drop_first(), b.drop_first())
    }
}

/// A dimension list whose names are strictly ascending.
pub open spec fn sorted_by_name(s: Seq<(Seq<char>, Seq<char>)>) -> bool {
    forall|i: int, j: int| 0 <= i < j < s.len() ==> name_lt(s[i].0, s[j].0)
}

/// The dimension list `s` holds exactly the entries of the map `m`.
pub open spec fn represents(s: Seq<(Seq<char>, Seq<char>)>, m: Map<Seq<char>, Seq<char>>) -> bool {
    &&& forall|i: int| 0 <= i < s.len() ==> m.contains_key(#[trigger] s[i].0) && m[s[i].0] == s[i].1
    &&& forall|k: Seq<char>| #[trigger] m.contains_key(k) ==> exists|i: int|
        0 <= i < s.len() && #[trigger] s[i].0 == k
}

/// The views of a list of string pairs.
pub open spec fn pair_views(v: Seq<(String, String)>) -> Seq<(Seq<char>, Seq<char>)> {
    v.map_values(|p: (String, String)| (p.0@, p.1@))
}

proof fn lemma_name_lt_irreflexive(a: Seq<char>)
    ensures
        !name_lt(a, a),
    decreases a.len(),
{
    if a.len() > 0 {
        lemma_name_lt_irreflexive(a.drop_first());
    }
}

proof fn lemma_name_lt_asymmetric(a: Seq<char>, b: Seq<char>)
    requires
        name_lt(a, b),
    ensures
        !name_lt(b, a),
    decreases a.len(),
{
    if a.len() > 0 && b.len() > 0 && a[0] == b[0] {
        lemma_name_lt_asymmetric(a.drop_first(), b.drop_first());
    }
}

proof fn lemma_name_lt_transitive(a: Seq<char>, b: Seq<char>, c: Seq<char>)
    requires
        name_lt(a, b),
        name_lt(b, c),
    ensures
        name_lt(a, c),
    decreases a.len(),
{
    if a.len() > 0 && b.len() > 0 && c.len() > 0 && a[0] == b[0] && b[0] == c[0] {
        lemma_name_lt_transitive(a.drop_first(), b.drop_first(), c.drop_first());
    }
}

proof fn lemma_name_lt_total(a: Seq<char>, b: Seq<char>)
    requires
        a != b,
    ensures
        name_lt(a, b) || name_lt(b, a),
    decreases a.len(),
{
    if a.len() > 0 && b.len() > 0 && a[0] == b[0] {
        if a.drop_first() == b.drop_first() {
            assert(a =~= seq![a[0]] + a.drop_first());
            assert(b =~= seq![b[0]] + b.drop_first());
        }
        lemma_name_lt_total(a.drop_first(), b.drop_first());
    } else if a.len() > 0 && b.len() > 0 {
        assert((a[0] as int) != (b[0] as int));
    } else if a.len() == 0 && b.len() == 0 {
        assert(a =~= b);
    }
}

/// Whether `a` comes before `b` in name order.
fn name_less(a: &str, b: &str) -> (r: bool)
    ensures
        r == name_lt(a@, b@),
{
    let la = a.unicode_len();
    let lb = b.unicode_len();
    let mut i: usize = 0;
    proof {
        assert(a@.skip(0) =~= a@);
        assert(b@.skip(0) =~= b@);
    }
    while i < la && i < lb
        invariant
            la == a@.len(),
            lb == b@.len(),
            0 <= i <= la,
            i <= lb,
            name_lt(a@, b@) == name_lt(a@.skip(i as int), b@.skip(i as int)),
        decreases la - i,
    {
        let ca = a.get_char(i);
        let cb = b.get_char(i);
        proof {
            assert(a@.skip(i as int)[0] == ca);
            assert(b@.skip(i as int)[0] == cb);
        }
        if ca != cb {
            return (ca as u32) < (cb as u32);
        }
        proof {
            assert(a@.skip(i as int).drop_first() =~= a@.skip(i + 1));
            assert(b@.skip(i as int).drop_first() =~= b@.skip(i + 1));
        }
        i = i + 1;
    }
    i == la && i < lb
}

proof fn lemma_insert_keeps_sorted(rv: Seq<(Seq<char>, Seq<char>)>, p: int, item: (Seq<char>, Seq<char>))
    requires
        sorted_by_name(rv),
        0 <= p <= rv.len(),
        forall|a: int| 0 <= a < p ==> name_lt(#[trigger] rv[a].0, item.0),
        p < rv.len() ==> name_lt(item.0, rv[p].0),
    ensures
        sorted_by_name(rv.insert(p, item)),
{
    let nv = rv.insert(p, item);
    assert forall|a: int, b: int| 0 <= a < b < nv.len() implies name_lt(nv[a].0, nv[b].0) by {
        if b < p {
        } else if b == p {
        } else if a < p {
            assert(nv[b] == rv[b - 1]);
            if b - 1 > p {
                lemma_name_lt_transitive(item.0, rv[p].0, rv[b - 1].0);
            }
            lemma_name_lt_transitive(nv[a].0, item.0, nv[b].0);
        } else if a == p {
            assert(nv[b] == rv[b - 1]);
            if b - 1 > p {
                lemma_name_lt_transitive(item.0, rv[p].0, rv[b - 1].0);
            }
        } else {
            assert(nv[a] == rv[a - 1]);
            assert(nv[b] == rv[b - 1]);
        }
    }
}

proof fn lemma_new_name_is_fresh(rv: Seq<(Seq<char>, Seq<char>)>, e: Seq<(Seq<char>, Seq<char>)>, i: int)
    requires
        0 <= i < e.len(),
        forall|a: int, b: int| 0 <= a < b < e.len() ==> e[a].0 != e[b].0,
        rv.to_multiset() == e.take(i).to_multiset(),
    ensures
        forall|a: int| 0 <= a < rv.len() ==> #[trigger] rv[a].0 != e[i].0,
{
    broadcast use vstd::seq_lib::to_multiset_contains;

    assert forall|a: int| 0 <= a < rv.len() implies #[trigger] rv[a].0 != e[i].0 by {
        assert(rv.contains(rv[a]));
        assert(rv.to_multiset().count(rv[a]) > 0);
        assert(e.take(i).to_multiset().count(rv[a]) > 0);
        assert(e.take(i).contains(rv[a]));
        let j = choose|j: int| 0 <= j < e.take(i).len() && e.take(i)[j] == rv[a];
        assert(e[j].0 != e[i].0);
    }
}

/// Position at which `name` goes into a list sorted by name.
fn insertion_point(r: &Vec<(String, String)>, name: &str) -> (p: usize)
    requires
        sorted_by_name(pair_views(r@)),
        forall|a: int| 0 <= a < r.len() ==> #[trigger] pair_views(r@)[a].0 != name@,
    ensures
        p <= r.len(),
        forall|a: int| 0 <= a < p ==> name_lt(#[trigger] pair_views(r@)[a].0, name@),
        p < r.len() ==> name_lt(name@, pair_views(r@)[p as int].0),
{
    let ghost rv = pair_views(r@);
    let len = r.len();
    let mut p: usize = 0;
    while p < len && name_less(r[p].0.as_str(), name)
        invariant
            len == r.len(),
            rv == pair_views(r@),
            0 <= p <= len,
            forall|a: int| 0 <= a < p ==> name_lt(#[trigger] rv[a].0, name@),
        decreases len - p,
    {
        p = p + 1;
    }
    proof {
        if p < len {
            assert(rv[p as int].0 == r[p as int].0@);
            assert(!name_lt(rv[p as int].0, name@));
            lemma_name_lt_total(rv[p as int].0, name@);
        }
    }
    p
}

proof fn lemma_pair_views_distinct(entries: Seq<(String, String)>)
    requires
        forall|i: int, j: int| 0 <= i < j < entries.len() ==> entries[i].0@ != entries[j].0@,
    ensures
        forall|a: int, b: int|
            0 <= a < b < pair_views(entries).len() ==> pair_views(entries)[a].0 != pair_views(
                entries,
            )[b].0,
{
    let e = pair_views(entries);
    assert forall|a: int, b: int| 0 <= a < b < e.len() implies e[a].0 != e[b].0 by {
        assert(e[a].0 == entries[a].0@);
        assert(e[b].0 == entries[b].0@);
    }
}

/// Put a list of dimensions with distinct names into ascending name order.
fn sort_dimensions(entries: Vec<(String, String)>) -> (r: Vec<(String, String)>)
    requires
        forall|i: int, j: int| 0 <= i < j < entries.len() ==> entries[i].0@ != entries[j].0@,
    ensures
        sorted_by_name(pair_views(r@)),
        pair_views(r@).to_multiset() == pair_views(entries@).to_multiset(),
{
    broadcast use vstd::seq_lib::to_multiset_build, vstd::seq_lib::to_multiset_insert;

    let ghost e = pair_views(entries@);
    proof {
        lemma_pair_views_distinct(entries@);
        assert(e.take(0) =~= Seq::<(Seq<char>, Seq<char>)>::empty());
        assert(pair_views(Seq::<(String, String)>::empty()) =~= Seq::<(Seq<char>, Seq<char>)>::empty());
    }
    let n = entries.len();
    let mut r: Vec<(String, String)> = Vec::new();
    let mut i: usize = 0;
    while i < n
        invariant
            n == entries.len(),
            e == pair_views(entries@),
            n == e.len(),
            forall|a: int, b: int| 0 <= a < b < e.len() ==> e[a].0 != e[b].0,
            0 <= i <= n,
            sorted_by_name(pair_views(r@)),
            pair_views(r@).to_multiset() == e.take(i as int).to_multiset(),
        decreases n - i,
    {
        let name = entries[i].0.clone();
        let value = entries[i].1.clone();
        let ghost rv = pair_views(r@);
        let ghost item = (name@, value@);
        proof {
            assert(item == e[i as int]);
            lemma_new_name_is_fresh(rv, e, i as int);
        }
        let p = insertion_point(&r, name.as_str());
        r.insert(p, (name, value));
        proof {
            assert(pair_views(r@) =~= rv.insert(p as int, item));
            lemma_insert_keeps_sorted(rv, p as int, item);
            assert(e.take(i + 1) =~= e.take(i as int).push(item));
            vstd::seq_lib::to_multiset_insert(rv, p as int, item);
            vstd::seq_lib::to_multiset_build(e.take(i as int), item);
        }
        i = i + 1;
    }
    proof {
        assert(e.take(n as int) =~= e);
    }
    r
}

/// Abstract key of a metric series.
pub struct MetricKeyModel {
    /// Dimensions as `(name, value)` pairs, ascending by name.
    pub dimensions: Seq<(Seq<char>, Seq<char>)>,
    /// Name of the metric.
    pub metric_name: Seq<char>,
}

/// Key for identifying unique metric series (dimensions + metric name).
#[derive(Debug, Clone, PartialEq, Eq, Hash)]
pub struct MetricKey {
    metric_name: String,
    dimensions: Vec<(String, String)>,
}

impl View for MetricKey {
    type V = MetricKeyModel;

    closed spec fn view(&self) -> MetricKeyModel {
        MetricKeyModel { dimensions: pair_views(self.dimensions@), metric_name: self.metric_name@ }
    }
}

impl MetricKeyModel {
    /// This is the key of the metric `name` with the dimensions `dims`.
    pub open spec fn is_key_of(self, dims: Map<Seq<char>, Seq<char>>, name: Seq<char>) -> bool {
        &&& self.metric_name == name
        &&& sorted_by_name(self.dimensions)
        &&& represents(self.dimensions, dims)
    }
}

proof fn lemma_sorted_entries_represent(
    r: Seq<(Seq<char>, Seq<char>)>,
    e: Seq<(Seq<char>, Seq<char>)>,
    m: Map<Seq<char>, Seq<char>>,
)
    requires
        r.to_multiset() == e.to_multiset(),
        represents(e, m),
    ensures
        represents(r, m),
{
    broadcast use vstd::seq_lib::to_multiset_contains;

    assert forall|i: int| 0 <= i < r.len() implies m.contains_key(#[trigger] r[i].0) && m[r[i].0]
        == r[i].1 by {
        assert(r.contains(r[i]));
        assert(r.to_multiset().count(r[i]) > 0);
        assert(e.to_multiset().count(r[i]) > 0);
        assert(e.contains(r[i]));
        let j = choose|j: int| 0 <= j < e.len() && e[j] == r[i];
        assert(m.contains_key(e[j].0));
    }
    assert forall|k: Seq<char>| #[trigger] m.contains_key(k) implies exists|i: int|
        0 <= i < r.len() && #[trigger] r[i].0 == k by {
        let j = choose|j: int| 0 <= j < e.len() && #[trigger] e[j].0 == k;
        assert(e.contains(e[j]));
        assert(e.to_multiset().count(e[j]) > 0);
        assert(r.to_multiset().count(e[j]) > 0);
        assert(r.contains(e[j]));
        let i = choose|i: int| 0 <= i < r.len() && r[i] == e[j];
        assert(r[i].0 == k);
    }
}

/// Entries handed out by `dimension_entries` represent the map.
proof fn lemma_entries_represent(entries: Seq<(String, String)>, m: Map<Seq<char>, Seq<char>>)
    requires
        forall|i: int|
            0 <= i < entries.len() ==> m.contains_key(#[trigger] entries[i].0@) && m[entries[i].0@]
                == entries[i].1@,
        forall|k: Seq<char>| #[trigger] m.contains_key(k) ==> exists|i: int|
            0 <= i < entries.len() && #[trigger] entries[i].0@ == k,
    ensures
        represents(pair_views(entries), m),
{
    let e = pair_views(entries);
    assert forall|i: int| 0 <= i < e.len() implies m.contains_key(#[trigger] e[i].0) && m[e[i].0]
        == e[i].1 by {
        assert(m.contains_key(entries[i].0@));
    }
    assert forall|k: Seq<char>| #[trigger] m.contains_key(k) implies exists|i: int|
        0 <= i < e.len() && #[trigger] e[i].0 == k by {
        let i = choose|i: int| 0 <= i < entries.len() && #[trigger] entries[i].0@ == k;
        assert(e[i].0 == k);
    }
}

impl MetricKey {
    fn from_entries(entries: Vec<(String, String)>, metric_name: String, m: Ghost<Map<Seq<char>, Seq<char>>>) -> (k: Self)
        requires
            forall|i: int, j: int| 0 <= i < j < entries.len() ==> entries[i].0@ != entries[j].0@,
            represents(pair_views(entries@), m@),
        ensures
            k@.is_key_of(m@, metric_name@),
    {
        let sorted = sort_dimensions(entries);
        proof {
            lemma_sorted_entries_represent(pair_views(sorted@), pair_views(entries@), m@);
        }
        MetricKey { dimensions: sorted, metric_name }
    }

    /// Create a new metric key.
    pub fn new(dimensions: HashMap<String, String, ahash::RandomState>, metric_name: String) -> (k: Self)
        ensures
            k@.is_key_of(dimension_map(dimensions), metric_name@),
    {
        let entries = dimension_entries(&dimensions);
        proof {
            lemma_entries_represent(entries@, dimension_map(dimensions));
        }
        Self::from_entries(entries, metric_name, Ghost(dimension_map(dimensions)))
    }

    /// Create a metric key from the dimensions of a record and a metric name.
    pub fn from_record(record_dimensions: &HashMap<String, String, ahash::RandomState>, metric_name: &str) -> (k: Self)
        ensures
            k@.is_key_of(dimension_map(*record_dimensions), metric_name@),
    {
        let entries = dimension_entries(record_dimensions);
        proof {
            lemma_entries_represent(entries@, dimension_map(*record_dimensions));
        }
        Self::from_entries(entries, String::from_str(metric_name), Ghost(dimension_map(*record_dimensions)))
    }

    /// The dimensions, ascending by name.
    pub fn dimensions(&self) -> (d: &Vec<(String, String)>)
        ensures
            pair_views(d@) == self@.dimensions,
    {
        &self.dimensions
    }

    /// The name of the metric.
    pub fn metric_name(&self) -> (n: &String)
        ensures
            n@ == self@.metric_name,
    {
        &self.metric_name
    }
}

/// A key is determined by its metric name and its dimension map: keys built
/// from the same dimensions, handed over in any order, are equal (and so
/// compare and hash alike).
pub proof fn lemma_key_determined_by_dimensions(
    k1: MetricKeyModel,
    k2: MetricKeyModel,
    dims: Map<Seq<char>, Seq<char>>,
    name: Seq<char>,
)
    requires
        k1.is_key_of(dims, name),
        k2.is_key_of(dims, name),
    ensures
        k1 == k2,
{
    lemma_sorted_represent_unique(k1.dimensions, k2.dimensions, dims);
}

proof fn lemma_sorted_represent_unique(
    a: Seq<(Seq<char>, Seq<char>)>,
    b: Seq<(Seq<char>, Seq<char>)>,
    m: Map<Seq<char>, Seq<char>>,
)
    requires
        sorted_by_name(a),
        sorted_by_name(b),
        represents(a, m),
        represents(b, m),
    ensures
        a == b,
    decreases a.len() + b.len(),
{
    if a.len() == 0 {
        if b.len() > 0 {
            assert(m.contains_key(b[0].0));
        }
        assert(a =~= b);
    } else if b.len() == 0 {
        assert(m.contains_key(a[0].0));
    } else {
        // The first entries are both the least name of the map.
        let ja = choose|j: int| 0 <= j < b.len() && #[trigger] b[j].0 == a[0].0;
        let ib = choose|i: int| 0 <= i < a.len() && #[trigger] a[i].0 == b[0].0;
        if ja > 0 {
            assert(name_lt(b[0].0, b[ja].0));
            if ib > 0 {
                assert(name_lt(a[0].0, a[ib].0));
                lemma_name_lt_asymmetric(a[0].0, b[0].0);
            } else {
                lemma_name_lt_irreflexive(a[0].0);
            }
        }
        assert(a[0].0 == b[0].0);
        assert(a[0] == b[0]);
        let m2 = m.remove(a[0].0);
        assert forall|i: int| 0 <= i < a.drop_first().len() implies m2.contains_key(#[trigger] a.drop_first()[i].0)
            && m2[a.drop_first()[i].0] == a.drop_first()[i].1 by {
            assert(name_lt(a[0].0, a[i + 1].0));
            lemma_name_lt_irreflexive(a[0].0);
        }
        assert forall|k: Seq<char>| #[trigger] m2.contains_key(k) implies exists|i: int|
            0 <= i < a.drop_first().len() && #[trigger] a.drop_first()[i].0 == k by {
            let i = choose|i: int| 0 <= i < a.len() && #[trigger] a[i].0 == k;
            assert(a.drop_first()[i - 1].0 == k);
        }
        assert forall|i: int| 0 <= i < b.drop_first().len() implies m2.contains_key(#[trigger] b.drop_first()[i].0)
            && m2[b.drop_first()[i].0] == b.drop_first()[i].1 by {
            assert(name_lt(b[0].0, b[i + 1].0));
            lemma_name_lt_irreflexive(b[0].0);
        }
        assert forall|k: Seq<char>| #[trigger] m2.contains_key(k) implies exists|i: int|
            0 <= i < b.drop_first().len() && #[trigger] b.drop_first()[i].0 == k by {
            let i = choose|i: int| 0 <= i < b.len() && #[trigger] b[i].0 == k;
            assert(b.drop_first()[i - 1].0 == k);
        }
        lemma_sorted_represent_unique(a.drop_first(), b.drop_first(), m2);
        assert(a =~= seq![a[0]] + a.drop_first());
        assert(b =~= seq![b[0]] + b.drop_first());
    }
}

/// A key keeps every dimension of its map, each with its value, and nothing
/// else: it has exactly as many dimensions as the map has entries.
pub proof fn lemma_key_keeps_every_dimension(
    k: MetricKeyModel,
    dims: Map<Seq<char>, Seq<char>>,
    name: Seq<char>,
)
    requires
        k.is_key_of(dims, name),
    ensures
        dims.dom().finite(),
        k.dimensions.len() == dims.dom().len(),
        forall|d: Seq<char>| #[trigger] dims.contains_key(d) ==> exists|i: int|
            0 <= i < k.dimensions.len() && k.dimensions[i] == (d, dims[d]),
{
    let s = k.dimensions;
    let names = s.map_values(|p: (Seq<char>, Seq<char>)| p.0);
    assert forall|a: int, b: int| 0 <= a < names.len() && 0 <= b < names.len() && a != b implies names[a]
        != names[b] by {
        if a < b {
            assert(name_lt(s[a].0, s[b].0));
            lemma_name_lt_irreflexive(s[a].0);
        } else {
            assert(name_lt(s[b].0, s[a].0));
            lemma_name_lt_irreflexive(s[b].0);
        }
    }
    assert(names.no_duplicates());
    names.unique_seq_to_set();
    assert forall|d: Seq<char>| #[trigger] names.to_set().contains(d) <==> dims.dom().contains(d) by {
        if names.to_set().contains(d) {
            assert(names.contains(d));
            let i = choose|i: int| 0 <= i < names.len() && names[i] == d;
            assert(dims.contains_key(s[i].0));
        }
        if dims.dom().contains(d) {
            let i = choose|i: int| 0 <= i < s.len() && #[trigger] s[i].0 == d;
            assert(names[i] == d);
            assert(names.contains(d));
        }
    }
    assert(names.to_set() =~= dims.dom());
    assert forall|d: Seq<char>| #[trigger] dims.contains_key(d) implies exists|i: int|
        0 <= i < s.len() && s[i] == (d, dims[d]) by {
        let i = choose|i: int| 0 <= i < s.len() && #[trigger] s[i].0 == d;
        assert(s[i] == (d, dims[d]));
    }
}

} // verus!
