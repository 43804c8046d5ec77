//! Sparse histogram over IEEE-754 double samples.
//!
//! Samples are handed to the histogram as the raw bit pattern of an `f64`
//! (`f64::to_bits`). A sample is counted in the bucket whose bit pattern is
//! the sample's bits with the low mantissa bits cleared by the precision
//! mask. Buckets are kept in ascending order of the value they stand for, so
//! that a rank (percentile) query is a single cumulative walk.
//!
//! Value order is decided on the bit patterns: for every double that is not
//! NaN, `a < b` as floats exactly when `order_key(a) < order_key(b)`, and
//! `-0.0` and `+0.0` share one key, as they compare equal as floats.
use vstd::prelude::*;

verus! {

/// Bit pattern of `f64::INFINITY`.
pub const POSITIVE_INFINITY_BITS: u64 = 0x7ff0_0000_0000_0000u64;

/// Bit pattern of `f64::NEG_INFINITY`.
pub const NEGATIVE_INFINITY_BITS: u64 = 0xfff0_0000_0000_0000u64;

/// Bit pattern of `0.0`.
pub const ZERO_BITS: u64 = 0u64;

/// Precision mask that keeps the sign, the exponent and 7 bits of mantissa.
pub open spec fn spec_default_precision_mask() -> u64 {
    0xffff_e000_0000_0000u64
}

/// Default precision mask (7 bits of precision).
pub fn default_precision_mask() -> (mask: u64)
    ensures
        mask == spec_default_precision_mask(),
{
    0xffff_e000_0000_0000u64
}

/// The 11-bit exponent field of a double given by its bits.
pub open spec fn exponent_field(bits: u64) -> int {
    (bits / 0x10_0000_0000_0000u64) as int % 0x800
}

/// A double is finite (neither infinite nor NaN) exactly when its exponent
/// field is not all ones.
pub open spec fn is_finite_bits(bits: u64) -> bool {
    exponent_field(bits) != 0x7ff
}

/// Position of a (non-NaN) double in value order.
pub open spec fn order_key(bits: u64) -> int {
    if bits < 0x8000_0000_0000_0000u64 {
        bits as int
    } else {
        -((bits - 0x8000_0000_0000_0000u64) as int)
    }
}

/// The bucket of a sample: its bits with the bits outside the mask cleared.
pub open spec fn bucket_of(bits: u64, mask: u64) -> u64 {
    bits & mask
}

/// Whether the double given by `bits` is finite.
pub fn bits_are_finite(bits: u64) -> (r: bool)
    ensures
        r == is_finite_bits(bits),
        r == (bits % 0x8000_0000_0000_0000u64 < POSITIVE_INFINITY_BITS),
{
    proof {
        lemma_finite_iff_magnitude_below_infinity(bits);
    }
    (bits / 0x10_0000_0000_0000u64) % 0x800 != 0x7ff
}

/// The value-order key of the double given by `bits`.
pub fn bits_order_key(bits: u64) -> (k: i64)
    ensures
        k as int == order_key(bits),
{
    if bits < 0x8000_0000_0000_0000u64 {
        bits as i64
    } else {
        let mag: u64 = bits - 0x8000_0000_0000_0000u64;
        -(mag as i64)
    }
}

/// Sum of the counts of a bucket sequence.
pub open spec fn total(s: Seq<(u64, u64)>) -> nat
    decreases s.len(),
{
    if s.len() == 0 {
        0
    } else {
        total(s.drop_last()) + s.last().1 as nat
    }
}

/// Sum of the counts of the first `n` buckets.
pub open spec fn prefix_count(s: Seq<(u64, u64)>, n: int) -> nat {
    total(s.take(n))
}

/// Buckets strictly ascending in value order (no bucket twice).
pub open spec fn ascending(s: Seq<(u64, u64)>) -> bool {
    forall|i: int, j: int| 0 <= i < j < s.len() ==> order_key(s[i].0) < order_key(s[j].0)
}

/// Abstract state of a sparse histogram.
pub struct HistogramModel {
    /// `(bucket bits, count)` pairs in ascending value order.
    pub buckets: Seq<(u64, u64)>,
    /// Bits of the least sample seen (`+inf` when empty).
    pub min_bits: u64,
    /// Bits of the greatest sample seen (`-inf` when empty).
    pub max_bits: u64,
    /// Number of samples counted.
    pub count: nat,
    /// Mask that selects the bits kept in a bucket.
    pub precision_mask: u64,
}

impl HistogramModel {
    /// Invariant of every histogram.
    pub open spec fn well_formed(self) -> bool {
        &&& ascending(self.buckets)
        &&& forall|i: int| 0 <= i < self.buckets.len() ==> #[trigger] self.buckets[i].1 > 0
        &&& total(self.buckets) == self.count
        &&& self.count <= u64::MAX
        &&& self.count == 0 ==> self.min_bits == POSITIVE_INFINITY_BITS && self.max_bits
            == NEGATIVE_INFINITY_BITS
        &&& self.count > 0 ==> order_key(self.min_bits) <= order_key(self.max_bits)
    }

    /// Index `i` is the first bucket at which the cumulative count reaches `target`.
    pub open spec fn reaches(self, target: int, i: int) -> bool {
        &&& 0 <= i < self.buckets.len()
        &&& prefix_count(self.buckets, i + 1) >= target
        &&& (i == 0 || prefix_count(self.buckets, i) < target)
    }

    /// `r` (bits of a double) is the answer of a rank query for `target` samples:
    /// `0.0` for an empty histogram, the first bucket whose cumulative count
    /// reaches `target`, or the maximum when no bucket reaches it.
    pub open spec fn is_rank_answer(self, target: int, r: u64) -> bool {
        if self.count == 0 {
            r == ZERO_BITS
        } else if target > self.count {
            r == self.max_bits
        } else {
            exists|i: int| self.reaches(target, i) && r == #[trigger] self.buckets[i].0
        }
    }

    /// `new` is `self` after offering the sample with bits `bits`.
    pub open spec fn sample_added(self, new: HistogramModel, bits: u64) -> bool {
        if !is_finite_bits(bits) {
            new == self
        } else {
            let b = bucket_of(bits, self.precision_mask);
            let s = self.buckets;
            &&& new.count == self.count + 1
            &&& new.precision_mask == self.precision_mask
            &&& new.min_bits == (if order_key(bits) < order_key(self.min_bits) {
                bits
            } else {
                self.min_bits
            })
            &&& new.max_bits == (if order_key(bits) > order_key(self.max_bits) {
                bits
            } else {
                self.max_bits
            })
            &&& (exists|i: int| 0 <= i < s.len() && order_key(#[trigger] s[i].0) == order_key(b))
                ==> exists|i: int|
                0 <= i < s.len() && order_key(#[trigger] s[i].0) == order_key(b) && new.buckets
                    == s.update(i, (s[i].0, (s[i].1 + 1) as u64))
            &&& !(exists|i: int| 0 <= i < s.len() && order_key(#[trigger] s[i].0) == order_key(b))
                ==> exists|i: int| 0 <= i <= s.len() && new.buckets == s.insert(i, (b, 1u64))
        }
    }
}

// ---------------------------------------------------------------------------
// Lemmas on bucket counts
// ---------------------------------------------------------------------------

proof fn lemma_total_update(s: Seq<(u64, u64)>, i: int, x: (u64, u64))
    requires
        0 <= i < s.len(),
    ensures
        total(s.update(i, x)) + s[i].1 == total(s) + x.1,
    decreases s.len(),
{
    let t = s.update(i, x);
    if i == s.len() - 1 {
        assert(t.drop_last() =~= s.drop_last());
    } else {
        assert(t.drop_last() =~= s.drop_last().update(i, x));
        lemma_total_update(s.drop_last(), i, x);
    }
}

proof fn lemma_total_insert(s: Seq<(u64, u64)>, i: int, x: (u64, u64))
    requires
        0 <= i <= s.len(),
    ensures
        total(s.insert(i, x)) == total(s) + x.1,
    decreases s.len(),
{
    let t = s.insert(i, x);
    if i == s.len() {
        assert(t.drop_last() =~= s);
    } else {
        assert(t.drop_last() =~= s.drop_last().insert(i, x));
        lemma_total_insert(s.drop_last(), i, x);
    }
}

proof fn lemma_elem_le_total(s: Seq<(u64, u64)>, i: int)
    requires
        0 <= i < s.len(),
    ensures
        s[i].1 <= total(s),
    decreases s.len(),
{
    if i < s.len() - 1 {
        lemma_elem_le_total(s.drop_last(), i);
    }
}

proof fn lemma_prefix_step(s: Seq<(u64, u64)>, n: int)
    requires
        0 <= n < s.len(),
    ensures
        prefix_count(s, n + 1) == prefix_count(s, n) + s[n].1,
{
    assert(s.take(n + 1).drop_last() =~= s.take(n));
}

proof fn lemma_prefix_full(s: Seq<(u64, u64)>)
    ensures
        prefix_count(s, s.len() as int) == total(s),
{
    assert(s.take(s.len() as int) =~= s);
}

proof fn lemma_prefix_monotone(s: Seq<(u64, u64)>, a: int, b: int)
    requires
        0 <= a <= b <= s.len(),
    ensures
        prefix_count(s, a) <= prefix_count(s, b),
    decreases b - a,
{
    if a < b {
        lemma_prefix_step(s, b - 1);
        lemma_prefix_monotone(s, a, b - 1);
    }
}

proof fn lemma_prefix_le_total(s: Seq<(u64, u64)>, n: int)
    requires
        0 <= n <= s.len(),
    ensures
        prefix_count(s, n) <= total(s),
{
    lemma_prefix_monotone(s, n, s.len() as int);
    lemma_prefix_full(s);
}

/// A finite double lies strictly between the two infinities in value order.
proof fn lemma_finite_between_infinities(bits: u64)
    requires
        is_finite_bits(bits),
    ensures
        order_key(NEGATIVE_INFINITY_BITS) < order_key(bits) < order_key(POSITIVE_INFINITY_BITS),
{
    let hi: int = (bits / 0x10_0000_0000_0000u64) as int;
    assert(hi < 0x1000);
    if bits < 0x8000_0000_0000_0000u64 {
        assert(hi < 0x800);
        assert(hi % 0x800 == hi);
        assert(hi < 0x7ff);
        assert(bits < 0x7ff0_0000_0000_0000u64);
    } else {
        assert(hi >= 0x800);
        assert(hi % 0x800 == hi - 0x800);
        assert(hi < 0xfff);
        assert(bits < 0xfff0_0000_0000_0000u64);
    }
}

// ---------------------------------------------------------------------------
// Laws of the histogram

/// A double is finite exactly when its magnitude (its bits without the sign)
/// is below the bits of infinity: every bit pattern below infinity is a
/// finite double, every one at or above it is an infinity or a NaN.
pub proof fn lemma_finite_iff_magnitude_below_infinity(bits: u64)
    ensures
        is_finite_bits(bits) <==> bits % 0x8000_0000_0000_0000u64 < POSITIVE_INFINITY_BITS,
{
    let hi: int = (bits / 0x10_0000_0000_0000u64) as int;
    let mag: int = (bits % 0x8000_0000_0000_0000u64) as int;
    assert(hi < 0x1000);
    if bits < 0x8000_0000_0000_0000u64 {
        assert(mag == bits);
        assert(hi % 0x800 == hi);
    } else {
        assert(mag == bits - 0x8000_0000_0000_0000u64);
        assert(hi >= 0x800);
        assert(hi % 0x800 == hi - 0x800);
    }
    assert(hi % 0x800 == mag / 0x10_0000_0000_0000);
}

/// A double is finite exactly when it lies strictly between the two
/// infinities in value order.
pub proof fn lemma_finite_iff_between_infinities(bits: u64)
    ensures
        is_finite_bits(bits) <==> (order_key(NEGATIVE_INFINITY_BITS) < order_key(bits) < order_key(
            POSITIVE_INFINITY_BITS,
        )),
{
    lemma_finite_iff_magnitude_below_infinity(bits);
}

/// Offering a sample that lies strictly between the infinities (any finite
/// double) counts it: the count grows by exactly one.
pub proof fn lemma_finite_sample_is_counted(h: HistogramModel, new: HistogramModel, bits: u64)
    requires
        h.sample_added(new, bits),
        order_key(NEGATIVE_INFINITY_BITS) < order_key(bits) < order_key(POSITIVE_INFINITY_BITS),
    ensures
        new.count == h.count + 1,
{
    lemma_finite_iff_between_infinities(bits);
}

// ---------------------------------------------------------------------------

/// Number of finite samples in a sequence of sample bits.
pub open spec fn finite_count(samples: Seq<u64>) -> nat
    decreases samples.len(),
{
    if samples.len() == 0 {
        0
    } else {
        finite_count(samples.drop_last()) + (if is_finite_bits(samples.last()) {
            1nat
        } else {
            0nat
        })
    }
}

proof fn lemma_reaching_index_unique(h: HistogramModel, t: int, i1: int, i2: int)
    requires
        h.reaches(t, i1),
        h.reaches(t, i2),
    ensures
        i1 == i2,
{
    if i1 < i2 {
        lemma_prefix_monotone(h.buckets, i1 + 1, i2);
    } else if i2 < i1 {
        lemma_prefix_monotone(h.buckets, i2 + 1, i1);
    }
}

/// A rank query has exactly one answer: the contract of
/// `SparseHistogram::percentile` determines its result.
pub proof fn lemma_rank_answer_unique(h: HistogramModel, target: int, r1: u64, r2: u64)
    requires
        h.well_formed(),
        h.is_rank_answer(target, r1),
        h.is_rank_answer(target, r2),
    ensures
        r1 == r2,
{
    if h.count > 0 && target <= h.count {
        let i1 = choose|i: int| h.reaches(target, i) && r1 == #[trigger] h.buckets[i].0;
        let i2 = choose|i: int| h.reaches(target, i) && r2 == #[trigger] h.buckets[i].0;
        lemma_reaching_index_unique(h, target, i1, i2);
    }
}

/// Percentiles are monotone: a higher rank (up to the number of samples)
/// never answers a lower value.
pub proof fn lemma_percentile_monotone(h: HistogramModel, t1: int, t2: int, r1: u64, r2: u64)
    requires
        h.well_formed(),
        t1 <= t2 <= h.count,
        h.is_rank_answer(t1, r1),
        h.is_rank_answer(t2, r2),
    ensures
        order_key(r1) <= order_key(r2),
{
    if h.count > 0 {
        let s = h.buckets;
        let i1 = choose|i: int| h.reaches(t1, i) && r1 == #[trigger] s[i].0;
        let i2 = choose|i: int| h.reaches(t2, i) && r2 == #[trigger] s[i].0;
        if i2 < i1 {
            lemma_prefix_monotone(s, i2 + 1, i1);
            assert(false);
        }
        if i1 < i2 {
            assert(order_key(s[i1].0) < order_key(s[i2].0));
        }
    }
}

/// The rank of all samples (the 100th percentile) answers the greatest bucket.
pub proof fn lemma_full_rank_is_greatest_bucket(h: HistogramModel, r: u64)
    requires
        h.well_formed(),
        h.count > 0,
        h.is_rank_answer(h.count as int, r),
    ensures
        h.buckets.len() > 0,
        r == h.buckets.last().0,
        forall|j: int| 0 <= j < h.buckets.len() ==> order_key(h.buckets[j].0) <= order_key(r),
{
    let s = h.buckets;
    if s.len() == 0 {
        assert(total(s) == 0);
    }
    let i = choose|i: int| h.reaches(h.count as int, i) && r == #[trigger] s[i].0;
    if i < s.len() - 1 {
        lemma_prefix_monotone(s, i + 1, s.len() - 1);
        lemma_prefix_step(s, s.len() - 1);
        lemma_prefix_full(s);
        assert(s[s.len() - 1].1 > 0);
        assert(false);
    }
}

/// The count of a histogram grows by exactly the number of finite samples
/// offered to it; infinite and NaN samples are never counted.
pub proof fn lemma_count_is_finite_samples(states: Seq<HistogramModel>, samples: Seq<u64>)
    requires
        states.len() == samples.len() + 1,
        forall|k: int|
            0 <= k < samples.len() ==> #[trigger] states[k].sample_added(states[k + 1], samples[k]),
    ensures
        states.last().count == states[0].count + finite_count(samples),
    decreases samples.len(),
{
    if samples.len() > 0 {
        let n = samples.len() - 1;
        assert(states[n].sample_added(states[n + 1], samples[n]));
        lemma_count_is_finite_samples(states.drop_last(), samples.drop_last());
        assert(states.drop_last().last() == states[n]);
    }
}

// ---------------------------------------------------------------------------
// Laws over a whole sequence of samples
// ---------------------------------------------------------------------------

/// Value-order key of the bucket of a sample.
pub open spec fn sample_key(x: u64, mask: u64) -> int {
    order_key(bucket_of(x, mask))
}

/// Number of finite samples whose bucket has key `k`.
pub open spec fn key_count(s: Seq<u64>, mask: u64, k: int) -> nat
    decreases s.len(),
{
    if s.len() == 0 {
        0
    } else {
        key_count(s.drop_last(), mask, k) + (if is_finite_bits(s.last()) && sample_key(
            s.last(),
            mask,
        ) == k {
            1nat
        } else {
            0nat
        })
    }
}

/// Number of finite samples whose bucket key is below `k`.
pub open spec fn count_keys_below(s: Seq<u64>, mask: u64, k: int) -> nat
    decreases s.len(),
{
    if s.len() == 0 {
        0
    } else {
        count_keys_below(s.drop_last(), mask, k) + (if is_finite_bits(s.last()) && sample_key(
            s.last(),
            mask,
        ) < k {
            1nat
        } else {
            0nat
        })
    }
}

/// Number of finite samples whose bucket key is at most `k`.
pub open spec fn count_keys_up_to(s: Seq<u64>, mask: u64, k: int) -> nat
    decreases s.len(),
{
    if s.len() == 0 {
        0
    } else {
        count_keys_up_to(s.drop_last(), mask, k) + (if is_finite_bits(s.last()) && sample_key(
            s.last(),
            mask,
        ) <= k {
            1nat
        } else {
            0nat
        })
    }
}

/// The histogram with no sample and the given precision mask.
pub open spec fn empty_histogram(mask: u64) -> HistogramModel {
    HistogramModel {
        buckets: Seq::empty(),
        min_bits: POSITIVE_INFINITY_BITS,
        max_bits: NEGATIVE_INFINITY_BITS,
        count: 0,
        precision_mask: mask,
    }
}

/// Each bucket counts the finite samples of its key.
pub open spec fn buckets_count_samples(m: HistogramModel, s: Seq<u64>) -> bool {
    forall|i: int|
        0 <= i < m.buckets.len() ==> #[trigger] m.buckets[i].1 == key_count(
            s,
            m.precision_mask,
            order_key(m.buckets[i].0),
        )
}

/// Each bucket is the bucket of an offered finite sample.
pub open spec fn buckets_from_samples(m: HistogramModel, s: Seq<u64>) -> bool {
    forall|i: int|
        0 <= i < m.buckets.len() ==> exists|j: int|
            0 <= j < s.len() && is_finite_bits(s[j]) && #[trigger] m.buckets[i].0 == bucket_of(
                s[j],
                m.precision_mask,
            )
}

/// Every offered finite sample has a bucket of its key.
pub open spec fn samples_have_buckets(m: HistogramModel, s: Seq<u64>) -> bool {
    forall|j: int|
        0 <= j < s.len() && is_finite_bits(s[j]) ==> exists|i: int|
            0 <= i < m.buckets.len() && order_key(#[trigger] m.buckets[i].0) == sample_key(
                s[j],
                m.precision_mask,
            )
}

/// The minimum and maximum are the least and the greatest finite sample.
pub open spec fn extremes_of_samples(m: HistogramModel, s: Seq<u64>) -> bool {
    &&& finite_count(s) > 0 ==> exists|j: int|
        0 <= j < s.len() && is_finite_bits(s[j]) && m.min_bits == #[trigger] s[j]
    &&& forall|j: int|
        0 <= j < s.len() && is_finite_bits(s[j]) ==> order_key(m.min_bits) <= order_key(
            #[trigger] s[j],
        )
    &&& finite_count(s) > 0 ==> exists|j: int|
        0 <= j < s.len() && is_finite_bits(s[j]) && m.max_bits == #[trigger] s[j]
    &&& forall|j: int|
        0 <= j < s.len() && is_finite_bits(s[j]) ==> order_key(#[trigger] s[j]) <= order_key(
            m.max_bits,
        )
}

/// `m` is what a histogram holds after the samples `s` were offered to it:
/// its count is the number of finite samples, each bucket is the bucket of
/// an offered finite sample and counts the finite samples of its key, every
/// finite sample has its bucket, and the minimum and maximum are the least
/// and the greatest finite sample.
pub open spec fn summarizes(m: HistogramModel, s: Seq<u64>) -> bool {
    &&& m.count == finite_count(s)
    &&& buckets_count_samples(m, s)
    &&& buckets_from_samples(m, s)
    &&& samples_have_buckets(m, s)
    &&& extremes_of_samples(m, s)
}

proof fn lemma_key_count_positive(s: Seq<u64>, mask: u64, k: int)
    requires
        key_count(s, mask, k) > 0,
    ensures
        exists|j: int| 0 <= j < s.len() && is_finite_bits(s[j]) && sample_key(#[trigger] s[j], mask) == k,
    decreases s.len(),
{
    if !(is_finite_bits(s.last()) && sample_key(s.last(), mask) == k) {
        lemma_key_count_positive(s.drop_last(), mask, k);
        let j = choose|j: int|
            0 <= j < s.drop_last().len() && is_finite_bits(s.drop_last()[j]) && sample_key(
                #[trigger] s.drop_last()[j],
                mask,
            ) == k;
        assert(s[j] == s.drop_last()[j]);
    } else {
        assert(s[s.len() - 1] == s.last());
    }
}

proof fn lemma_key_count_push(s: Seq<u64>, mask: u64, x: u64, k: int)
    ensures
        key_count(s.push(x), mask, k) == key_count(s, mask, k) + (if is_finite_bits(x) && sample_key(x, mask) == k { 1nat } else { 0nat }),
{
    assert(s.push(x).drop_last() =~= s);
}

/// When a sample's key has no bucket yet, no earlier sample has that key.
proof fn lemma_fresh_key_uncounted(m: HistogramModel, s: Seq<u64>, k: int)
    requires
        samples_have_buckets(m, s),
        !(exists|i: int| 0 <= i < m.buckets.len() && order_key(#[trigger] m.buckets[i].0) == k),
    ensures
        key_count(s, m.precision_mask, k) == 0,
{
    if key_count(s, m.precision_mask, k) > 0 {
        lemma_key_count_positive(s, m.precision_mask, k);
        let j = choose|j: int| 0 <= j < s.len() && is_finite_bits(s[j]) && sample_key(#[trigger] s[j], m.precision_mask) == k;
        let i = choose|i: int| 0 <= i < m.buckets.len() && order_key(#[trigger] m.buckets[i].0) == sample_key(s[j], m.precision_mask);
        assert(false);
    }
}

proof fn lemma_step_counts(m: HistogramModel, m2: HistogramModel, s: Seq<u64>, x: u64)
    requires
        m.well_formed(),
        m2.well_formed(),
        buckets_count_samples(m, s),
        samples_have_buckets(m, s),
        m.sample_added(m2, x),
        is_finite_bits(x),
    ensures
        buckets_count_samples(m2, s.push(x)),
{
    let t = s.push(x);
    let mask = m.precision_mask;
    let b = bucket_of(x, mask);
    let kx = sample_key(x, mask);
    let bs = m.buckets;
    let nb = m2.buckets;
    assert forall|i: int| 0 <= i < nb.len() implies #[trigger] nb[i].1 == key_count(t, mask, order_key(nb[i].0)) by {
        lemma_key_count_push(s, mask, x, order_key(nb[i].0));
        if exists|i: int| 0 <= i < bs.len() && order_key(#[trigger] bs[i].0) == kx {
            let i0 = choose|i: int|
                0 <= i < bs.len() && order_key(#[trigger] bs[i].0) == kx && nb == bs.update(i, (bs[i].0, (bs[i].1 + 1) as u64));
            if i != i0 {
                assert(nb[i] == bs[i]);
                assert(order_key(bs[i].0) != order_key(bs[i0].0));
            } else {
                lemma_elem_le_total(bs, i0);
                assert(m2.count == m.count + 1);
            }
        } else {
            let p = choose|p: int| 0 <= p <= bs.len() && nb == bs.insert(p, (b, 1u64));
            lemma_fresh_key_uncounted(m, s, kx);
            if i < p {
                assert(nb[i] == bs[i]);
            } else if i > p {
                assert(nb[i] == bs[i - 1]);
            } else {
                assert(nb[i] == (b, 1u64));
            }
        }
    }
}

proof fn lemma_step_representatives(m: HistogramModel, m2: HistogramModel, s: Seq<u64>, x: u64)
    requires
        m.well_formed(),
        buckets_from_samples(m, s),
        m.sample_added(m2, x),
    ensures
        buckets_from_samples(m2, s.push(x)),
{
    let t = s.push(x);
    let mask = m.precision_mask;
    let b = bucket_of(x, mask);
    let kx = sample_key(x, mask);
    let bs = m.buckets;
    let nb = m2.buckets;
    assert(t[s.len() as int] == x);
    assert forall|i: int| 0 <= i < nb.len() implies exists|j: int|
        0 <= j < t.len() && is_finite_bits(t[j]) && #[trigger] nb[i].0 == bucket_of(t[j], mask) by {
        if !is_finite_bits(x) {
            assert(nb[i].0 == bs[i].0);
            lemma_old_bucket_has_sample(m, s, x, i);
        } else if exists|i: int| 0 <= i < bs.len() && order_key(#[trigger] bs[i].0) == kx {
            let i0 = choose|i: int|
                0 <= i < bs.len() && order_key(#[trigger] bs[i].0) == kx && nb == bs.update(i, (bs[i].0, (bs[i].1 + 1) as u64));
            assert(nb[i].0 == bs[i].0);
            lemma_old_bucket_has_sample(m, s, x, i);
        } else {
            let p = choose|p: int| 0 <= p <= bs.len() && nb == bs.insert(p, (b, 1u64));
            if i == p {
                assert(nb[i].0 == bucket_of(t[s.len() as int], mask));
            } else if i < p {
                assert(nb[i] == bs[i]);
                lemma_old_bucket_has_sample(m, s, x, i);
            } else {
                assert(nb[i] == bs[i - 1]);
                lemma_old_bucket_has_sample(m, s, x, i - 1);
            }
        }
    }
}

proof fn lemma_old_bucket_has_sample(m: HistogramModel, s: Seq<u64>, x: u64, i: int)
    requires
        buckets_from_samples(m, s),
        0 <= i < m.buckets.len(),
    ensures
        exists|j: int|
            0 <= j < s.push(x).len() && is_finite_bits(s.push(x)[j]) && m.buckets[i].0 == bucket_of(
                #[trigger] s.push(x)[j],
                m.precision_mask,
            ),
{
    let j = choose|j: int| 0 <= j < s.len() && is_finite_bits(s[j]) && #[trigger] m.buckets[i].0 == bucket_of(s[j], m.precision_mask);
    assert(s.push(x)[j] == s[j]);
}

proof fn lemma_step_coverage(m: HistogramModel, m2: HistogramModel, s: Seq<u64>, x: u64)
    requires
        m.well_formed(),
        samples_have_buckets(m, s),
        m.sample_added(m2, x),
        is_finite_bits(x),
    ensures
        samples_have_buckets(m2, s.push(x)),
{
    let t = s.push(x);
    let mask = m.precision_mask;
    let b = bucket_of(x, mask);
    let kx = sample_key(x, mask);
    let bs = m.buckets;
    let nb = m2.buckets;
    assert(t[s.len() as int] == x);
    assert forall|j: int| 0 <= j < t.len() && is_finite_bits(t[j]) implies exists|i: int|
        0 <= i < nb.len() && order_key(#[trigger] nb[i].0) == sample_key(t[j], mask) by {
        if exists|i: int| 0 <= i < bs.len() && order_key(#[trigger] bs[i].0) == kx {
            let i0 = choose|i: int|
                0 <= i < bs.len() && order_key(#[trigger] bs[i].0) == kx && nb == bs.update(i, (bs[i].0, (bs[i].1 + 1) as u64));
            if j == s.len() {
                assert(nb[i0].0 == bs[i0].0);
            } else {
                assert(t[j] == s[j]);
                let i = choose|i: int| 0 <= i < bs.len() && order_key(#[trigger] bs[i].0) == sample_key(s[j], mask);
                assert(nb[i].0 == bs[i].0);
            }
        } else {
            let p = choose|p: int| 0 <= p <= bs.len() && nb == bs.insert(p, (b, 1u64));
            if j == s.len() {
                assert(nb[p].0 == b);
            } else {
                assert(t[j] == s[j]);
                let i = choose|i: int| 0 <= i < bs.len() && order_key(#[trigger] bs[i].0) == sample_key(s[j], mask);
                if i < p {
                    assert(nb[i] == bs[i]);
                } else {
                    assert(nb[i + 1] == bs[i]);
                }
            }
        }
    }
}

proof fn lemma_step_extremes(m: HistogramModel, m2: HistogramModel, s: Seq<u64>, x: u64)
    requires
        m.well_formed(),
        m.count == finite_count(s),
        extremes_of_samples(m, s),
        m.sample_added(m2, x),
        is_finite_bits(x),
    ensures
        extremes_of_samples(m2, s.push(x)),
{
    let t = s.push(x);
    lemma_finite_between_infinities(x);
    assert(t.drop_last() =~= s);
    assert forall|j: int| 0 <= j < s.len() implies #[trigger] t[j] == s[j] by {}
    assert(t[s.len() as int] == x);
    if m2.min_bits != x {
        assert(finite_count(s) > 0);
        let j = choose|j: int| 0 <= j < s.len() && is_finite_bits(s[j]) && m.min_bits == #[trigger] s[j];
        assert(t[j] == s[j]);
    }
    if m2.max_bits != x {
        assert(finite_count(s) > 0);
        let j = choose|j: int| 0 <= j < s.len() && is_finite_bits(s[j]) && m.max_bits == #[trigger] s[j];
        assert(t[j] == s[j]);
    }
}

proof fn lemma_skip_counts(m: HistogramModel, s: Seq<u64>, x: u64)
    requires
        buckets_count_samples(m, s),
        !is_finite_bits(x),
    ensures
        buckets_count_samples(m, s.push(x)),
{
    assert forall|i: int| 0 <= i < m.buckets.len() implies #[trigger] m.buckets[i].1 == key_count(
        s.push(x), m.precision_mask, order_key(m.buckets[i].0)) by {
        lemma_key_count_push(s, m.precision_mask, x, order_key(m.buckets[i].0));
    }
}

proof fn lemma_skip_coverage(m: HistogramModel, s: Seq<u64>, x: u64)
    requires
        samples_have_buckets(m, s),
        !is_finite_bits(x),
    ensures
        samples_have_buckets(m, s.push(x)),
{
    let t = s.push(x);
    assert forall|j: int| 0 <= j < t.len() && is_finite_bits(t[j]) implies exists|i: int|
        0 <= i < m.buckets.len() && order_key(#[trigger] m.buckets[i].0) == sample_key(t[j], m.precision_mask) by {
        assert(t[j] == s[j]);
    }
}

proof fn lemma_skip_extremes(m: HistogramModel, s: Seq<u64>, x: u64)
    requires
        extremes_of_samples(m, s),
        !is_finite_bits(x),
    ensures
        extremes_of_samples(m, s.push(x)),
{
    let t = s.push(x);
    assert(t.drop_last() =~= s);
    assert(finite_count(t) == finite_count(s));
    assert forall|j: int| 0 <= j < s.len() implies #[trigger] t[j] == s[j] by {}
    assert(t[s.len() as int] == x);
    if finite_count(t) > 0 {
        let j = choose|j: int| 0 <= j < s.len() && is_finite_bits(s[j]) && m.min_bits == #[trigger] s[j];
        assert(t[j] == s[j]);
        let j2 = choose|j: int| 0 <= j < s.len() && is_finite_bits(s[j]) && m.max_bits == #[trigger] s[j];
        assert(t[j2] == s[j2]);
    }
}

proof fn lemma_summarizes_step(m: HistogramModel, m2: HistogramModel, s: Seq<u64>, x: u64)
    requires
        m.well_formed(),
        m2.well_formed(),
        summarizes(m, s),
        m.sample_added(m2, x),
    ensures
        summarizes(m2, s.push(x)),
{
    let t = s.push(x);
    assert(t.drop_last() =~= s);
    if !is_finite_bits(x) {
        assert(m2 == m);
        assert(finite_count(t) == finite_count(s));
        lemma_skip_counts(m, s, x);
        lemma_step_representatives(m, m2, s, x);
        lemma_skip_coverage(m, s, x);
        lemma_skip_extremes(m, s, x);
    } else {
        assert(finite_count(t) == finite_count(s) + 1);
        lemma_step_counts(m, m2, s, x);
        lemma_step_representatives(m, m2, s, x);
        lemma_step_coverage(m, m2, s, x);
        lemma_step_extremes(m, m2, s, x);
    }
}

/// A histogram that starts empty and is offered the samples `samples`, in
/// order, holds exactly their summary: the count of finite samples, one
/// bucket per bucket key of a finite sample counting the finite samples of
/// that key (its bits are the bucket of an offered sample), and the least
/// and the greatest finite sample as minimum and maximum.
#[verifier::rlimit(100)]
#[verifier::spinoff_prover]
pub proof fn lemma_histogram_summarizes_samples(states: Seq<HistogramModel>, samples: Seq<u64>)
    requires
        states.len() == samples.len() + 1,
        states[0] == empty_histogram(states[0].precision_mask),
        forall|k: int| 0 <= k < states.len() ==> #[trigger] states[k].well_formed(),
        forall|k: int|
            0 <= k < samples.len() ==> #[trigger] states[k].sample_added(states[k + 1], samples[k]),
    ensures
        summarizes(states.last(), samples),
    decreases samples.len(),
{
    if samples.len() == 0 {
        assert(states.last() == states[0]);
    } else {
        let n = samples.len() - 1;
        lemma_histogram_summarizes_samples(states.drop_last(), samples.drop_last());
        assert(states.drop_last().last() == states[n]);
        assert(states[n].well_formed());
        assert(states[n].sample_added(states[n + 1], samples[n]));
        assert(states[n + 1].well_formed());
        lemma_summarizes_step(states[n], states[n + 1], samples.drop_last(), samples[n]);
        assert(samples.drop_last().push(samples[n]) =~= samples);
    }
}

proof fn lemma_up_to_is_below_plus_key(s: Seq<u64>, mask: u64, k: int)
    ensures
        count_keys_up_to(s, mask, k) == count_keys_below(s, mask, k) + key_count(s, mask, k),
    decreases s.len(),
{
    if s.len() > 0 {
        lemma_up_to_is_below_plus_key(s.drop_last(), mask, k);
    }
}

proof fn lemma_no_key_between(s: Seq<u64>, mask: u64, k1: int, k2: int)
    requires
        k1 < k2,
        forall|j: int|
            0 <= j < s.len() && is_finite_bits(s[j]) ==> !(k1 < sample_key(#[trigger] s[j], mask) < k2),
    ensures
        count_keys_up_to(s, mask, k1) == count_keys_below(s, mask, k2),
    decreases s.len(),
{
    if s.len() > 0 {
        assert(s[s.len() - 1] == s.last());
        assert forall|j: int| 0 <= j < s.drop_last().len() && is_finite_bits(s.drop_last()[j]) implies !(k1
            < sample_key(#[trigger] s.drop_last()[j], mask) < k2) by {
            assert(s.drop_last()[j] == s[j]);
        }
        lemma_no_key_between(s.drop_last(), mask, k1, k2);
    }
}

proof fn lemma_none_below(s: Seq<u64>, mask: u64, k: int)
    requires
        forall|j: int| 0 <= j < s.len() && is_finite_bits(s[j]) ==> sample_key(#[trigger] s[j], mask) >= k,
    ensures
        count_keys_below(s, mask, k) == 0,
    decreases s.len(),
{
    if s.len() > 0 {
        assert(s[s.len() - 1] == s.last());
        assert forall|j: int| 0 <= j < s.drop_last().len() && is_finite_bits(s.drop_last()[j]) implies sample_key(
            #[trigger] s.drop_last()[j], mask) >= k by {
            assert(s.drop_last()[j] == s[j]);
        }
        lemma_none_below(s.drop_last(), mask, k);
    }
}

/// The samples counted before bucket `n` are those whose bucket key is below its key.
proof fn lemma_prefix_counts_samples_below(h: HistogramModel, s: Seq<u64>, n: int)
    requires
        ascending(h.buckets),
        buckets_count_samples(h, s),
        samples_have_buckets(h, s),
        0 <= n < h.buckets.len(),
    ensures
        prefix_count(h.buckets, n) == count_keys_below(s, h.precision_mask, order_key(h.buckets[n].0)),
    decreases n,
{
    let b = h.buckets;
    let mask = h.precision_mask;
    if n == 0 {
        assert(b.take(0) =~= Seq::<(u64, u64)>::empty());
        assert forall|j: int| 0 <= j < s.len() && is_finite_bits(s[j]) implies sample_key(#[trigger] s[j], mask)
            >= order_key(b[0].0) by {
            let i = choose|i: int| 0 <= i < b.len() && order_key(#[trigger] b[i].0) == sample_key(s[j], mask);
            if i > 0 {
                assert(order_key(b[0].0) < order_key(b[i].0));
            }
        }
        lemma_none_below(s, mask, order_key(b[0].0));
    } else {
        lemma_prefix_counts_samples_below(h, s, n - 1);
        lemma_prefix_step(b, n - 1);
        lemma_up_to_is_below_plus_key(s, mask, order_key(b[n - 1].0));
        assert(b[n - 1].1 == key_count(s, mask, order_key(b[n - 1].0)));
        assert forall|j: int| 0 <= j < s.len() && is_finite_bits(s[j]) implies !(order_key(b[n - 1].0)
            < sample_key(#[trigger] s[j], mask) < order_key(b[n].0)) by {
            let i = choose|i: int| 0 <= i < b.len() && order_key(#[trigger] b[i].0) == sample_key(s[j], mask);
            if i < n - 1 {
                assert(order_key(b[i].0) < order_key(b[n - 1].0));
            } else if i > n {
                assert(order_key(b[n].0) < order_key(b[i].0));
            }
        }
        lemma_no_key_between(s, mask, order_key(b[n - 1].0), order_key(b[n].0));
    }
}

/// Percentiles follow the nearest-rank rule over the samples offered: the
/// answer for a rank `target` (1 up to the number of finite samples) is the
/// bucket of an offered finite sample, at least `target` finite samples fall
/// in buckets at or below it, and fewer than `target` fall in buckets below
/// it. Where bucketing keeps value order (as the default mask does), this is
/// the bucket of the `target`-th smallest finite sample.
pub proof fn lemma_percentile_is_nearest_rank(h: HistogramModel, samples: Seq<u64>, target: int, r: u64)
    requires
        h.well_formed(),
        summarizes(h, samples),
        1 <= target <= h.count,
        h.is_rank_answer(target, r),
    ensures
        exists|j: int|
            0 <= j < samples.len() && is_finite_bits(samples[j]) && r == bucket_of(
                #[trigger] samples[j],
                h.precision_mask,
            ),
        count_keys_up_to(samples, h.precision_mask, order_key(r)) >= target,
        count_keys_below(samples, h.precision_mask, order_key(r)) < target,
{
    let b = h.buckets;
    let mask = h.precision_mask;
    let i = choose|i: int| h.reaches(target, i) && r == #[trigger] b[i].0;
    let j = choose|j: int| 0 <= j < samples.len() && is_finite_bits(samples[j]) && #[trigger] b[i].0 == bucket_of(samples[j], mask);
    assert(r == bucket_of(samples[j], mask));
    lemma_prefix_counts_samples_below(h, samples, i);
    lemma_prefix_step(b, i);
    lemma_up_to_is_below_plus_key(samples, mask, order_key(b[i].0));
    assert(b[i].1 == key_count(samples, mask, order_key(b[i].0)));
    if i == 0 {
        assert(b.take(0) =~= Seq::<(u64, u64)>::empty());
    }
}

/// Number of finite samples whose value lies below `v` in value order.
pub open spec fn count_values_below(s: Seq<u64>, v: int) -> nat
    decreases s.len(),
{
    if s.len() == 0 {
        0
    } else {
        count_values_below(s.drop_last(), v) + (if is_finite_bits(s.last()) && order_key(s.last())
            < v {
            1nat
        } else {
            0nat
        })
    }
}

/// Number of finite samples whose value is at most `v` in value order.
pub open spec fn count_values_up_to(s: Seq<u64>, v: int) -> nat
    decreases s.len(),
{
    if s.len() == 0 {
        0
    } else {
        count_values_up_to(s.drop_last(), v) + (if is_finite_bits(s.last()) && order_key(s.last())
            <= v {
            1nat
        } else {
            0nat
        })
    }
}

/// Under the default precision mask, bucketing keeps value order: a value
/// at most another has a bucket at most the other's bucket.
pub proof fn lemma_default_bucket_monotone(x: u64, y: u64)
    requires
        order_key(x) <= order_key(y),
    ensures
        sample_key(x, spec_default_precision_mask()) <= sample_key(y, spec_default_precision_mask()),
{
    let m: u64 = 0xffff_e000_0000_0000u64;
    let sb: u64 = 0x8000_0000_0000_0000u64;
    assert(forall|a: u64, b: u64| a <= b ==> #[trigger] (a & 0xffff_e000_0000_0000u64) <= #[trigger] (b & 0xffff_e000_0000_0000u64)) by (bit_vector);
    assert(forall|a: u64| a < 0x8000_0000_0000_0000u64 ==> #[trigger] (a & 0xffff_e000_0000_0000u64) < 0x8000_0000_0000_0000u64) by (bit_vector);
    assert(forall|a: u64| a >= 0x8000_0000_0000_0000u64 ==> (#[trigger] (a & 0xffff_e000_0000_0000u64) >= 0x8000_0000_0000_0000u64
        && (a & 0xffff_e000_0000_0000u64) - 0x8000_0000_0000_0000u64 == ((a - 0x8000_0000_0000_0000u64) as u64) & 0xffff_e000_0000_0000u64)) by (bit_vector);
    let bx = x & m;
    let by = y & m;
    if x < sb && y < sb {
        assert(bx <= by);
    } else if x >= sb && y >= sb {
        let dx = (x - sb) as u64;
        let dy = (y - sb) as u64;
        assert(dy <= dx);
        assert(dy & m <= dx & m);
        assert(bx - sb == dx & m);
        assert(by - sb == dy & m);
    } else if x >= sb && y < sb {
        assert(bx >= sb);
        assert(by < sb);
    } else {
        assert(x == 0 && y == sb);
        assert((0u64 & 0xffff_e000_0000_0000u64) == 0u64) by (bit_vector);
        assert((0x8000_0000_0000_0000u64 & 0xffff_e000_0000_0000u64) == 0x8000_0000_0000_0000u64) by (bit_vector);
    }
}

proof fn lemma_keys_up_to_le_values_below(s: Seq<u64>, k: int, y: u64)
    requires
        k < sample_key(y, spec_default_precision_mask()),
    ensures
        count_keys_up_to(s, spec_default_precision_mask(), k) <= count_values_below(s, order_key(y)),
    decreases s.len(),
{
    if s.len() > 0 {
        lemma_keys_up_to_le_values_below(s.drop_last(), k, y);
        let x = s.last();
        if order_key(y) <= order_key(x) {
            lemma_default_bucket_monotone(y, x);
        }
    }
}

proof fn lemma_values_up_to_le_keys_below(s: Seq<u64>, k: int, y: u64)
    requires
        sample_key(y, spec_default_precision_mask()) < k,
    ensures
        count_values_up_to(s, order_key(y)) <= count_keys_below(s, spec_default_precision_mask(), k),
    decreases s.len(),
{
    if s.len() > 0 {
        lemma_values_up_to_le_keys_below(s.drop_last(), k, y);
        let x = s.last();
        if order_key(x) <= order_key(y) {
            lemma_default_bucket_monotone(x, y);
        }
    }
}

/// Nearest rank in sorted-sample form, under the default precision mask:
/// when `y` is the `target`-th smallest finite sample offered (fewer than
/// `target` finite samples lie below it and at least `target` lie at or
/// below it, so it stands at position `target - 1` of the finite samples
/// sorted ascending), the answer for rank `target` is the bucket of `y`
/// (the same bucket value; `-0.0` and `+0.0` count as one).
pub proof fn lemma_percentile_is_bucket_of_ranked_sample(
    h: HistogramModel,
    samples: Seq<u64>,
    target: int,
    r: u64,
    y: u64,
)
    requires
        h.well_formed(),
        summarizes(h, samples),
        h.precision_mask == spec_default_precision_mask(),
        1 <= target <= h.count,
        h.is_rank_answer(target, r),
        count_values_below(samples, order_key(y)) < target,
        target <= count_values_up_to(samples, order_key(y)),
    ensures
        order_key(r) == sample_key(y, h.precision_mask),
{
    lemma_percentile_is_nearest_rank(h, samples, target, r);
    let k = order_key(r);
    if k < sample_key(y, h.precision_mask) {
        lemma_keys_up_to_le_values_below(samples, k, y);
    }
    if sample_key(y, h.precision_mask) < k {
        lemma_values_up_to_le_keys_below(samples, k, y);
    }
}

// ---------------------------------------------------------------------------
// The executable histogram
// ---------------------------------------------------------------------------

/// Sparse histogram: counts of samples per bucket, in ascending value order,
/// with the total count and the least and greatest sample.
#[derive(Debug, Clone)]
pub struct SparseHistogram {
    buckets: Vec<(u64, u64)>,
    min_bits: u64,
    max_bits: u64,
    count: u64,
    precision_mask: u64,
}

impl View for SparseHistogram {
    type V = HistogramModel;

    closed spec fn view(&self) -> HistogramModel {
        HistogramModel {
            buckets: self.buckets@,
            min_bits: self.min_bits,
            max_bits: self.max_bits,
            count: self.count as nat,
            precision_mask: self.precision_mask,
        }
    }
}

impl SparseHistogram {
    /// Well-formedness of the histogram.
    pub open spec fn wf(&self) -> bool {
        self@.well_formed()
    }

    /// Create a new sparse histogram with the default precision (7 bits).
    pub fn new() -> (h: Self)
        ensures
            h.wf(),
            h@.buckets == Seq::<(u64, u64)>::empty(),
            h@.count == 0,
            h@.min_bits == POSITIVE_INFINITY_BITS,
            h@.max_bits == NEGATIVE_INFINITY_BITS,
            h@.precision_mask == spec_default_precision_mask(),
    {
        let h = SparseHistogram {
            buckets: Vec::new(),
            min_bits: POSITIVE_INFINITY_BITS,
            max_bits: NEGATIVE_INFINITY_BITS,
            count: 0,
            precision_mask: default_precision_mask(),
        };
        proof {
            assert(total(h@.buckets) == 0);
        }
        h
    }

    /// Bucket of a sample: its bits with the low mantissa bits cleared.
    pub fn calculate_bucket(&self, value_bits: u64) -> (b: u64)
        ensures
            b == bucket_of(value_bits, self@.precision_mask),
    {
        value_bits & self.precision_mask
    }

    /// Number of samples counted.
    pub fn count(&self) -> (c: u64)
        ensures
            c == self@.count,
    {
        self.count
    }

    /// Bits of the least sample (`+inf` while empty).
    pub fn min_bits(&self) -> (b: u64)
        ensures
            b == self@.min_bits,
    {
        self.min_bits
    }

    /// Bits of the greatest sample (`-inf` while empty).
    pub fn max_bits(&self) -> (b: u64)
        ensures
            b == self@.max_bits,
    {
        self.max_bits
    }

    /// The precision mask.
    pub fn precision_mask(&self) -> (m: u64)
        ensures
            m == self@.precision_mask,
    {
        self.precision_mask
    }

    /// The `(bucket bits, count)` pairs in ascending value order.
    pub fn buckets(&self) -> (b: &Vec<(u64, u64)>)
        ensures
            b@ == self@.buckets,
    {
        &self.buckets
    }

    /// Add a sample, given by the bits of the double. Infinite and NaN
    /// samples are skipped.
    pub fn add_sample(&mut self, value_bits: u64)
        requires
            old(self).wf(),
            is_finite_bits(value_bits) ==> old(self)@.count < u64::MAX,
        ensures
            final(self).wf(),
            old(self)@.sample_added(final(self)@, value_bits),
    {
        if !bits_are_finite(value_bits) {
            return ;
        }
        let ghost s = self.buckets@;
        let bucket = self.calculate_bucket(value_bits);
        let key = bits_order_key(bucket);
        let len = self.buckets.len();
        // Binary search for the first bucket not below the sample's bucket.
        let mut i: usize = 0;
        let mut hi: usize = len;
        while i < hi
            invariant
                len == self.buckets.len(),
                self.buckets@ == s,
                ascending(s),
                0 <= i <= hi <= len,
                forall|j: int| 0 <= j < i ==> order_key(#[trigger] s[j].0) < key,
                forall|j: int| hi <= j < len ==> order_key(#[trigger] s[j].0) >= key,
            decreases hi - i,
        {
            let mid = i + (hi - i) / 2;
            if bits_order_key(self.buckets[mid].0) < key {
                i = mid + 1;
            } else {
                hi = mid;
            }
        }
        proof {
            lemma_finite_between_infinities(value_bits);
        }
        if i < len && bits_order_key(self.buckets[i].0) == key {
            let (bits_i, count_i) = self.buckets[i];
            proof {
                lemma_elem_le_total(s, i as int);
                lemma_total_update(s, i as int, (bits_i, (count_i + 1) as u64));
            }
            self.buckets.set(i, (bits_i, count_i + 1));
            proof {
                assert(order_key(s[i as int].0) == order_key(bucket));
            }
        } else {
            proof {
                lemma_total_insert(s, i as int, (bucket, 1u64));
                assert forall|j: int| 0 <= j < s.len() implies order_key(#[trigger] s[j].0)
                    != order_key(bucket) by {
                    if j >= i {
                        assert(order_key(s[i as int].0) <= order_key(s[j].0));
                    }
                }
            }
            self.buckets.insert(i, (bucket, 1u64));
            proof {
                let t = self.buckets@;
                assert forall|a: int, b: int| 0 <= a < b < t.len() implies order_key(t[a].0)
                    < order_key(t[b].0) by {
                    if b < i {
                    } else if b == i {
                    } else if a < i {
                        assert(t[b] == s[b - 1]);
                    } else if a == i {
                        assert(t[b] == s[b - 1]);
                        assert(order_key(s[i as int].0) <= order_key(s[b - 1].0));
                    } else {
                        assert(t[a] == s[a - 1]);
                        assert(t[b] == s[b - 1]);
                    }
                }
            }
        }
        if bits_order_key(value_bits) < bits_order_key(self.min_bits) {
            self.min_bits = value_bits;
        }
        if bits_order_key(value_bits) > bits_order_key(self.max_bits) {
            self.max_bits = value_bits;
        }
        self.count = self.count + 1;
    }

    /// Value at rank `target_count` (the number of samples at or below it),
    /// as the bits of a double: `0.0` for an empty histogram, else the first
    /// bucket in ascending order whose cumulative count reaches the target,
    /// else the maximum.
    pub fn percentile(&self, target_count: u64) -> (r: u64)
        requires
            self.wf(),
        ensures
            self@.is_rank_answer(target_count as int, r),
    {
        if self.count == 0 {
            return ZERO_BITS;
        }
        let ghost s = self.buckets@;
        let len = self.buckets.len();
        let mut running: u64 = 0;
        let mut i: usize = 0;
        while i < len
            invariant
                len == self.buckets.len(),
                self.buckets@ == s,
                self.wf(),
                0 <= i <= len,
                running == prefix_count(s, i as int),
                i > 0 ==> running < target_count,
            decreases len - i,
        {
            proof {
                lemma_prefix_step(s, i as int);
                lemma_prefix_le_total(s, i as int + 1);
            }
            running = running + self.buckets[i].1;
            if running >= target_count {
                proof {
                    assert(self@.reaches(target_count as int, i as int));
                }
                return self.buckets[i].0;
            }
            i = i + 1;
        }
        proof {
            lemma_prefix_full(s);
            if len == 0 {
                assert(total(s) == 0);
            }
        }
        self.max_bits
    }
}

impl SparseHistogram {
    /// Rebuild a histogram from its parts, as they are serialized. Gives
    /// `None` exactly when the parts do not form a well-formed histogram.
    pub fn from_parts(
        buckets: Vec<(u64, u64)>,
        min_bits: u64,
        max_bits: u64,
        count: u64,
        precision_mask: u64,
    ) -> (r: Option<Self>)
        ensures
            ({
                let m = HistogramModel {
                    buckets: buckets@,
                    min_bits,
                    max_bits,
                    count: count as nat,
                    precision_mask,
                };
                match r {
                    Some(h) => m.well_formed() && h@ == m,
                    None => !m.well_formed(),
                }
            }),
    {
        let ghost s = buckets@;
        let ghost m = HistogramModel {
            buckets: buckets@,
            min_bits,
            max_bits,
            count: count as nat,
            precision_mask,
        };
        let len = buckets.len();
        let mut sum: u64 = 0;
        let mut i: usize = 0;
        while i < len
            invariant
                len == s.len(),
                buckets@ == s,
                0 <= i <= len,
                sum == prefix_count(s, i as int),
                forall|j: int| 0 <= j < i ==> #[trigger] s[j].1 > 0,
                forall|a: int, b: int| 0 <= a < b < i ==> order_key(s[a].0) < order_key(s[b].0),
            decreases len - i,
        {
            let (bits_i, count_i) = buckets[i];
            if count_i == 0 {
                return None;
            }
            if i > 0 && bits_order_key(buckets[i - 1].0) >= bits_order_key(bits_i) {
                return None;
            }
            proof {
                lemma_prefix_step(s, i as int);
            }
            if sum > u64::MAX - count_i {
                proof {
                    lemma_prefix_le_total(s, i as int + 1);
                }
                return None;
            }
            sum = sum + count_i;
            i = i + 1;
        }
        proof {
            lemma_prefix_full(s);
        }
        if sum != count {
            return None;
        }
        if count == 0 {
            if min_bits != POSITIVE_INFINITY_BITS || max_bits != NEGATIVE_INFINITY_BITS {
                return None;
            }
        } else if bits_order_key(min_bits) > bits_order_key(max_bits) {
            return None;
        }
        Some(SparseHistogram { buckets, min_bits, max_bits, count, precision_mask })
    }
}

impl Default for SparseHistogram {
    fn default() -> (h: Self)
        ensures
            h.wf(),
            h@.buckets == Seq::<(u64, u64)>::empty(),
            h@.count == 0,
            h@.min_bits == POSITIVE_INFINITY_BITS,
            h@.max_bits == NEGATIVE_INFINITY_BITS,
            h@.precision_mask == spec_default_precision_mask(),
    {
        Self::new()
    }
}

} // verus!
