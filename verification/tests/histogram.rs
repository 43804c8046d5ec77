use mad::model::histogram::{
    bits_are_finite, bits_order_key, default_precision_mask, SparseHistogram,
    NEGATIVE_INFINITY_BITS, POSITIVE_INFINITY_BITS, ZERO_BITS,
};

fn target(p: f64, count: u64) -> u64 {
    (p / 100.0 * count as f64).ceil() as u64
}

fn percentile(h: &SparseHistogram, p: f64) -> f64 {
    f64::from_bits(h.percentile(target(p, h.count())))
}

#[test]
fn test_sparse_histogram() {
    let mut histogram = SparseHistogram::new();

    histogram.add_sample(1.0f64.to_bits());
    histogram.add_sample(2.0f64.to_bits());
    histogram.add_sample(3.0f64.to_bits());
    histogram.add_sample(4.0f64.to_bits());
    histogram.add_sample(5.0f64.to_bits());

    assert_eq!(histogram.count(), 5);
    assert_eq!(f64::from_bits(histogram.min_bits()), 1.0);
    assert_eq!(f64::from_bits(histogram.max_bits()), 5.0);

    assert!(percentile(&histogram, 50.0) >= 2.0);
    assert!(percentile(&histogram, 100.0) >= 5.0);
}

#[test]
fn new_histogram_is_empty() {
    let h = SparseHistogram::new();
    assert_eq!(h.count(), 0);
    assert!(h.buckets().is_empty());
    assert_eq!(h.min_bits(), f64::INFINITY.to_bits());
    assert_eq!(h.max_bits(), f64::NEG_INFINITY.to_bits());
    assert_eq!(h.precision_mask(), 0xffffe00000000000u64);
    assert_eq!(default_precision_mask(), 0xffffe00000000000u64);
    assert_eq!(POSITIVE_INFINITY_BITS, f64::INFINITY.to_bits());
    assert_eq!(NEGATIVE_INFINITY_BITS, f64::NEG_INFINITY.to_bits());
    let d = SparseHistogram::default();
    assert_eq!(d.count(), 0);
    assert_eq!(d.precision_mask(), h.precision_mask());
}

#[test]
fn empty_histogram_percentile_is_zero() {
    let h = SparseHistogram::new();
    assert_eq!(h.percentile(0), ZERO_BITS);
    assert_eq!(h.percentile(7), ZERO_BITS);
    assert_eq!(f64::from_bits(h.percentile(1)), 0.0);
}

#[test]
fn non_finite_samples_are_skipped() {
    let mut h = SparseHistogram::new();
    h.add_sample(f64::NAN.to_bits());
    h.add_sample(f64::INFINITY.to_bits());
    h.add_sample(f64::NEG_INFINITY.to_bits());
    assert_eq!(h.count(), 0);
    assert!(h.buckets().is_empty());
    assert!(!bits_are_finite(f64::NAN.to_bits()));
    assert!(!bits_are_finite(f64::INFINITY.to_bits()));
    assert!(bits_are_finite(f64::MAX.to_bits()));
    assert!(bits_are_finite((-0.0f64).to_bits()));
    assert!(bits_are_finite(f64::MIN_POSITIVE.to_bits() / 2));
}

#[test]
fn bucket_truncates_mantissa() {
    let h = SparseHistogram::new();
    let b = h.calculate_bucket(1.01f64.to_bits());
    assert_eq!(b, 1.01f64.to_bits() & 0xffffe00000000000u64);
    assert_eq!(f64::from_bits(b), 1.0078125);
    assert_eq!(h.calculate_bucket(3.0f64.to_bits()), 3.0f64.to_bits());
}

#[test]
fn equal_buckets_are_merged() {
    let mut h = SparseHistogram::new();
    h.add_sample(1.0f64.to_bits());
    h.add_sample(1.001f64.to_bits());
    h.add_sample(1.0f64.to_bits());
    assert_eq!(h.count(), 3);
    assert_eq!(h.buckets().len(), 1);
    assert_eq!(h.buckets()[0], (1.0f64.to_bits(), 3));
    assert_eq!(f64::from_bits(h.min_bits()), 1.0);
    assert_eq!(f64::from_bits(h.max_bits()), 1.001);
}

#[test]
fn buckets_are_in_value_order() {
    let mut h = SparseHistogram::new();
    for v in [3.0f64, -2.0, 0.5, -100.0, 7.0, 0.0, -0.5] {
        h.add_sample(v.to_bits());
    }
    let values: Vec<f64> = h.buckets().iter().map(|(b, _)| f64::from_bits(*b)).collect();
    assert_eq!(values, vec![-100.0, -2.0, -0.5, 0.0, 0.5, 3.0, 7.0]);
    assert_eq!(f64::from_bits(h.min_bits()), -100.0);
    assert_eq!(f64::from_bits(h.max_bits()), 7.0);
    let total: u64 = h.buckets().iter().map(|(_, c)| *c).sum();
    assert_eq!(total, h.count());
}

#[test]
fn signed_zeros_share_a_bucket() {
    let mut h = SparseHistogram::new();
    h.add_sample(0.0f64.to_bits());
    h.add_sample((-0.0f64).to_bits());
    assert_eq!(h.count(), 2);
    assert_eq!(h.buckets().len(), 1);
    assert_eq!(h.buckets()[0].1, 2);
}

#[test]
fn order_key_follows_value_order() {
    let values = [-f64::MAX, -3.5, -1.0, -f64::MIN_POSITIVE, 0.0, f64::MIN_POSITIVE, 1.0, 2.5, f64::MAX];
    for w in values.windows(2) {
        assert!(bits_order_key(w[0].to_bits()) < bits_order_key(w[1].to_bits()));
    }
    assert_eq!(bits_order_key(0.0f64.to_bits()), bits_order_key((-0.0f64).to_bits()));
    assert_eq!(bits_order_key(1.0f64.to_bits()), 0x3ff0000000000000);
    assert_eq!(bits_order_key((-1.0f64).to_bits()), -0x3ff0000000000000);
}

#[test]
fn rank_queries() {
    let mut h = SparseHistogram::new();
    for v in [10.0f64, 20.0, 20.0, 40.0] {
        h.add_sample(v.to_bits());
    }
    assert_eq!(f64::from_bits(h.percentile(0)), 10.0);
    assert_eq!(f64::from_bits(h.percentile(1)), 10.0);
    assert_eq!(f64::from_bits(h.percentile(2)), 20.0);
    assert_eq!(f64::from_bits(h.percentile(3)), 20.0);
    assert_eq!(f64::from_bits(h.percentile(4)), 40.0);
    // Beyond the number of samples the answer is the maximum.
    assert_eq!(f64::from_bits(h.percentile(5)), 40.0);
    // Monotone in the rank.
    let mut last = f64::NEG_INFINITY;
    for t in 0..=4 {
        let v = f64::from_bits(h.percentile(t));
        assert!(v >= last);
        last = v;
    }
}

#[test]
fn rank_beyond_count_answers_the_maximum_sample() {
    let mut h = SparseHistogram::new();
    h.add_sample((-1.01f64).to_bits());
    // The bucket of -1.01 lies above it; the maximum is the sample itself.
    assert_eq!(f64::from_bits(h.percentile(1)), -1.0078125);
    assert_eq!(f64::from_bits(h.percentile(2)), -1.01);
}

#[test]
fn from_parts_accepts_well_formed_parts() {
    let mut h = SparseHistogram::new();
    for v in [1.0f64, 2.0, 2.0] {
        h.add_sample(v.to_bits());
    }
    let rebuilt = SparseHistogram::from_parts(
        h.buckets().clone(),
        h.min_bits(),
        h.max_bits(),
        h.count(),
        h.precision_mask(),
    )
    .expect("well-formed parts");
    assert_eq!(rebuilt.count(), 3);
    assert_eq!(rebuilt.buckets(), h.buckets());
    assert_eq!(rebuilt.percentile(2), 2.0f64.to_bits());
    let empty = SparseHistogram::from_parts(
        Vec::new(),
        POSITIVE_INFINITY_BITS,
        NEGATIVE_INFINITY_BITS,
        0,
        default_precision_mask(),
    );
    assert!(empty.is_some());
}

#[test]
fn from_parts_refuses_ill_formed_parts() {
    let one = 1.0f64.to_bits();
    let two = 2.0f64.to_bits();
    let mask = default_precision_mask();
    // Out of order.
    assert!(SparseHistogram::from_parts(vec![(two, 1), (one, 1)], one, two, 2, mask).is_none());
    // A bucket twice.
    assert!(SparseHistogram::from_parts(vec![(one, 1), (one, 1)], one, one, 2, mask).is_none());
    // A bucket with no sample.
    assert!(SparseHistogram::from_parts(vec![(one, 0), (two, 1)], two, two, 1, mask).is_none());
    // Count that is not the sum of the buckets.
    assert!(SparseHistogram::from_parts(vec![(one, 1)], one, one, 2, mask).is_none());
    // Overflowing sum.
    assert!(SparseHistogram::from_parts(vec![(one, u64::MAX), (two, 1)], one, two, 0, mask).is_none());
    // Minimum above maximum.
    assert!(SparseHistogram::from_parts(vec![(one, 1)], two, one, 1, mask).is_none());
    // Empty histogram with summary values.
    assert!(SparseHistogram::from_parts(Vec::new(), one, one, 0, mask).is_none());
}

fn bucket(v: f64) -> u64 {
    v.to_bits() & 0xffffe00000000000u64
}

#[test]
fn histogram_summarizes_the_samples_offered() {
    let samples = [5.5f64, f64::NAN, -3.25, 5.51, 100.0, f64::INFINITY, -3.25, 0.125, 5.5];
    let mut h = SparseHistogram::new();
    for v in samples {
        h.add_sample(v.to_bits());
    }
    let finite: Vec<f64> = samples.iter().copied().filter(|v| v.is_finite()).collect();
    assert_eq!(h.count(), finite.len() as u64);
    assert_eq!(f64::from_bits(h.min_bits()), -3.25);
    assert_eq!(f64::from_bits(h.max_bits()), 100.0);
    for (b, c) in h.buckets() {
        let n = finite.iter().filter(|v| bucket(**v) == *b).count() as u64;
        assert_eq!(*c, n);
        assert!(finite.iter().any(|v| bucket(*v) == *b));
    }
    for v in &finite {
        assert!(h.buckets().iter().any(|(b, _)| *b == bucket(*v)));
    }
}

#[test]
fn percentile_is_nearest_rank_bucket() {
    let samples = [9.0f64, -1.5, 3.3, 7.25, 3.3, 0.0, 12.0, -8.0];
    let mut h = SparseHistogram::new();
    for v in samples {
        h.add_sample(v.to_bits());
    }
    let mut sorted = samples.to_vec();
    sorted.sort_by(|a, b| a.partial_cmp(b).unwrap());
    for t in 1..=sorted.len() {
        assert_eq!(h.percentile(t as u64), bucket(sorted[t - 1]));
    }
}

#[test]
fn rank_answer_is_bucket_of_ranked_sample() {
    let samples = [0.0f64, -0.0, 2.75, -4.125, 2.7];
    let mut h = SparseHistogram::new();
    for v in samples {
        h.add_sample(v.to_bits());
    }
    let mut sorted = samples.to_vec();
    sorted.sort_by(|a, b| a.partial_cmp(b).unwrap());
    for t in 1..=sorted.len() {
        let got = f64::from_bits(h.percentile(t as u64));
        let want = f64::from_bits(bucket(sorted[t - 1]));
        assert_eq!(got, want);
    }
}
