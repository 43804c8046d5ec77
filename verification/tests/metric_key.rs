use mad::model::MetricKey;
use std::collections::hash_map::DefaultHasher;
use std::hash::{Hash, Hasher};

fn dims(pairs: &[(&str, &str)]) -> ahash::HashMap<String, String> {
    let mut m = ahash::HashMap::default();
    for (k, v) in pairs {
        m.insert(k.to_string(), v.to_string());
    }
    m
}

fn hash_of(k: &MetricKey) -> u64 {
    let mut h = DefaultHasher::new();
    k.hash(&mut h);
    h.finish()
}

#[test]
fn dimensions_are_sorted_by_name() {
    let key = MetricKey::new(dims(&[("service", "api"), ("host", "a1"), ("cluster", "prod")]), "latency".to_string());
    let names: Vec<&str> = key.dimensions().iter().map(|(k, _)| k.as_str()).collect();
    assert_eq!(names, vec!["cluster", "host", "service"]);
    let values: Vec<&str> = key.dimensions().iter().map(|(_, v)| v.as_str()).collect();
    assert_eq!(values, vec!["prod", "a1", "api"]);
    assert_eq!(key.metric_name(), "latency");
}

#[test]
fn keys_from_the_same_dimensions_are_equal() {
    let a = MetricKey::new(dims(&[("b", "2"), ("a", "1"), ("c", "3")]), "m".to_string());
    let b = MetricKey::new(dims(&[("c", "3"), ("b", "2"), ("a", "1")]), "m".to_string());
    assert_eq!(a, b);
    assert_eq!(hash_of(&a), hash_of(&b));
}

#[test]
fn keys_differ_by_name_or_dimension() {
    let a = MetricKey::new(dims(&[("a", "1")]), "m".to_string());
    let b = MetricKey::new(dims(&[("a", "2")]), "m".to_string());
    let c = MetricKey::new(dims(&[("a", "1")]), "n".to_string());
    assert_ne!(a, b);
    assert_ne!(a, c);
}

#[test]
fn from_record_matches_new() {
    let d = dims(&[("zone", "eu"), ("az", "1")]);
    let a = MetricKey::from_record(&d, "requests");
    let b = MetricKey::new(d.clone(), "requests".to_string());
    assert_eq!(a, b);
    assert_eq!(a.dimensions().len(), 2);
}

#[test]
fn names_order_by_code_point() {
    let key = MetricKey::new(
        dims(&[("é", "x"), ("Z", "y"), ("a", "z"), ("ab", "w"), ("", "e")]),
        "m".to_string(),
    );
    let names: Vec<&str> = key.dimensions().iter().map(|(k, _)| k.as_str()).collect();
    let mut expected = names.clone();
    expected.sort();
    assert_eq!(names, expected);
    assert_eq!(names, vec!["", "Z", "a", "ab", "é"]);
}

#[test]
fn empty_dimensions() {
    let key = MetricKey::new(dims(&[]), "m".to_string());
    assert!(key.dimensions().is_empty());
}
