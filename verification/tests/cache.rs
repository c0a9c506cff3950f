use analyzer_core::digest::{key_for, key_from_canonical};
use analyzer_core::Stats;

#[test]
fn same_stats_produces_same_key() {
    let mut s1 = Stats::default();
    s1.record("1.1.1.1".into(), 12, "/a".into(), 200, 100);
    s1.record("2.2.2.2".into(), 13, "/b".into(), 404, 50);

    let mut s2 = Stats::default();
    s2.record("2.2.2.2".into(), 13, "/b".into(), 404, 50);
    s2.record("1.1.1.1".into(), 12, "/a".into(), 200, 100);

    assert_eq!(key_for(&s1, "test-model"), key_for(&s2, "test-model"));
}

#[test]
fn different_model_changes_key() {
    let s = Stats::default();
    assert_ne!(key_for(&s, "model-a"), key_for(&s, "model-b"));
}

#[test]
fn key_of_empty_stats_hashes_the_canonical_document() {
    let canonical = r#"{"by_hour":{},"by_ip":{},"by_path":{},"by_status":{},"bytes":0,"model":"m","parsed_lines":0,"requests":0,"total_lines":0}"#;
    let key = key_for(&Stats::default(), "m");
    assert_eq!(key, key_from_canonical(canonical.as_bytes()));
    assert_eq!(key.len(), 32);
    assert!(key.chars().all(|c| c.is_ascii_digit() || ('a'..='f').contains(&c)));
}

#[test]
fn key_writes_numeric_keys_as_sorted_strings() {
    let mut s = Stats::default();
    s.total_lines = 3;
    s.parsed_lines = 2;
    s.record("10.0.0.1".into(), 9, "/a\"b".into(), 404, 7);
    s.record("10.0.0.1".into(), 12, "/".into(), 200, 5);
    let canonical = r#"{"by_hour":{"12":1,"9":1},"by_ip":{"10.0.0.1":2},"by_path":{"/":1,"/a\"b":1},"by_status":{"200":1,"404":1},"bytes":12,"model":"llama","parsed_lines":2,"requests":2,"total_lines":3}"#;
    assert_eq!(key_for(&s, "llama"), key_from_canonical(canonical.as_bytes()));
}

#[test]
fn key_changes_with_the_counts() {
    let mut a = Stats::default();
    a.record("1.1.1.1".into(), 1, "/".into(), 200, 1);
    let mut b = Stats::default();
    b.record("1.1.1.1".into(), 1, "/".into(), 200, 1);
    b.record("1.1.1.1".into(), 1, "/".into(), 200, 1);
    assert_ne!(key_for(&a, "m"), key_for(&b, "m"));
}
