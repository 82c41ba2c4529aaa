use log_kv::compaction::merge_records;

fn recs(pairs: &[(&str, &str)]) -> Vec<(String, String)> {
    pairs
        .iter()
        .map(|(k, v)| (k.to_string(), v.to_string()))
        .collect()
}

#[test]
fn merge_prefers_the_newer_value_on_equal_keys() {
    let older = recs(&[("a", "1"), ("b", "2")]);
    let newer = recs(&[("a", "3"), ("c", "4")]);
    let merged = merge_records(&older, &newer);
    assert_eq!(merged, recs(&[("a", "3"), ("b", "2"), ("c", "4")]));
}

#[test]
fn merge_drains_the_longer_stream() {
    let older = recs(&[("a", "1"), ("b", "2"), ("x", "9"), ("y", "8"), ("z", "7")]);
    let newer = recs(&[("b", "5")]);
    let merged = merge_records(&older, &newer);
    assert_eq!(
        merged,
        recs(&[("a", "1"), ("b", "5"), ("x", "9"), ("y", "8"), ("z", "7")])
    );
}

#[test]
fn merge_with_an_empty_stream_copies_the_other() {
    let older = recs(&[("a", "1")]);
    let newer = recs(&[]);
    assert_eq!(merge_records(&older, &newer), older);
    assert_eq!(merge_records(&newer, &older), older);
    assert_eq!(merge_records(&newer, &newer), recs(&[]));
}

#[test]
fn merged_keys_are_non_decreasing() {
    let older = recs(&[("b", "1"), ("d", "2")]);
    let newer = recs(&[("a", "3"), ("c", "4"), ("e", "5")]);
    let merged = merge_records(&older, &newer);
    let keys: Vec<&str> = merged.iter().map(|e| e.0.as_str()).collect();
    assert_eq!(keys, vec!["a", "b", "c", "d", "e"]);
}
