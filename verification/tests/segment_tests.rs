use log_kv::config::Config;
use log_kv::segment::{Segment, SegmentError};

#[test]
fn lookup_finds_each_record() {
    let config = Config::default();
    let seg = Segment::new("a=1\nb=2\nc=3\n".to_string(), 1, &config).unwrap();
    assert_eq!(seg.get("a"), Some("1".to_string()));
    assert_eq!(seg.get("b"), Some("2".to_string()));
    assert_eq!(seg.get("c"), Some("3".to_string()));
    assert_eq!(seg.get("d"), None);
    assert_eq!(seg.generation(), 1);
}

#[test]
fn lookup_with_small_stride_uses_the_index() {
    let mut config = Config::default();
    config.sparse_index_range_size = 1;
    let text = "a=1\nbb=22\nccc=333\ndddd=4444\neeeee=55555\n".to_string();
    let seg = Segment::new(text, 7, &config).unwrap();
    assert_eq!(seg.get("a"), Some("1".to_string()));
    assert_eq!(seg.get("ccc"), Some("333".to_string()));
    assert_eq!(seg.get("eeeee"), Some("55555".to_string()));
    assert_eq!(seg.get("b"), None);
    assert_eq!(seg.get("zzz"), None);
}

#[test]
fn out_of_order_text_is_rejected() {
    let config = Config::default();
    assert_eq!(
        Segment::new("b=2\na=1\n".to_string(), 1, &config).err(),
        Some(SegmentError::OutOfOrder)
    );
}

#[test]
fn duplicate_keys_are_rejected() {
    let config = Config::default();
    assert_eq!(
        Segment::new("a=1\na=2\n".to_string(), 1, &config).err(),
        Some(SegmentError::OutOfOrder)
    );
}

#[test]
fn malformed_lines_are_skipped() {
    let config = Config::default();
    let seg = Segment::new("a=1\nnot a record\nc=3\n".to_string(), 1, &config).unwrap();
    assert_eq!(seg.get("a"), Some("1".to_string()));
    assert_eq!(seg.get("c"), Some("3".to_string()));
    assert_eq!(seg.get("not a record"), None);
}

#[test]
fn empty_text_builds_an_empty_segment() {
    let config = Config::default();
    let seg = Segment::new(String::new(), 1, &config).unwrap();
    assert_eq!(seg.get("a"), None);
    assert_eq!(seg.records_vec().len(), 0);
}

#[test]
fn records_vec_returns_the_records_in_order() {
    let config = Config::default();
    let seg = Segment::new("a=1\nb=2\n".to_string(), 1, &config).unwrap();
    let recs = seg.records_vec();
    assert_eq!(
        recs,
        vec![
            ("a".to_string(), "1".to_string()),
            ("b".to_string(), "2".to_string())
        ]
    );
}
