use log_kv::sparse_index::SparseIndex;

#[test]
fn empty_index_yields_whole_file() {
    let index = SparseIndex::new();
    let r = index.get_byte_range(&"anything".to_string());
    assert_eq!(r.start, 0);
    assert_eq!(r.end, None);
}

#[test]
fn range_brackets_the_query_key() {
    let mut index = SparseIndex::new();
    index.insert("b", 10);
    index.insert("d", 20);
    index.insert("f", 30);

    // before the first sample: from the start of the file
    let r = index.get_byte_range(&"a".to_string());
    assert_eq!(r.start, 0);
    assert_eq!(r.end, Some(10));

    // exactly a sampled key
    let r = index.get_byte_range(&"b".to_string());
    assert_eq!(r.start, 10);
    assert_eq!(r.end, Some(20));

    // between samples: the greatest sample at or before the key
    let r = index.get_byte_range(&"c".to_string());
    assert_eq!(r.start, 10);
    assert_eq!(r.end, Some(20));

    // at or after the last sample: unbounded
    let r = index.get_byte_range(&"f".to_string());
    assert_eq!(r.start, 30);
    assert_eq!(r.end, None);
    let r = index.get_byte_range(&"z".to_string());
    assert_eq!(r.start, 30);
    assert_eq!(r.end, None);
}
