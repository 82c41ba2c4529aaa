use log_kv::config::Config;
use log_kv::memtable::{Memtable, MemtableArgs};
use log_kv::store::{SegmentFile, Store, StoreArgs};

fn file(generation: u64, text: &str) -> SegmentFile {
    SegmentFile {
        generation,
        text: text.to_string(),
    }
}

#[test]
fn store_args_default_values() {
    let args = StoreArgs::default();
    assert!(args.compaction_enabled);
    assert_eq!(args.compaction_interval_seconds, 600);
}

#[test]
fn startup_orders_segments_by_generation() {
    // handed newest-first on purpose: generation order must win
    let loaded = vec![file(2, "a=new\n"), file(1, "a=old\nb=2\n")];
    let store = Store::new(StoreArgs::default(), Config::default(), loaded).unwrap();
    assert_eq!(store.get("a"), Some("new".to_string()));
    assert_eq!(store.get("b"), Some("2".to_string()));
    assert_eq!(store.get("c"), None);
}

#[test]
fn startup_rejects_a_corrupt_file() {
    let loaded = vec![file(1, "b=2\na=1\n")];
    assert!(Store::new(StoreArgs::default(), Config::default(), loaded).is_err());
}

#[test]
fn write_memtable_appends_a_segment() {
    let mut store = Store::new(StoreArgs::default(), Config::default(), vec![]).unwrap();
    let mut m = Memtable::new(MemtableArgs { capacity: 4 });
    m.set("b", "2");
    m.set("a", "1");
    let f = store.write_memtable(&m);
    assert_eq!(f.text, "a=1\nb=2\n");
    assert_eq!(store.get("a"), Some("1".to_string()));
    assert_eq!(store.get("b"), Some("2".to_string()));
}

#[test]
fn newest_segment_wins_on_reads() {
    let loaded = vec![file(1, "k=old\n"), file(2, "k=new\n")];
    let store = Store::new(StoreArgs::default(), Config::default(), loaded).unwrap();
    assert_eq!(store.get("k"), Some("new".to_string()));
}

#[test]
fn compact_merges_the_two_oldest_segments() {
    let loaded = vec![file(1, "a=1\nb=2\n"), file(2, "a=3\nc=4\n"), file(3, "z=9\n")];
    let mut store = Store::new(StoreArgs::default(), Config::default(), loaded).unwrap();
    let outcome = store.compact().unwrap();
    assert_eq!(outcome.older_generation, 1);
    assert_eq!(outcome.newer_generation, 2);
    assert_eq!(outcome.text, "a=3\nb=2\nc=4\n");
    assert_eq!(store.get("a"), Some("3".to_string()));
    assert_eq!(store.get("b"), Some("2".to_string()));
    assert_eq!(store.get("c"), Some("4".to_string()));
    assert_eq!(store.get("z"), Some("9".to_string()));
}

#[test]
fn compact_needs_two_segments() {
    let mut store =
        Store::new(StoreArgs::default(), Config::default(), vec![file(1, "a=1\n")]).unwrap();
    assert!(store.compact().is_none());
}
