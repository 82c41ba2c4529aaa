use log_kv::config::Config;
use log_kv::database::Database;
use log_kv::store::SegmentFile;

fn small_config(capacity: usize) -> Config {
    let mut config = Config::default();
    config.memtable_capacity = capacity;
    config
}

#[test]
fn read_your_writes_before_a_flush() {
    let mut db = Database::new(small_config(16), vec![]).unwrap();
    assert!(db.set("k", "v").is_none());
    assert_eq!(db.get("k"), Some("v".to_string()));
    assert_eq!(db.get("missing"), None);
}

#[test]
fn read_your_writes_across_a_flush() {
    let mut db = Database::new(small_config(1), vec![]).unwrap();
    let flushed = db.set("k", "v");
    assert!(flushed.is_some());
    assert_eq!(flushed.unwrap().text, "k=v\n");
    assert_eq!(db.get("k"), Some("v".to_string()));
}

#[test]
fn delete_without_a_flush_makes_the_key_absent() {
    let mut db = Database::new(small_config(16), vec![]).unwrap();
    db.set("k", "v");
    db.delete("k");
    assert_eq!(db.get("k"), None);
}

#[test]
fn delete_after_a_flush_leaves_the_stale_value_visible() {
    // the documented gap: no tombstone reaches the segments
    let mut db = Database::new(small_config(1), vec![]).unwrap();
    assert!(db.set("k", "flushed").is_some());
    db.delete("k");
    assert_eq!(db.get("k"), Some("flushed".to_string()));
}

#[test]
fn startup_reads_existing_segments() {
    let loaded = vec![SegmentFile {
        generation: 1,
        text: "a=1\n".to_string(),
    }];
    let db = Database::new(Config::default(), loaded).unwrap();
    assert_eq!(db.get("a"), Some("1".to_string()));
}

#[test]
fn startup_rejects_a_corrupt_segment() {
    let loaded = vec![SegmentFile {
        generation: 1,
        text: "b=2\na=1\n".to_string(),
    }];
    assert!(Database::new(Config::default(), loaded).is_err());
}

#[test]
fn flush_and_compaction_scenario() {
    let mut db = Database::new(small_config(2), vec![]).unwrap();

    assert!(db.set("a", "1").is_none());
    let first = db.set("b", "2").expect("second write reaches capacity");
    assert_eq!(first.text, "a=1\nb=2\n");

    assert!(db.set("a", "3").is_none());
    let second = db.set("c", "4").expect("fourth write reaches capacity");
    assert_eq!(second.text, "a=3\nc=4\n");

    assert_eq!(db.get("a"), Some("3".to_string()));
    assert_eq!(db.get("b"), Some("2".to_string()));
    assert_eq!(db.get("c"), Some("4".to_string()));

    let outcome = db.compact().expect("two segments to merge");
    assert_eq!(outcome.older_generation, first.generation);
    assert_eq!(outcome.newer_generation, second.generation);
    assert_eq!(outcome.text, "a=3\nb=2\nc=4\n");

    assert_eq!(db.get("a"), Some("3".to_string()));
    assert_eq!(db.get("b"), Some("2".to_string()));
    assert_eq!(db.get("c"), Some("4".to_string()));
}

#[test]
fn overwriting_a_key_does_not_advance_toward_capacity() {
    let mut db = Database::new(small_config(2), vec![]).unwrap();
    assert!(db.set("k", "v1").is_none());
    // the table still holds one record, so no flush yet
    assert!(db.set("k", "v2").is_none());
    assert!(db.set("k", "v3").is_none());
    // a second distinct key reaches the capacity of two
    let flushed = db.set("other", "x").expect("capacity reached");
    assert_eq!(flushed.text, "k=v3\nother=x\n");
}

#[test]
fn overwrite_keeps_one_record_per_key() {
    let mut db = Database::new(small_config(16), vec![]).unwrap();
    db.set("k", "v1");
    db.set("k", "v2");
    assert_eq!(db.get("k"), Some("v2".to_string()));
}

#[test]
fn compaction_settings_come_from_the_config() {
    let mut config = Config::default();
    config.compactor_interval_seconds = 42;
    let db = Database::new(config, vec![]).unwrap();
    assert!(db.compaction_enabled());
    assert_eq!(db.compaction_interval_seconds(), 42);
}
