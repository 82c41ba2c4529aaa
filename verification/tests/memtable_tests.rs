use log_kv::memtable::{Memtable, MemtableArgs};

#[test]
fn default_capacity_is_1024() {
    let args = MemtableArgs::default();
    assert_eq!(args.capacity, 1024);
}

#[test]
fn set_then_get_returns_the_value() {
    let mut m = Memtable::new(MemtableArgs { capacity: 8 });
    m.set("k", "v");
    assert_eq!(m.get("k"), Some("v".to_string()));
    assert_eq!(m.get("missing"), None);
}

#[test]
fn set_overwrites_an_existing_key() {
    let mut m = Memtable::new(MemtableArgs { capacity: 8 });
    m.set("k", "v1");
    m.set("k", "v2");
    assert_eq!(m.get("k"), Some("v2".to_string()));
    assert_eq!(m.iter().len(), 1);
}

#[test]
fn delete_removes_the_key() {
    let mut m = Memtable::new(MemtableArgs { capacity: 8 });
    m.set("k", "v");
    m.delete("k");
    assert_eq!(m.get("k"), None);
    m.delete("never-there");
    assert_eq!(m.get("never-there"), None);
}

#[test]
fn iteration_is_in_ascending_key_order() {
    let mut m = Memtable::new(MemtableArgs { capacity: 8 });
    m.set("c", "3");
    m.set("a", "1");
    m.set("b", "2");
    let entries: Vec<(String, String)> = m.iter().clone();
    let keys: Vec<&str> = entries.iter().map(|e| e.0.as_str()).collect();
    assert_eq!(keys, vec!["a", "b", "c"]);
}

#[test]
fn full_reports_capacity_reached() {
    let mut m = Memtable::new(MemtableArgs { capacity: 2 });
    assert!(!m.full());
    m.set("a", "1");
    assert!(!m.full());
    m.set("b", "2");
    assert!(m.full());
}

#[test]
fn reset_clears_to_empty() {
    let mut m = Memtable::new(MemtableArgs { capacity: 2 });
    m.set("a", "1");
    m.set("b", "2");
    m.reset();
    assert!(!m.full());
    assert_eq!(m.get("a"), None);
    assert_eq!(m.iter().len(), 0);
}
