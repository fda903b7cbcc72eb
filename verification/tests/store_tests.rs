//! The named result store: save, restore, delete, and its JSON file form.

use novimem::{NoviMem, SearchType, SnapShot};
use std::collections::HashMap;

fn scanner_with_results(addrs: &[u8]) -> NoviMem {
    let mut m = NoviMem::new(9, String::from("helper"));
    let lines = vec![String::from("1000-2000 rw-p 00000000 00:00 0 [heap]")];
    m.parse_maps(&lines);
    let pat: Vec<u8> = vec![0xEE];
    let mut buf = vec![0u8; 64];
    for a in addrs {
        buf[*a as usize] = 0xEE;
    }
    let reads = vec![Some(buf)];
    m.search(&pat, &reads);
    m
}

#[test]
fn save_clear_restore_round_trips() {
    let mut m = scanner_with_results(&[3, 7]);
    let saved: Vec<u64> = m.results().clone();
    assert_eq!(saved, vec![0x1003, 0x1007]);
    m.save_search(String::from("health"));
    // saving empties the result set
    assert!(m.results().is_empty());
    m.clear_results();
    assert!(m.restore_search(String::from("health")));
    assert_eq!(m.results(), &saved);
}

#[test]
fn delete_then_restore_misses() {
    let mut m = scanner_with_results(&[3]);
    m.save_search(String::from("gone"));
    assert!(m.delete_search(String::from("gone")));
    assert!(!m.restore_search(String::from("gone")));
    // deleting or restoring an unknown name reports failure
    assert!(!m.delete_search(String::from("never")));
    assert!(!m.restore_search(String::from("never")));
}

#[test]
fn save_overwrites_same_name() {
    // a second save under the same name replaces the first list
    let mut m3 = scanner_with_results(&[1]);
    m3.save_search(String::from("n"));
    let pat: Vec<u8> = vec![0xEE];
    let reads = vec![Some({
        let mut b = vec![0u8; 64];
        b[9] = 0xEE;
        b
    })];
    m3.search(&pat, &reads);
    m3.save_search(String::from("n"));
    assert!(m3.restore_search(String::from("n")));
    assert_eq!(m3.results(), &vec![0x1009]);
    assert_eq!(m3.search_names(), vec![String::from("n")]);
}

#[test]
fn persistence_file_holds_decimal_addresses() {
    let mut m = scanner_with_results(&[0]);
    m.save_search(String::from("health"));
    let json = m.searches_json();
    // 0x1000 is 4096
    assert_eq!(json, "{\"health\":[4096]}");
    // the JSON also parses under an ordinary JSON reader
    let parsed: HashMap<String, Vec<u64>> = serde_json::from_str(&json).expect("valid JSON");
    assert_eq!(parsed.len(), 1);
    assert_eq!(parsed["health"], vec![4096]);
}

#[test]
fn store_file_round_trips_through_load() {
    let mut m = scanner_with_results(&[4, 8]);
    m.save_search(String::from("alpha"));
    m.save_search(String::from("beta"));
    let json = m.searches_json();
    assert_eq!(json, "{\"alpha\":[4100,4104],\"beta\":[]}");

    let mut fresh = NoviMem::new(9, String::from("helper"));
    assert!(fresh.load_searches(&json));
    assert!(fresh.restore_search(String::from("alpha")));
    assert_eq!(fresh.results(), &vec![0x1004, 0x1008]);
}

#[test]
fn empty_store_serializes_to_empty_object() {
    let m = NoviMem::new(9, String::from("helper"));
    assert!(!m.has_searches());
    assert_eq!(m.searches_json(), "{}");
    let mut fresh = NoviMem::new(9, String::from("helper"));
    assert!(fresh.load_searches("{}"));
    assert!(!fresh.has_searches());
}

#[test]
fn malformed_store_file_leaves_empty_store() {
    let mut m = scanner_with_results(&[4]);
    m.save_search(String::from("keep"));
    assert!(!m.load_searches("{\"keep\":[12"));
    assert!(!m.restore_search(String::from("keep")));
    let mut m2 = NoviMem::new(9, String::from("helper"));
    assert!(!m2.load_searches(""));
    assert!(!m2.load_searches("null"));
    assert!(!m2.load_searches("{\"a\":[1] }"));
}

#[test]
fn names_with_quotes_and_backslashes_round_trip() {
    let mut m = scanner_with_results(&[2]);
    m.save_search(String::from("a\"b\\c"));
    let json = m.searches_json();
    assert_eq!(json, "{\"a\\\"b\\\\c\":[4098]}");
    let parsed: HashMap<String, Vec<u64>> = serde_json::from_str(&json).expect("valid JSON");
    assert!(parsed.contains_key("a\"b\\c"));
    let mut fresh = NoviMem::new(9, String::from("helper"));
    assert!(fresh.load_searches(&json));
    assert!(fresh.restore_search(String::from("a\"b\\c")));
    assert_eq!(fresh.results(), &vec![0x1002]);
}

#[test]
fn persistence_after_narrowing_matches_scenario() {
    // after a narrowing search, save empties the set and the file holds the
    // surviving address; restore repopulates it
    let mut m = scanner_with_results(&[8]);
    assert_eq!(m.results(), &vec![0x1008]);
    m.save_search(String::from("health"));
    assert!(m.results().is_empty());
    let json = m.searches_json();
    let parsed: HashMap<String, Vec<u64>> = serde_json::from_str(&json).expect("valid JSON");
    assert_eq!(parsed["health"], vec![0x1008u64]);
    assert!(m.restore_search(String::from("health")));
    assert_eq!(m.results(), &vec![0x1008]);
}

#[test]
fn snapshot_state_survives_store_operations() {
    let mut m = scanner_with_results(&[1]);
    m.take_snapshots(None, vec![SnapShot { region_key: 0x1000, data: vec![0u8; 4] }]);
    m.save_search(String::from("s"));
    assert!(m.has_snapshot());
    let count = m.take_snapshots(Some(SearchType::Unchanged), vec![SnapShot {
        region_key: 0x1000,
        data: vec![0u8; 4],
    }]);
    // results were emptied by save, so the unchanged pass rebuilds from the
    // full snapshot compare: all four bytes are unchanged
    assert_eq!(count, 4);
}
