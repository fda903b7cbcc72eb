//! The snapshot differ: first capture, changed/unchanged passes, refinement.

use novimem::{NoviMem, SearchType, SnapShot};

fn scanner() -> NoviMem {
    let mut m = NoviMem::new(5, String::from("helper"));
    let lines = vec![String::from("1000-2000 rw-p 00000000 00:00 0 [heap]")];
    m.parse_maps(&lines);
    m
}

fn capture_of(bytes: &[u8]) -> Vec<SnapShot> {
    vec![SnapShot { region_key: 0x1000, data: bytes.to_vec() }]
}

#[test]
fn differ_finds_changed_byte() {
    let mut m = scanner();
    // the helper's counter lives at offset 4 and ticks between captures
    let mut first = vec![0u8; 16];
    first[4] = 10;
    m.take_snapshots(None, capture_of(&first));
    assert!(m.results().is_empty());

    let mut second = first.clone();
    second[4] = 11;
    let count = m.take_snapshots(Some(SearchType::Changed), capture_of(&second));
    assert_eq!(count, 1);
    assert_eq!(m.results(), &vec![0x1004]);

    // another tick, then an unchanged pass: the counter's address drops out
    let mut third = second.clone();
    third[4] = 12;
    let count = m.take_snapshots(Some(SearchType::Unchanged), capture_of(&third));
    assert_eq!(count, 0);
    assert!(m.results().is_empty());
}

#[test]
fn unchanged_keeps_stable_bytes() {
    let mut m = scanner();
    let mut first = vec![7u8; 8];
    first[2] = 1;
    m.take_snapshots(None, capture_of(&first));
    let mut second = first.clone();
    second[2] = 2;
    let count = m.take_snapshots(Some(SearchType::Unchanged), capture_of(&second));
    // every byte but the changed one survives
    assert_eq!(count, 7);
    assert!(!m.results().contains(&0x1002));
    assert!(m.results().contains(&0x1000));
    assert!(m.results().contains(&0x1007));
}

#[test]
fn changed_pass_without_prior_snapshot_is_a_no_op() {
    let mut m = scanner();
    assert!(!m.has_snapshot());
    let count = m.take_snapshots(Some(SearchType::Changed), capture_of(&[1, 2, 3]));
    assert_eq!(count, 0);
    assert!(m.results().is_empty());
    assert!(m.has_snapshot());
}

#[test]
fn changed_bytes_differ_between_snapshots() {
    // snapshot diff soundness on concrete captures: every reported address
    // holds a byte that differs between the two snapshots
    let mut m = scanner();
    let first: Vec<u8> = (0..32).map(|i| i as u8).collect();
    m.take_snapshots(None, capture_of(&first));
    let mut second = first.clone();
    second[3] = 0xAA;
    second[17] = 0xBB;
    let count = m.take_snapshots(Some(SearchType::Changed), capture_of(&second));
    assert_eq!(count, 2);
    assert_eq!(m.results(), &vec![0x1003, 0x1011]);
    for a in m.results() {
        let off = (a - 0x1000) as usize;
        assert_ne!(first[off], second[off]);
    }
}

#[test]
fn refinement_tracks_recorded_bytes() {
    let mut m = scanner();
    let first = vec![0u8; 8];
    m.take_snapshots(None, capture_of(&first));
    let mut second = first.clone();
    second[1] = 5;
    second[6] = 9;
    m.take_snapshots(Some(SearchType::Changed), capture_of(&second));
    assert_eq!(m.results(), &vec![0x1001, 0x1006]);

    // only the byte at offset 1 moves again; an unchanged pass keeps offset 6
    let mut third = second.clone();
    third[1] = 7;
    let count = m.take_snapshots(Some(SearchType::Unchanged), capture_of(&third));
    assert_eq!(count, 1);
    assert_eq!(m.results(), &vec![0x1006]);
}

#[test]
fn region_missing_from_prior_snapshot_yields_nothing() {
    let mut m = scanner();
    m.take_snapshots(None, capture_of(&[1, 2, 3]));
    // the new capture reports a region the prior snapshot never saw
    let other = vec![SnapShot { region_key: 0x3000, data: vec![9, 9, 9] }];
    let count = m.take_snapshots(Some(SearchType::Changed), other);
    assert_eq!(count, 0);
}

#[test]
fn address_gone_from_capture_is_dropped() {
    let mut m = scanner();
    let first = vec![0u8; 8];
    m.take_snapshots(None, capture_of(&first));
    let mut second = first.clone();
    second[5] = 1;
    m.take_snapshots(Some(SearchType::Changed), capture_of(&second));
    assert_eq!(m.results(), &vec![0x1005]);
    // the next capture no longer covers offset 5
    let count = m.take_snapshots(Some(SearchType::Unchanged), capture_of(&second[..4]));
    assert_eq!(count, 0);
}
