//! Byte-pattern search: occurrences, first-pass scans, refinement.

use novimem::{find_occurrences, NoviMem};

/// A scanner whose region set holds one writeable region [0x1000, 0x2000)
/// named "[heap]".
fn one_region_scanner() -> NoviMem {
    let mut m = NoviMem::new(42, String::from("helper"));
    let lines = vec![String::from("1000-2000 rw-p 00000000 08:01 123 [heap]")];
    let rejected = m.parse_maps(&lines);
    assert!(rejected.is_empty());
    assert_eq!(m.regions().len(), 1);
    m
}

#[test]
fn occurrences_finds_every_match() {
    let data: Vec<u8> = vec![1, 2, 3, 1, 2, 3, 1, 2];
    let pat: Vec<u8> = vec![1, 2];
    assert_eq!(find_occurrences(&data, &pat), vec![0, 3, 6]);
}

#[test]
fn occurrences_are_non_overlapping_leftmost() {
    let data: Vec<u8> = vec![7, 7, 7, 7, 7];
    let pat: Vec<u8> = vec![7, 7];
    // leftmost-first, advancing past each match: offsets 0 and 2, not 1 or 3
    assert_eq!(find_occurrences(&data, &pat), vec![0, 2]);
}

#[test]
fn occurrences_none_when_absent() {
    let data: Vec<u8> = vec![1, 2, 3];
    let pat: Vec<u8> = vec![4];
    assert!(find_occurrences(&data, &pat).is_empty());
    let long_pat: Vec<u8> = vec![1, 2, 3, 4];
    assert!(find_occurrences(&data, &long_pat).is_empty());
}

#[test]
fn self_scan_finds_repeated_marker() {
    // the 16-byte marker: 0xDEADBEEF's little-endian bytes, repeated four times
    let marker: Vec<u8> = 0xDEADBEEFu32
        .to_le_bytes()
        .iter()
        .cloned()
        .collect::<Vec<u8>>()
        .repeat(4);
    assert_eq!(marker.len(), 16);
    let mut m = one_region_scanner();
    // the helper's buffer holds the marker at offset 0x20
    let mut buf = vec![0u8; 0x100];
    buf[0x20..0x30].copy_from_slice(&marker);
    let reads = vec![Some(buf)];
    let count = m.search(&marker, &reads);
    assert!(count >= 1);
    assert!(m.results().contains(&0x1020));
}

#[test]
fn no_match_leaves_results_empty() {
    let mut m = one_region_scanner();
    let buf = vec![0u8; 0x80];
    let reads = vec![Some(buf)];
    let pat = 0x4041424344454647u64.to_le_bytes().to_vec();
    let count = m.search(&pat, &reads);
    assert_eq!(count, 0);
    assert!(m.results().is_empty());
}

#[test]
fn failed_region_read_is_skipped() {
    let mut m = NoviMem::new(7, String::from("helper"));
    let lines = vec![
        String::from("1000-2000 rw-p 00000000 08:01 123 [heap]"),
        String::from("3000-4000 rw-p 00000000 08:01 124 [anon]"),
    ];
    m.parse_maps(&lines);
    assert_eq!(m.regions().len(), 2);
    let pat: Vec<u8> = vec![9, 9];
    let mut buf = vec![0u8; 16];
    buf[4] = 9;
    buf[5] = 9;
    // first region unreadable, second holds the pattern
    let reads = vec![None, Some(buf)];
    let count = m.search(&pat, &reads);
    assert_eq!(count, 1);
    assert_eq!(m.results(), &vec![0x3004]);
}

#[test]
fn first_pass_orders_regions_then_offsets() {
    let mut m = NoviMem::new(7, String::from("helper"));
    let lines = vec![
        String::from("3000-4000 rw-p 00000000 08:01 124 second"),
        String::from("1000-2000 rw-p 00000000 08:01 123 first"),
    ];
    m.parse_maps(&lines);
    let pat: Vec<u8> = vec![5];
    let mut buf_a = vec![0u8; 8];
    buf_a[1] = 5;
    buf_a[6] = 5;
    let mut buf_b = vec![0u8; 8];
    buf_b[3] = 5;
    // map order is line order: the 0x3000 region first
    let reads = vec![Some(buf_a), Some(buf_b)];
    m.search(&pat, &reads);
    assert_eq!(m.results(), &vec![0x3001, 0x3006, 0x1003]);
}

#[test]
fn narrowing_refines_to_subset() {
    // the helper holds the 32-bit value 1000 at address 0x1008
    let mut m = one_region_scanner();
    let mut buf = vec![0u8; 0x40];
    buf[8..12].copy_from_slice(&1000i32.to_le_bytes());
    // a decoy match elsewhere
    buf[0x20..0x24].copy_from_slice(&1000i32.to_le_bytes());
    let pat_1000 = 1000i32.to_le_bytes().to_vec();
    let reads = vec![Some(buf)];
    m.search(&pat_1000, &reads);
    let before: Vec<u64> = m.results().clone();
    assert!(before.contains(&0x1008));
    assert!(before.contains(&0x1020));

    // the helper changes the value at 0x1008 to 1001; the decoy stays 1000
    let pat_1001 = 1001i32.to_le_bytes().to_vec();
    let point_reads: Vec<Option<Vec<u8>>> = before
        .iter()
        .map(|a| {
            if *a == 0x1008 {
                Some(1001i32.to_le_bytes().to_vec())
            } else {
                Some(1000i32.to_le_bytes().to_vec())
            }
        })
        .collect();
    let count = m.search(&pat_1001, &point_reads);
    assert_eq!(count, 1);
    assert_eq!(m.results(), &vec![0x1008]);
    // refinement monotonicity: the new set is a subset of the old
    for a in m.results() {
        assert!(before.contains(a));
    }
}

#[test]
fn refinement_is_idempotent_on_stable_target() {
    let mut m = one_region_scanner();
    let pat: Vec<u8> = vec![3, 1, 4];
    let mut buf = vec![0u8; 32];
    buf[5..8].copy_from_slice(&pat);
    buf[20..23].copy_from_slice(&pat);
    let reads = vec![Some(buf)];
    m.search(&pat, &reads);
    let first: Vec<u64> = m.results().clone();
    assert_eq!(first, vec![0x1005, 0x1014]);
    // a stable target returns the pattern at every recorded address
    let point_reads: Vec<Option<Vec<u8>>> =
        first.iter().map(|_| Some(pat.clone())).collect();
    m.search(&pat, &point_reads);
    assert_eq!(m.results(), &first);
}

#[test]
fn dropped_read_drops_the_address() {
    let mut m = one_region_scanner();
    let pat: Vec<u8> = vec![8, 8];
    let mut buf = vec![0u8; 16];
    buf[0] = 8;
    buf[1] = 8;
    buf[9] = 8;
    buf[10] = 8;
    let reads = vec![Some(buf)];
    m.search(&pat, &reads);
    assert_eq!(m.results(), &vec![0x1000, 0x1009]);
    // the first address becomes unreadable, the second still matches
    let point_reads = vec![None, Some(pat.clone())];
    let count = m.search(&pat, &point_reads);
    assert_eq!(count, 1);
    assert_eq!(m.results(), &vec![0x1009]);
}

#[test]
fn clear_results_empties_the_set() {
    let mut m = one_region_scanner();
    let pat: Vec<u8> = vec![0, 0];
    let reads = vec![Some(vec![0u8; 8])];
    assert!(m.search(&pat, &reads) > 0);
    m.clear_results();
    assert!(m.results().is_empty());
}
