//! Image dimensioning, process discovery helpers, and numeric text.

use novimem::textnum::{u64_to_dec, u64_to_hex};
use novimem::{MemImage, ProcSearch};

#[test]
fn render_squares_an_exact_square() {
    let mut img = MemImage::new();
    let block: Vec<u8> = (0..16).map(|i| (i * 3) as u8).collect();
    let (w, h, pixels) = img.render(block.clone());
    assert_eq!(w, 4);
    assert_eq!(h, 4);
    assert_eq!(pixels.len(), 3 * 16);
    for p in 0..16 {
        assert_eq!(pixels[3 * p], block[p]);
        assert_eq!(pixels[3 * p + 1], block[p]);
        assert_eq!(pixels[3 * p + 2], block[p]);
    }
}

#[test]
fn render_pads_a_ragged_block_with_black() {
    let mut img = MemImage::new();
    let block = vec![9u8; 10];
    let (w, h, pixels) = img.render(block);
    // floor(sqrt(10)) is 3; four rows cover ten bytes
    assert_eq!(w, 3);
    assert_eq!(h, 4);
    assert_eq!(pixels.len(), 3 * 12);
    assert_eq!(pixels[3 * 9], 9);
    // the two pixels past the block's end are black
    assert_eq!(pixels[3 * 10], 0);
    assert_eq!(pixels[3 * 11], 0);
}

#[test]
fn render_single_byte() {
    let mut img = MemImage::new();
    let (w, h, pixels) = img.render(vec![200u8]);
    assert_eq!(w, 1);
    assert_eq!(h, 1);
    assert_eq!(pixels, vec![200, 200, 200]);
}

#[test]
fn proc_paths_with_digit_tails_name_pids() {
    assert_eq!(ProcSearch::pid_from_proc_path("/proc/1234"), Some(1234));
    assert_eq!(ProcSearch::pid_from_proc_path("/proc/1"), Some(1));
    assert_eq!(ProcSearch::pid_from_proc_path("/proc/uptime"), None);
    assert_eq!(ProcSearch::pid_from_proc_path("/proc/"), None);
    assert_eq!(ProcSearch::pid_from_proc_path("/proc/12a"), None);
    assert_eq!(ProcSearch::pid_from_proc_path("/sys/1234"), None);
    assert_eq!(ProcSearch::pid_from_proc_path(""), None);
    // beyond the pid word
    assert_eq!(ProcSearch::pid_from_proc_path("/proc/4294967295"), Some(4294967295));
    assert_eq!(ProcSearch::pid_from_proc_path("/proc/4294967296"), None);
}

#[test]
fn name_matching_is_substring_containment() {
    assert!(ProcSearch::name_matches("novimem", "novi"));
    assert!(ProcSearch::name_matches("novimem", "mem"));
    assert!(ProcSearch::name_matches("novimem", "novimem"));
    assert!(ProcSearch::name_matches("novimem", ""));
    assert!(!ProcSearch::name_matches("novimem", "emem"));
    assert!(!ProcSearch::name_matches("nm", "novimem"));
}

#[test]
fn hex_and_decimal_text_render_exactly() {
    assert_eq!(u64_to_hex(0), "0");
    assert_eq!(u64_to_hex(255), "FF");
    assert_eq!(u64_to_hex(0xDEADBEEF), "DEADBEEF");
    assert_eq!(u64_to_hex(u64::MAX), "FFFFFFFFFFFFFFFF");
    assert_eq!(u64_to_dec(0), "0");
    assert_eq!(u64_to_dec(1000), "1000");
    assert_eq!(u64_to_dec(u64::MAX), "18446744073709551615");
}
