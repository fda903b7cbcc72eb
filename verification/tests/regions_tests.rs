//! The map-line parser and the region filter.

use novimem::regions::{parse_maps_line, strip_nuls};
use novimem::NoviMem;

#[test]
fn parses_a_full_line() {
    let r = parse_maps_line("7f0000000000-7f0000002000 rw-p 00001000 08:01 393221 /usr/lib/libc.so")
        .expect("line should parse");
    assert_eq!(r.start_addr, 0x7f0000000000);
    assert_eq!(r.end_addr, 0x7f0000002000);
    assert_eq!(r.size, 0x2000);
    assert!(r.readable);
    assert!(r.writeable);
    assert!(!r.execable);
    assert!(r.private);
    assert!(!r.shared);
    assert_eq!(r.name, "/usr/lib/libc.so");
}

#[test]
fn parses_permissions_and_sharing() {
    let r = parse_maps_line("1000-2000 r-xs 00000000 00:00 0 area").expect("line should parse");
    assert!(r.readable);
    assert!(!r.writeable);
    assert!(r.execable);
    assert!(!r.private);
    assert!(r.shared);
}

#[test]
fn synthesizes_missing_name_from_start_address() {
    let r = parse_maps_line("ab00-ac00 rw-p 00000000 00:00 0").expect("line should parse");
    assert_eq!(r.name, "AB00");
    // a name of only whitespace is missing too
    let r2 = parse_maps_line("ab00-ac00 rw-p 00000000 00:00 0   ").expect("line should parse");
    assert_eq!(r2.name, "AB00");
}

#[test]
fn strips_nuls_from_names() {
    let r = parse_maps_line("1000-2000 rw-p 00000000 00:00 0 [he\0ap]").expect("line should parse");
    assert_eq!(r.name, "[heap]");
    assert_eq!(strip_nuls("a\0b\0c"), "abc");
    assert_eq!(strip_nuls(""), "");
}

#[test]
fn rejects_lines_off_the_grammar() {
    assert!(parse_maps_line("").is_none());
    assert!(parse_maps_line("not a maps line").is_none());
    assert!(parse_maps_line("1000-2000 rw-p").is_none());
    // malformed permission field
    assert!(parse_maps_line("1000-2000 qw-p 00000000 00:00 0 x").is_none());
    assert!(parse_maps_line("1000-2000 rw-x 00000000 00:00 0 x").is_none());
    // missing device separator
    assert!(parse_maps_line("1000-2000 rw-p 00000000 0000 0 x").is_none());
    // empty or backwards span
    assert!(parse_maps_line("2000-1000 rw-p 00000000 00:00 0 x").is_none());
    assert!(parse_maps_line("1000-1000 rw-p 00000000 00:00 0 x").is_none());
    // address beyond 64 bits
    assert!(parse_maps_line("10000000000000000-20000000000000000 rw-p 0 0:0 0 x").is_none());
}

#[test]
fn filter_keeps_only_writable_readable_non_stack() {
    let mut m = NoviMem::new(1, String::from("t"));
    let lines = vec![
        String::from("1000-2000 rw-p 00000000 00:00 0 [heap]"),
        String::from("2000-3000 r--p 00000000 00:00 0 readonly"),
        String::from("3000-4000 rw-p 00000000 00:00 0 [stack]"),
        String::from("4000-5000 -w-p 00000000 00:00 0 writeonly"),
        String::from("garbage line"),
        String::from("5000-6000 rwxp 00000000 00:00 0 alsofine"),
        String::from("6000-7000 rw-s 00000000 00:00 0 shared"),
    ];
    let rejected = m.parse_maps(&lines);
    // only the garbage line fails to parse
    assert_eq!(rejected, vec![4]);
    let names: Vec<&str> = m.regions().iter().map(|r| r.name.as_str()).collect();
    assert_eq!(names, vec!["[heap]", "alsofine", "shared"]);
    for r in m.regions() {
        assert!(r.readable && r.writeable && r.name != "[stack]");
    }
}

#[test]
fn region_contains_is_start_inclusive_end_exclusive() {
    let r = parse_maps_line("1000-2000 rw-p 00000000 00:00 0 a").expect("line should parse");
    assert!(r.contains(0x1000));
    assert!(r.contains(0x1FFF));
    assert!(!r.contains(0x2000));
    assert!(!r.contains(0xFFF));
}

#[test]
fn dump_name_is_start_size_end() {
    let r = parse_maps_line("1000-2000 rw-p 00000000 00:00 0 a").expect("line should parse");
    assert_eq!(r.dump_name(), "1000.1000.2000.dump");
}

#[test]
fn module_lines_show_span_and_name() {
    let mut m = NoviMem::new(1, String::from("t"));
    let lines = vec![String::from("1000-2000 rw-p 00000000 00:00 0 [heap]")];
    m.parse_maps(&lines);
    let shown = m.module_lines();
    assert_eq!(shown, vec![String::from("1000:2000\t[heap]")]);
}

#[test]
fn decoration_names_containing_region() {
    let mut m = NoviMem::new(1, String::from("t"));
    let lines = vec![String::from("1000-2000 rw-p 00000000 00:00 0 [heap]")];
    m.parse_maps(&lines);
    // inside: address, region start, offset with start + offset == address
    assert_eq!(m.format_result(0x1010), "1010 (1000 + 10 in [heap])");
    assert_eq!(m.format_result(0x1000), "1000 (1000 + 0 in [heap])");
    // outside any region: the bare address
    assert_eq!(m.format_result(0x2000), "2000");
    let got = m.get_containing_region(0x1010).expect("contained");
    assert_eq!(got.0 + 0x10, 0x1010);
    assert_eq!(got.1, "[heap]");
    assert!(m.get_containing_region(0x0FFF).is_none());
}
