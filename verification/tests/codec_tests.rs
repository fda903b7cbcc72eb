//! The typed value codec: text to little-endian bytes and back.

use novimem::codec::{from_bytes, to_bytes};
use novimem::NumKind;

#[test]
fn widths_match_the_kinds() {
    assert_eq!(NumKind::U8.width(), 1);
    assert_eq!(NumKind::I8.width(), 1);
    assert_eq!(NumKind::U16.width(), 2);
    assert_eq!(NumKind::I16.width(), 2);
    assert_eq!(NumKind::U32.width(), 4);
    assert_eq!(NumKind::I32.width(), 4);
    assert_eq!(NumKind::U64.width(), 8);
    assert_eq!(NumKind::I64.width(), 8);
    assert_eq!(NumKind::F32.width(), 4);
    assert_eq!(NumKind::F64.width(), 8);
    assert!(NumKind::F32.is_float());
    assert!(NumKind::F64.is_float());
    assert!(!NumKind::U32.is_float());
    assert!(NumKind::I64.is_signed());
    assert!(!NumKind::U64.is_signed());
}

#[test]
fn write_then_read_round_trips() {
    // encode 42 as a u32, read the bytes back, decode to text
    let bytes = to_bytes(NumKind::U32, "42").expect("parses");
    assert_eq!(bytes, vec![42, 0, 0, 0]);
    assert_eq!(from_bytes(NumKind::U32, &bytes), "42");
}

#[test]
fn every_integer_kind_round_trips() {
    let cases: Vec<(NumKind, &str)> = vec![
        (NumKind::U8, "255"),
        (NumKind::I8, "-128"),
        (NumKind::U16, "65535"),
        (NumKind::I16, "-32768"),
        (NumKind::U32, "4294967295"),
        (NumKind::I32, "-2147483648"),
        (NumKind::U64, "18446744073709551615"),
        (NumKind::I64, "-9223372036854775808"),
        (NumKind::I64, "9223372036854775807"),
        (NumKind::I32, "0"),
        (NumKind::I16, "-1"),
    ];
    for (kind, text) in cases {
        let bytes = to_bytes(kind, text).expect("parses");
        assert_eq!(bytes.len(), kind.width());
        assert_eq!(from_bytes(kind, &bytes), text);
    }
}

#[test]
fn hex_literals_parse_with_prefix() {
    assert_eq!(to_bytes(NumKind::U32, "0x10").expect("parses"), vec![16, 0, 0, 0]);
    assert_eq!(
        to_bytes(NumKind::U64, "0x4041424344454647").expect("parses"),
        vec![0x47, 0x46, 0x45, 0x44, 0x43, 0x42, 0x41, 0x40]
    );
    assert_eq!(to_bytes(NumKind::U8, "0xfF").expect("parses"), vec![255]);
    // a hex literal for a signed kind must fit the signed range
    assert_eq!(to_bytes(NumKind::I8, "0x7F").expect("parses"), vec![0x7F]);
    assert!(to_bytes(NumKind::I8, "0x80").is_none());
}

#[test]
fn known_little_endian_patterns() {
    assert_eq!(to_bytes(NumKind::I32, "1000").expect("parses"), vec![0xE8, 3, 0, 0]);
    assert_eq!(to_bytes(NumKind::I32, "-1").expect("parses"), vec![0xFF, 0xFF, 0xFF, 0xFF]);
    assert_eq!(to_bytes(NumKind::I16, "-2").expect("parses"), vec![0xFE, 0xFF]);
    assert_eq!(from_bytes(NumKind::I32, &vec![0xFF, 0xFF, 0xFF, 0xFF]), "-1");
    assert_eq!(from_bytes(NumKind::U32, &vec![0xFF, 0xFF, 0xFF, 0xFF]), "4294967295");
    assert_eq!(from_bytes(NumKind::I8, &vec![0x80]), "-128");
    assert_eq!(from_bytes(NumKind::U16, &vec![0, 1]), "256");
}

#[test]
fn out_of_range_and_malformed_literals_are_rejected() {
    assert!(to_bytes(NumKind::U8, "256").is_none());
    assert!(to_bytes(NumKind::I8, "128").is_none());
    assert!(to_bytes(NumKind::I8, "-129").is_none());
    assert!(to_bytes(NumKind::U16, "65536").is_none());
    assert!(to_bytes(NumKind::U64, "18446744073709551616").is_none());
    assert!(to_bytes(NumKind::U32, "").is_none());
    assert!(to_bytes(NumKind::U32, "abc").is_none());
    assert!(to_bytes(NumKind::U32, "12a").is_none());
    assert!(to_bytes(NumKind::U32, "0x").is_none());
    assert!(to_bytes(NumKind::U32, "0xZZ").is_none());
    // a minus needs a signed kind
    assert!(to_bytes(NumKind::U32, "-1").is_none());
    assert!(to_bytes(NumKind::I32, "-").is_none());
    assert!(to_bytes(NumKind::I32, "- 1").is_none());
}

#[test]
fn negative_zero_is_zero() {
    let bytes = to_bytes(NumKind::I32, "-0").expect("parses");
    assert_eq!(bytes, vec![0, 0, 0, 0]);
    assert_eq!(from_bytes(NumKind::I32, &bytes), "0");
}
