//! The typed value codec: the recognized scalar kinds, conversion between
//! operator-supplied text and host-native little-endian bytes, and the
//! decimal rendering of bytes read back from the target.
//!
//! Integer text is plain decimal, optionally negative for the signed kinds,
//! or hexadecimal behind a `0x` prefix. The float kinds carry only their
//! widths here; their text conversion lives with the shell.

use vstd::prelude::*;

use crate::textnum::{
    all_dec_digits, all_hex_digits, dec_range_value, dec_str, dec_value, hex_range_value,
    hex_value, lemma_span_dec, lemma_span_hex, span_dec_exec, span_hex_exec, u64_to_dec,
};

verus! {

/// The recognized scalar kinds.
#[derive(Clone, Copy, PartialEq, Eq, Structural, Debug)]
pub enum NumKind {
    U8,
    I8,
    U16,
    I16,
    U32,
    I32,
    U64,
    I64,
    F32,
    F64,
}

impl NumKind {
    /// Byte width of a value of this kind.
    pub open spec fn spec_width(self) -> nat {
        match self {
            NumKind::U8 | NumKind::I8 => 1,
            NumKind::U16 | NumKind::I16 => 2,
            NumKind::U32 | NumKind::I32 | NumKind::F32 => 4,
            NumKind::U64 | NumKind::I64 | NumKind::F64 => 8,
        }
    }

    pub open spec fn spec_is_float(self) -> bool {
        self == NumKind::F32 || self == NumKind::F64
    }

    pub open spec fn spec_is_signed(self) -> bool {
        self == NumKind::I8 || self == NumKind::I16 || self == NumKind::I32 || self
            == NumKind::I64
    }

    pub fn width(&self) -> (w: usize)
        ensures
            w == self.spec_width(),
    {
        match self {
            NumKind::U8 | NumKind::I8 => 1,
            NumKind::U16 | NumKind::I16 => 2,
            NumKind::U32 | NumKind::I32 | NumKind::F32 => 4,
            NumKind::U64 | NumKind::I64 | NumKind::F64 => 8,
        }
    }

    pub fn is_float(&self) -> (r: bool)
        ensures
            r == self.spec_is_float(),
    {
        match self {
            NumKind::F32 | NumKind::F64 => true,
            _ => false,
        }
    }

    pub fn is_signed(&self) -> (r: bool)
        ensures
            r == self.spec_is_signed(),
    {
        match self {
            NumKind::I8 | NumKind::I16 | NumKind::I32 | NumKind::I64 => true,
            _ => false,
        }
    }
}

/// 256 to the `w`: the number of byte patterns of width `w`.
pub open spec fn pow256(w: nat) -> int
    decreases w,
{
    if w == 0 {
        1
    } else {
        256 * pow256((w - 1) as nat)
    }
}

/// The little-endian bytes of the width-`w` pattern of `v`.
pub open spec fn le_bytes(v: int, w: nat) -> Seq<u8>
    decreases w,
{
    if w == 0 {
        Seq::empty()
    } else {
        seq![(v % 256) as u8] + le_bytes(v / 256, (w - 1) as nat)
    }
}

/// The unsigned value of little-endian bytes.
pub open spec fn le_value(b: Seq<u8>) -> int
    decreases b.len(),
{
    if b.len() == 0 {
        0
    } else {
        b.first() + 256 * le_value(b.drop_first())
    }
}

/// Two's-complement bit pattern of a value at width `w`.
pub open spec fn to_pattern(v: int, w: nat) -> int {
    if v >= 0 {
        v
    } else {
        v + pow256(w)
    }
}

/// The value a width-`w` pattern denotes under this kind: two's complement
/// for the signed kinds, the pattern itself otherwise.
pub open spec fn pattern_value(k: NumKind, pattern: int) -> int {
    if k.spec_is_signed() && pattern >= pow256(k.spec_width()) / 2 {
        pattern - pow256(k.spec_width())
    } else {
        pattern
    }
}

/// Least representable value of a kind.
pub open spec fn kind_min(k: NumKind) -> int {
    if k.spec_is_signed() {
        -(pow256(k.spec_width()) / 2)
    } else {
        0
    }
}

/// Greatest representable value of a kind.
pub open spec fn kind_max(k: NumKind) -> int {
    if k.spec_is_signed() {
        pow256(k.spec_width()) / 2 - 1
    } else {
        pow256(k.spec_width()) - 1
    }
}

/// The integer value an operator literal denotes under a kind: hexadecimal
/// behind `0x`, else decimal with an optional minus for the signed kinds;
/// `None` when the text has another shape or the value does not fit the
/// kind.
pub open spec fn parse_literal(k: NumKind, t: Seq<char>) -> Option<int> {
    if t.len() > 2 && t[0] == '0' && t[1] == 'x' {
        let digits = t.subrange(2, t.len() as int);
        if all_hex_digits(digits) && hex_value(digits) <= kind_max(k) {
            Some(hex_value(digits))
        } else {
            None
        }
    } else if t.len() > 1 && t[0] == '-' && k.spec_is_signed() {
        let digits = t.subrange(1, t.len() as int);
        if all_dec_digits(digits) && -dec_value(digits) >= kind_min(k) {
            Some(-dec_value(digits))
        } else {
            None
        }
    } else if t.len() > 0 && all_dec_digits(t) && dec_value(t) <= kind_max(k) {
        Some(dec_value(t))
    } else {
        None
    }
}

/// The decimal text of a width-`k` pattern: the two's-complement value for
/// the signed kinds, the pattern itself otherwise.
pub open spec fn render_pattern(k: NumKind, pattern: int) -> Seq<char> {
    if k.spec_is_signed() && pattern >= pow256(k.spec_width()) / 2 {
        seq!['-'] + dec_str(pow256(k.spec_width()) - pattern)
    } else {
        dec_str(pattern)
    }
}

pub proof fn lemma_pow256_pos(w: nat)
    ensures
        pow256(w) >= 1,
    decreases w,
{
    if w > 0 {
        lemma_pow256_pos((w - 1) as nat);
    }
}

/// Reading back the bytes of a pattern yields the pattern.
pub proof fn lemma_le_round_trip(v: int, w: nat)
    requires
        0 <= v < pow256(w),
    ensures
        le_value(le_bytes(v, w)) == v,
        le_bytes(v, w).len() == w,
    decreases w,
{
    if w == 0 {
    } else {
        let head = seq![(v % 256) as u8];
        let rest = le_bytes(v / 256, (w - 1) as nat);
        assert((head + rest).drop_first() =~= rest);
        assert((head + rest).first() == (v % 256) as u8);
        lemma_pow256_pos((w - 1) as nat);
        assert(v / 256 < pow256((w - 1) as nat)) by {
            assert(v < 256 * pow256((w - 1) as nat));
        }
        lemma_le_round_trip(v / 256, (w - 1) as nat);
    }
}

/// The unsigned value of any byte string fits its width.
pub proof fn lemma_le_value_bound(b: Seq<u8>)
    ensures
        0 <= le_value(b) < pow256(b.len() as nat),
    decreases b.len(),
{
    if b.len() > 0 {
        lemma_le_value_bound(b.drop_first());
    }
}

/// Codec round trip: a value within a kind's range, turned into its
/// little-endian byte pattern and read back, denotes the same value. This is
/// the verifiable core of the write-then-read round trip; the memory channel
/// in between is outside the library.
pub proof fn lemma_codec_round_trip(k: NumKind, v: int)
    requires
        !k.spec_is_float(),
        kind_min(k) <= v <= kind_max(k),
    ensures
        pattern_value(k, le_value(le_bytes(to_pattern(v, k.spec_width()), k.spec_width()))) == v,
{
    let w = k.spec_width();
    let pattern = to_pattern(v, w);
    lemma_pow256_pos(w);
    assert(0 <= pattern < pow256(w));
    lemma_le_round_trip(pattern, w);
}

/// Upper bound of the kind as a machine word.
fn kind_max_u64(k: NumKind) -> (r: u64)
    requires
        !k.spec_is_float(),
    ensures
        r as int == kind_max(k),
{
    proof {
        reveal_with_fuel(pow256, 9);
    }
    match k {
        NumKind::U8 => 255,
        NumKind::I8 => 127,
        NumKind::U16 => 65535,
        NumKind::I16 => 32767,
        NumKind::U32 => 0xFFFF_FFFF,
        NumKind::I32 => 0x7FFF_FFFF,
        NumKind::U64 => 0xFFFF_FFFF_FFFF_FFFF,
        NumKind::I64 => 0x7FFF_FFFF_FFFF_FFFF,
        NumKind::F32 | NumKind::F64 => 0,
    }
}

/// Magnitude of the least value of a signed kind.
fn kind_neg_mag_u64(k: NumKind) -> (r: u64)
    requires
        k.spec_is_signed(),
    ensures
        r as int == -kind_min(k),
{
    proof {
        reveal_with_fuel(pow256, 9);
    }
    match k {
        NumKind::I8 => 128,
        NumKind::I16 => 32768,
        NumKind::I32 => 0x8000_0000,
        NumKind::I64 => 0x8000_0000_0000_0000,
        _ => 0,
    }
}

/// Greatest pattern of the kind's width.
fn width_max_u64(k: NumKind) -> (r: u64)
    requires
        !k.spec_is_float(),
    ensures
        r as int == pow256(k.spec_width()) - 1,
{
    proof {
        reveal_with_fuel(pow256, 9);
    }
    match k {
        NumKind::U8 | NumKind::I8 => 255,
        NumKind::U16 | NumKind::I16 => 65535,
        NumKind::U32 | NumKind::I32 => 0xFFFF_FFFF,
        NumKind::U64 | NumKind::I64 => 0xFFFF_FFFF_FFFF_FFFF,
        NumKind::F32 | NumKind::F64 => 0,
    }
}

/// The little-endian bytes of the width-`w` pattern of `v`.
fn value_to_le_bytes(v: u64, w: usize) -> (b: Vec<u8>)
    ensures
        b@ == le_bytes(v as int, w as nat),
    decreases w,
{
    if w == 0 {
        let b: Vec<u8> = Vec::new();
        assert(b@ =~= le_bytes(v as int, 0));
        b
    } else {
        let mut out: Vec<u8> = Vec::new();
        out.push((v % 256) as u8);
        let mut rest = value_to_le_bytes(v / 256, w - 1);
        let ghost rest_view = rest@;
        out.append(&mut rest);
        assert(out@ =~= seq![(v as int % 256) as u8] + rest_view);
        out
    }
}

/// The unsigned value of little-endian bytes of at most word width.
fn le_bytes_to_value(bytes: &Vec<u8>) -> (v: u64)
    requires
        bytes@.len() <= 8,
    ensures
        v as int == le_value(bytes@),
{
    proof {
        reveal_with_fuel(pow256, 9);
    }
    let n = bytes.len();
    let mut acc: u64 = 0;
    let mut i: usize = n;
    assert(bytes@.skip(n as int) =~= Seq::<u8>::empty());
    while i > 0
        invariant
            0 <= i <= n,
            n == bytes@.len() <= 8,
            acc as int == le_value(bytes@.skip(i as int)),
            (acc as int) < pow256((n - i) as nat),
        decreases i,
    {
        let ghost sub = bytes@.skip(i - 1);
        assert(sub.first() == bytes@[i - 1]);
        assert(sub.drop_first() =~= bytes@.skip(i as int));
        proof {
            lemma_pow256_pos((n - i) as nat);
            assert(pow256((n - i + 1) as nat) == 256 * pow256((n - i) as nat));
            assert(pow256(8) == 0x1_0000_0000_0000_0000) by {
                reveal_with_fuel(pow256, 9);
            }
            assert(pow256((n - i + 1) as nat) <= pow256(8)) by {
                lemma_pow256_mono((n - i + 1) as nat, 8);
            }
        }
        acc = acc * 256 + (bytes[i - 1] as u64);
        i -= 1;
    }
    assert(bytes@.skip(0) =~= bytes@);
    acc
}

/// A smaller width never has more patterns.
proof fn lemma_pow256_mono(a: nat, b: nat)
    requires
        a <= b,
    ensures
        pow256(a) <= pow256(b),
    decreases b,
{
    if a < b {
        lemma_pow256_mono(a, (b - 1) as nat);
        lemma_pow256_pos((b - 1) as nat);
    }
}

/// Encode an operator literal as the little-endian bytes of the kind: the
/// text parses under the kind if and only if bytes come back, and the bytes
/// are the two's-complement pattern of the parsed value.
pub fn to_bytes(kind: NumKind, text: &str) -> (r: Option<Vec<u8>>)
    requires
        !kind.spec_is_float(),
    ensures
        match r {
            Some(b) => parse_literal(kind, text@) is Some && b@ == le_bytes(
                to_pattern(parse_literal(kind, text@)->Some_0, kind.spec_width()),
                kind.spec_width(),
            ),
            None => parse_literal(kind, text@) is None,
        },
{
    let n = text.unicode_len();
    let w = kind.width();
    if n > 2 && text.get_char(0) == '0' && text.get_char(1) == 'x' {
        let ghost digits = text@.subrange(2, n as int);
        let e = span_hex_exec(text, 2, n);
        proof {
            lemma_span_hex(text@, 2);
            if e == n {
                assert forall|j: int| 0 <= j < digits.len() implies crate::textnum::is_hex_digit(
                    #[trigger] digits[j],
                ) by {
                    assert(digits[j] == text@[2 + j]);
                }
            } else {
                assert(!crate::textnum::is_hex_digit(digits[e - 2]));
            }
        }
        if e != n {
            return None;
        }
        match hex_range_value(text, 2, n) {
            Some(v) => {
                proof {
                    lemma_pow256_pos(kind.spec_width());
                }
                if v <= kind_max_u64(kind) {
                    Some(value_to_le_bytes(v, w))
                } else {
                    None
                }
            },
            None => {
                proof {
                    lemma_pow256_mono(kind.spec_width(), 8);
                    assert(pow256(8) == 0x1_0000_0000_0000_0000) by {
                        reveal_with_fuel(pow256, 9);
                    }
                }
                None
            },
        }
    } else if n > 1 && text.get_char(0) == '-' && kind.is_signed() {
        let ghost digits = text@.subrange(1, n as int);
        let e = span_dec_exec(text, 1, n);
        proof {
            lemma_span_dec(text@, 1);
            if e == n {
                assert forall|j: int| 0 <= j < digits.len() implies crate::textnum::is_dec_digit(
                    #[trigger] digits[j],
                ) by {
                    assert(digits[j] == text@[1 + j]);
                }
            } else {
                assert(!crate::textnum::is_dec_digit(digits[e - 1]));
            }
        }
        if e != n {
            return None;
        }
        match dec_range_value(text, 1, n) {
            Some(mag) => {
                proof {
                    lemma_pow256_pos(kind.spec_width());
                }
                if mag <= kind_neg_mag_u64(kind) {
                    let pattern = if mag == 0 {
                        0
                    } else {
                        width_max_u64(kind) - mag + 1
                    };
                    assert(pattern as int == to_pattern(-(mag as int), kind.spec_width()));
                    Some(value_to_le_bytes(pattern, w))
                } else {
                    None
                }
            },
            None => {
                proof {
                    lemma_pow256_mono(kind.spec_width(), 8);
                    assert(pow256(8) == 0x1_0000_0000_0000_0000) by {
                        reveal_with_fuel(pow256, 9);
                    }
                }
                None
            },
        }
    } else {
        let ghost whole = text@;
        let e = span_dec_exec(text, 0, n);
        proof {
            lemma_span_dec(text@, 0);
            if e == n {
                assert forall|j: int| 0 <= j < whole.len() implies crate::textnum::is_dec_digit(
                    #[trigger] whole[j],
                ) by {
                }
            }
        }
        if n == 0 || e != n {
            return None;
        }
        assert(text@.subrange(0, n as int) =~= text@);
        match dec_range_value(text, 0, n) {
            Some(v) => {
                proof {
                    lemma_pow256_pos(kind.spec_width());
                }
                if v <= kind_max_u64(kind) {
                    Some(value_to_le_bytes(v, w))
                } else {
                    None
                }
            },
            None => {
                proof {
                    lemma_pow256_mono(kind.spec_width(), 8);
                    assert(pow256(8) == 0x1_0000_0000_0000_0000) by {
                        reveal_with_fuel(pow256, 9);
                    }
                }
                None
            },
        }
    }
}

/// Decode little-endian bytes under a kind into decimal text, negative for a
/// signed pattern with its top bit set.
pub fn from_bytes(kind: NumKind, bytes: &Vec<u8>) -> (r: String)
    requires
        !kind.spec_is_float(),
        bytes@.len() == kind.spec_width(),
    ensures
        r@ == render_pattern(kind, le_value(bytes@)),
{
    proof {
        reveal_strlit("-");
        lemma_le_value_bound(bytes@);
        lemma_pow256_pos(kind.spec_width());
    }
    let pattern = le_bytes_to_value(bytes);
    let half_mag = if kind.is_signed() {
        kind_neg_mag_u64(kind)
    } else {
        0
    };
    if kind.is_signed() && pattern >= half_mag {
        let mag = width_max_u64(kind) - pattern + 1;
        assert(mag as int == pow256(kind.spec_width()) - le_value(bytes@));
        let mut out = String::from_str("-");
        let num = u64_to_dec(mag);
        out.append(num.as_str());
        assert(out@ =~= seq!['-'] + dec_str(mag as int));
        out
    } else {
        u64_to_dec(pattern)
    }
}

} // verus!
