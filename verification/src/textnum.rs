//! Decimal and hexadecimal text: digit classification, the numeric value of
//! a digit string, and rendering of unsigned values as text.

use vstd::prelude::*;

verus! {

pub open spec fn is_dec_digit(c: char) -> bool {
    '0' <= c <= '9'
}

pub open spec fn is_hex_digit(c: char) -> bool {
    is_dec_digit(c) || ('a' <= c <= 'f') || ('A' <= c <= 'F')
}

pub open spec fn hex_digit_value(c: char) -> int {
    if is_dec_digit(c) {
        c as int - '0' as int
    } else if 'a' <= c <= 'f' {
        c as int - 'a' as int + 10
    } else {
        c as int - 'A' as int + 10
    }
}

pub open spec fn all_dec_digits(s: Seq<char>) -> bool {
    forall|i: int| 0 <= i < s.len() ==> is_dec_digit(#[trigger] s[i])
}

pub open spec fn all_hex_digits(s: Seq<char>) -> bool {
    forall|i: int| 0 <= i < s.len() ==> is_hex_digit(#[trigger] s[i])
}

/// Value of a decimal digit string, most significant digit first.
pub open spec fn dec_value(s: Seq<char>) -> int
    decreases s.len(),
{
    if s.len() == 0 {
        0
    } else {
        dec_value(s.drop_last()) * 10 + (s.last() as int - '0' as int)
    }
}

/// Value of a hexadecimal digit string, most significant digit first.
pub open spec fn hex_value(s: Seq<char>) -> int
    decreases s.len(),
{
    if s.len() == 0 {
        0
    } else {
        hex_value(s.drop_last()) * 16 + hex_digit_value(s.last())
    }
}

/// The digit character for a value below 16, upper case.
pub open spec fn digit_char(d: int) -> char {
    if d == 0 {
        '0'
    } else if d == 1 {
        '1'
    } else if d == 2 {
        '2'
    } else if d == 3 {
        '3'
    } else if d == 4 {
        '4'
    } else if d == 5 {
        '5'
    } else if d == 6 {
        '6'
    } else if d == 7 {
        '7'
    } else if d == 8 {
        '8'
    } else if d == 9 {
        '9'
    } else if d == 10 {
        'A'
    } else if d == 11 {
        'B'
    } else if d == 12 {
        'C'
    } else if d == 13 {
        'D'
    } else if d == 14 {
        'E'
    } else {
        'F'
    }
}

/// Decimal rendering of a non-negative value, no leading zeros (`"0"` for 0).
pub open spec fn dec_str(v: int) -> Seq<char>
    decreases v,
{
    if v < 10 {
        seq![digit_char(v)]
    } else {
        dec_str(v / 10).push(digit_char(v % 10))
    }
}

/// Upper-case hexadecimal rendering of a non-negative value, no leading
/// zeros (`"0"` for 0).
pub open spec fn hex_str(v: int) -> Seq<char>
    decreases v,
{
    if v < 16 {
        seq![digit_char(v)]
    } else {
        hex_str(v / 16).push(digit_char(v % 16))
    }
}

pub proof fn lemma_dec_value_nonneg(s: Seq<char>)
    requires
        all_dec_digits(s),
    ensures
        dec_value(s) >= 0,
    decreases s.len(),
{
    if s.len() > 0 {
        assert(all_dec_digits(s.drop_last()));
        lemma_dec_value_nonneg(s.drop_last());
    }
}

pub proof fn lemma_hex_value_nonneg(s: Seq<char>)
    requires
        all_hex_digits(s),
    ensures
        hex_value(s) >= 0,
    decreases s.len(),
{
    if s.len() > 0 {
        assert(all_hex_digits(s.drop_last()));
        lemma_hex_value_nonneg(s.drop_last());
    }
}

/// A prefix of a decimal digit string never exceeds the whole string's value.
pub proof fn lemma_dec_value_prefix_le(s: Seq<char>, i: int)
    requires
        all_dec_digits(s),
        0 <= i <= s.len(),
    ensures
        dec_value(s.subrange(0, i)) <= dec_value(s),
    decreases s.len() - i,
{
    if i == s.len() {
        assert(s.subrange(0, i) =~= s);
    } else {
        let p = s.subrange(0, i);
        let q = s.subrange(0, i + 1);
        assert(q.drop_last() =~= p);
        assert(all_dec_digits(p));
        lemma_dec_value_nonneg(p);
        lemma_dec_value_prefix_le(s, i + 1);
    }
}

/// A prefix of a hexadecimal digit string never exceeds the whole string's
/// value.
pub proof fn lemma_hex_value_prefix_le(s: Seq<char>, i: int)
    requires
        all_hex_digits(s),
        0 <= i <= s.len(),
    ensures
        hex_value(s.subrange(0, i)) <= hex_value(s),
    decreases s.len() - i,
{
    if i == s.len() {
        assert(s.subrange(0, i) =~= s);
    } else {
        let p = s.subrange(0, i);
        let q = s.subrange(0, i + 1);
        assert(q.drop_last() =~= p);
        assert(all_hex_digits(p));
        lemma_hex_value_nonneg(p);
        lemma_hex_value_prefix_le(s, i + 1);
    }
}

/// The digit character for a value below 16, as a one-character string.
pub fn digit_to_str(d: u64) -> (r: &'static str)
    requires
        d < 16,
    ensures
        r@ =~= seq![digit_char(d as int)],
{
    proof {
        reveal_strlit("0");
        reveal_strlit("1");
        reveal_strlit("2");
        reveal_strlit("3");
        reveal_strlit("4");
        reveal_strlit("5");
        reveal_strlit("6");
        reveal_strlit("7");
        reveal_strlit("8");
        reveal_strlit("9");
        reveal_strlit("A");
        reveal_strlit("B");
        reveal_strlit("C");
        reveal_strlit("D");
        reveal_strlit("E");
        reveal_strlit("F");
    }
    match d {
        0 => "0",
        1 => "1",
        2 => "2",
        3 => "3",
        4 => "4",
        5 => "5",
        6 => "6",
        7 => "7",
        8 => "8",
        9 => "9",
        10 => "A",
        11 => "B",
        12 => "C",
        13 => "D",
        14 => "E",
        _ => "F",
    }
}

/// Render `v` in decimal.
pub fn u64_to_dec(v: u64) -> (r: String)
    ensures
        r@ == dec_str(v as int),
    decreases v,
{
    if v < 10 {
        String::from_str(digit_to_str(v))
    } else {
        let mut s = u64_to_dec(v / 10);
        s.append(digit_to_str(v % 10));
        assert(s@ =~= dec_str(v as int / 10).push(digit_char(v as int % 10)));
        s
    }
}

/// Render `v` in upper-case hexadecimal, without a base prefix.
pub fn u64_to_hex(v: u64) -> (r: String)
    ensures
        r@ == hex_str(v as int),
    decreases v,
{
    if v < 16 {
        String::from_str(digit_to_str(v))
    } else {
        let mut s = u64_to_hex(v / 16);
        s.append(digit_to_str(v % 16));
        assert(s@ =~= hex_str(v as int / 16).push(digit_char(v as int % 16)));
        s
    }
}

/// Classify one character as a decimal digit.
pub fn dec_digit(c: char) -> (r: bool)
    ensures
        r == is_dec_digit(c),
{
    '0' <= c && c <= '9'
}

/// Classify one character as a hexadecimal digit.
pub fn hex_digit(c: char) -> (r: bool)
    ensures
        r == is_hex_digit(c),
{
    ('0' <= c && c <= '9') || ('a' <= c && c <= 'f') || ('A' <= c && c <= 'F')
}

/// The numeric value of one hexadecimal digit character.
pub fn hex_digit_val(c: char) -> (r: u64)
    requires
        is_hex_digit(c),
    ensures
        r as int == hex_digit_value(c),
        r < 16,
{
    if '0' <= c && c <= '9' {
        (c as u32 - '0' as u32) as u64
    } else if 'a' <= c && c <= 'f' {
        (c as u32 - 'a' as u32) as u64 + 10
    } else {
        (c as u32 - 'A' as u32) as u64 + 10
    }
}

/// The value of the decimal digits `s[start..end]`, or `None` when it does
/// not fit in a `u64`.
pub fn dec_range_value(s: &str, start: usize, end: usize) -> (r: Option<u64>)
    requires
        start <= end <= s@.len(),
        all_dec_digits(s@.subrange(start as int, end as int)),
    ensures
        match r {
            Some(v) => v as int == dec_value(s@.subrange(start as int, end as int)),
            None => dec_value(s@.subrange(start as int, end as int)) > u64::MAX,
        },
{
    let ghost whole = s@.subrange(start as int, end as int);
    let mut acc: u64 = 0;
    let mut i: usize = start;
    while i < end
        invariant
            start <= i <= end <= s@.len(),
            all_dec_digits(whole),
            whole == s@.subrange(start as int, end as int),
            acc as int == dec_value(s@.subrange(start as int, i as int)),
        decreases end - i,
    {
        let c = s.get_char(i);
        let ghost pre = s@.subrange(start as int, i as int);
        let ghost cur = s@.subrange(start as int, i + 1);
        assert(cur.drop_last() =~= pre);
        assert(whole[i - start] == c);
        let d = (c as u32 - '0' as u32) as u64;
        if acc > (u64::MAX - d) / 10 {
            proof {
                lemma_dec_value_prefix_le(whole, i + 1 - start);
                assert(whole.subrange(0, i + 1 - start) =~= cur);
            }
            return None;
        }
        acc = acc * 10 + d;
        i += 1;
    }
    assert(s@.subrange(start as int, i as int) =~= whole);
    Some(acc)
}

/// The value of the hexadecimal digits `s[start..end]`, or `None` when it
/// does not fit in a `u64`.
pub fn hex_range_value(s: &str, start: usize, end: usize) -> (r: Option<u64>)
    requires
        start <= end <= s@.len(),
        all_hex_digits(s@.subrange(start as int, end as int)),
    ensures
        match r {
            Some(v) => v as int == hex_value(s@.subrange(start as int, end as int)),
            None => hex_value(s@.subrange(start as int, end as int)) > u64::MAX,
        },
{
    let ghost whole = s@.subrange(start as int, end as int);
    let mut acc: u64 = 0;
    let mut i: usize = start;
    while i < end
        invariant
            start <= i <= end <= s@.len(),
            all_hex_digits(whole),
            whole == s@.subrange(start as int, end as int),
            acc as int == hex_value(s@.subrange(start as int, i as int)),
        decreases end - i,
    {
        let c = s.get_char(i);
        let ghost pre = s@.subrange(start as int, i as int);
        let ghost cur = s@.subrange(start as int, i + 1);
        assert(cur.drop_last() =~= pre);
        assert(whole[i - start] == c);
        let d = hex_digit_val(c);
        if acc > (u64::MAX - d) / 16 {
            proof {
                lemma_hex_value_prefix_le(whole, i + 1 - start);
                assert(whole.subrange(0, i + 1 - start) =~= cur);
            }
            return None;
        }
        acc = acc * 16 + d;
        i += 1;
    }
    assert(s@.subrange(start as int, i as int) =~= whole);
    Some(acc)
}

/// First index at or after `i` that does not hold a hexadecimal digit.
pub open spec fn span_hex(s: Seq<char>, i: int) -> int
    decreases s.len() - i,
{
    if i < 0 || i >= s.len() || !is_hex_digit(s[i]) {
        i
    } else {
        span_hex(s, i + 1)
    }
}

/// First index at or after `i` that does not hold a decimal digit.
pub open spec fn span_dec(s: Seq<char>, i: int) -> int
    decreases s.len() - i,
{
    if i < 0 || i >= s.len() || !is_dec_digit(s[i]) {
        i
    } else {
        span_dec(s, i + 1)
    }
}

pub open spec fn is_ws(c: char) -> bool {
    c == ' ' || c == '\t'
}

/// First index at or after `i` that does not hold whitespace.
pub open spec fn span_ws(s: Seq<char>, i: int) -> int
    decreases s.len() - i,
{
    if i < 0 || i >= s.len() || !is_ws(s[i]) {
        i
    } else {
        span_ws(s, i + 1)
    }
}

pub proof fn lemma_span_hex(s: Seq<char>, i: int)
    requires
        0 <= i <= s.len(),
    ensures
        i <= span_hex(s, i) <= s.len(),
        forall|k: int| i <= k < span_hex(s, i) ==> is_hex_digit(#[trigger] s[k]),
        span_hex(s, i) == s.len() || !is_hex_digit(s[span_hex(s, i)]),
    decreases s.len() - i,
{
    if i < s.len() && is_hex_digit(s[i]) {
        lemma_span_hex(s, i + 1);
    }
}

pub proof fn lemma_span_dec(s: Seq<char>, i: int)
    requires
        0 <= i <= s.len(),
    ensures
        i <= span_dec(s, i) <= s.len(),
        forall|k: int| i <= k < span_dec(s, i) ==> is_dec_digit(#[trigger] s[k]),
        span_dec(s, i) == s.len() || !is_dec_digit(s[span_dec(s, i)]),
    decreases s.len() - i,
{
    if i < s.len() && is_dec_digit(s[i]) {
        lemma_span_dec(s, i + 1);
    }
}

pub proof fn lemma_span_ws(s: Seq<char>, i: int)
    requires
        0 <= i <= s.len(),
    ensures
        i <= span_ws(s, i) <= s.len(),
    decreases s.len() - i,
{
    if i < s.len() && is_ws(s[i]) {
        lemma_span_ws(s, i + 1);
    }
}


pub fn span_hex_exec(s: &str, i: usize, n: usize) -> (j: usize)
    requires
        i <= n,
        n == s@.len(),
    ensures
        j as int == span_hex(s@, i as int),
        i <= j <= n,
    decreases n - i,
{
    proof {
        lemma_span_hex(s@, i as int);
    }
    if i < n && hex_digit(s.get_char(i)) {
        span_hex_exec(s, i + 1, n)
    } else {
        i
    }
}

pub fn span_dec_exec(s: &str, i: usize, n: usize) -> (j: usize)
    requires
        i <= n,
        n == s@.len(),
    ensures
        j as int == span_dec(s@, i as int),
        i <= j <= n,
    decreases n - i,
{
    proof {
        lemma_span_dec(s@, i as int);
    }
    if i < n && dec_digit(s.get_char(i)) {
        span_dec_exec(s, i + 1, n)
    } else {
        i
    }
}

pub fn span_ws_exec(s: &str, i: usize, n: usize) -> (j: usize)
    requires
        i <= n,
        n == s@.len(),
    ensures
        j as int == span_ws(s@, i as int),
        i <= j <= n,
    decreases n - i,
{
    proof {
        lemma_span_ws(s@, i as int);
    }
    if i < n {
        let c = s.get_char(i);
        if c == ' ' || c == '\t' {
            return span_ws_exec(s, i + 1, n);
        }
    }
    i
}

/// The characters of `s` with every NUL dropped.
pub open spec fn without_nuls(s: Seq<char>) -> Seq<char>
    decreases s.len(),
{
    if s.len() == 0 {
        Seq::empty()
    } else if s.last() == '\0' {
        without_nuls(s.drop_last())
    } else {
        without_nuls(s.drop_last()).push(s.last())
    }
}


/// Each digit character stands for its value.
pub proof fn lemma_digit_char_value(d: int)
    requires
        0 <= d < 10,
    ensures
        is_dec_digit(digit_char(d)),
        digit_char(d) as int - '0' as int == d,
{
}

/// A decimal rendering is a non-empty digit string whose value is the
/// rendered number.
pub proof fn lemma_dec_str_wf(v: int)
    requires
        v >= 0,
    ensures
        all_dec_digits(dec_str(v)),
        dec_str(v).len() >= 1,
        dec_value(dec_str(v)) == v,
    decreases v,
{
    if v < 10 {
        lemma_digit_char_value(v);
        let w = dec_str(v);
        assert(w =~= seq![digit_char(v)]);
        assert(w.drop_last() =~= Seq::<char>::empty());
        assert(w.last() == digit_char(v));
        assert(dec_value(w.drop_last()) == 0);
        assert(dec_value(w) == v);
    } else {
        lemma_dec_str_wf(v / 10);
        lemma_digit_char_value(v % 10);
        let p = dec_str(v / 10);
        let w = dec_str(v);
        assert(w == p.push(digit_char(v % 10)));
        assert(w.drop_last() =~= p);
        assert(w.last() == digit_char(v % 10));
        assert(dec_value(w) == dec_value(p) * 10 + (v % 10));
        assert forall|k: int| 0 <= k < w.len() implies is_dec_digit(#[trigger] w[k]) by {
            if k < p.len() {
                assert(w[k] == p[k]);
            }
        }
    }
}

/// The digit span ends exactly where the digits end.
pub proof fn lemma_span_dec_exact(s: Seq<char>, i: int, j: int)
    requires
        0 <= i <= j <= s.len(),
        forall|k: int| i <= k < j ==> is_dec_digit(#[trigger] s[k]),
        j == s.len() || !is_dec_digit(s[j]),
    ensures
        span_dec(s, i) == j,
    decreases j - i,
{
    if i < j {
        lemma_span_dec_exact(s, i + 1, j);
    }
}

} // verus!
