//! The region map: one record per virtual memory span of the target, parsed
//! from the kernel's per-process map listing.
//!
//! Each non-blank line of that listing follows the grammar
//! `HEX-HEX SP PERMS(4) SP HEXOFF SP HEXDEV SP DEC-INODE WS NAME?` with
//! `PERMS` four characters from `[r-][w-][x-][ps]`. A line that does not
//! match, or whose addresses do not satisfy `start < end`, is rejected and
//! the caller reports it and moves on.

use vstd::prelude::*;

use crate::textnum::{
    dec_digit, hex_digit, hex_range_value, hex_str, hex_value, is_hex_digit, is_ws,
    lemma_span_hex, span_dec, span_dec_exec, span_hex, span_hex_exec, span_ws, span_ws_exec,
    u64_to_hex, without_nuls,
};

verus! {

/// One span of the target's virtual address space.
pub struct MemRegion {
    pub start_addr: u64,
    pub end_addr: u64,
    pub size: usize,
    pub readable: bool,
    pub writeable: bool,
    pub execable: bool,
    pub private: bool,
    pub shared: bool,
    pub name: String,
}

/// Mathematical model of a region: the same record with the name as a
/// character sequence and the size left implicit.
pub struct RegionModel {
    pub start_addr: u64,
    pub end_addr: u64,
    pub readable: bool,
    pub writeable: bool,
    pub execable: bool,
    pub private: bool,
    pub shared: bool,
    pub name: Seq<char>,
}

impl View for MemRegion {
    type V = RegionModel;

    open spec fn view(&self) -> RegionModel {
        RegionModel {
            start_addr: self.start_addr,
            end_addr: self.end_addr,
            readable: self.readable,
            writeable: self.writeable,
            execable: self.execable,
            private: self.private,
            shared: self.shared,
            name: self.name@,
        }
    }
}

impl MemRegion {
    /// Region invariant: a non-empty span whose size is the address
    /// difference.
    pub open spec fn wf(self) -> bool {
        &&& self.start_addr < self.end_addr
        &&& self.size as int == self.end_addr - self.start_addr
    }

    /// The region holds this absolute address.
    pub open spec fn spec_contains(self, addr: u64) -> bool {
        self.start_addr <= addr < self.end_addr
    }

    /// Whether the region holds `addr` (start inclusive, end exclusive).
    pub fn contains(&self, addr: u64) -> (r: bool)
        ensures
            r == self.spec_contains(addr),
    {
        self.start_addr <= addr && addr < self.end_addr
    }

    /// The file name a dump of this region is written under: start, size and
    /// end in hexadecimal, dot-separated, with a `dump` suffix.
    pub fn dump_name(&self) -> (r: String)
        ensures
            r@ == hex_str(self.start_addr as int) + seq!['.'] + hex_str(self.size as int)
                + seq!['.'] + hex_str(self.end_addr as int) + seq!['.', 'd', 'u', 'm', 'p'],
    {
        proof {
            reveal_strlit(".");
            reveal_strlit(".dump");
        }
        let mut out = u64_to_hex(self.start_addr);
        out.append(".");
        let hs = u64_to_hex(self.size as u64);
        out.append(hs.as_str());
        out.append(".");
        let he = u64_to_hex(self.end_addr);
        out.append(he.as_str());
        out.append(".dump");
        assert(out@ =~= hex_str(self.start_addr as int) + seq!['.'] + hex_str(self.size as int)
            + seq!['.'] + hex_str(self.end_addr as int) + seq!['.', 'd', 'u', 'm', 'p']);
        out
    }
}

impl RegionModel {
    /// A region qualifies for scanning: both readable and writeable, and not
    /// the main stack.
    pub open spec fn eligible(self) -> bool {
        self.readable && self.writeable && self.name != "[stack]"@
    }
}

/// The parse of one map line: `None` when the line does not match the
/// grammar, when an address does not fit the machine, or when the span is
/// empty or backwards.
pub open spec fn parse_line(s: Seq<char>) -> Option<RegionModel> {
    let h1 = span_hex(s, 0);
    let h2 = span_hex(s, h1 + 1);
    if !(0 < h1 && h1 < s.len() && s[h1] == '-') {
        None
    } else if !(h1 + 1 < h2 && h2 < s.len() && s[h2] == ' ') {
        None
    } else if !(h2 + 6 <= s.len()) {
        None
    } else if !((s[h2 + 1] == 'r' || s[h2 + 1] == '-') && (s[h2 + 2] == 'w' || s[h2 + 2] == '-')
        && (s[h2 + 3] == 'x' || s[h2 + 3] == '-') && (s[h2 + 4] == 'p' || s[h2 + 4] == 's')
        && s[h2 + 5] == ' ') {
        None
    } else {
        let off_end = span_hex(s, h2 + 6);
        if !(h2 + 6 < off_end && off_end < s.len() && s[off_end] == ' ') {
            None
        } else {
            let dev1 = span_hex(s, off_end + 1);
            let dev2 = span_hex(s, dev1 + 1);
            if !(off_end + 1 < dev1 && dev1 < s.len() && s[dev1] == ':') {
                None
            } else if !(dev1 + 1 < dev2 && dev2 < s.len() && s[dev2] == ' ') {
                None
            } else {
                let ino_end = span_dec(s, dev2 + 1);
                if !(dev2 + 1 < ino_end) {
                    None
                } else if !(ino_end == s.len() || is_ws(s[ino_end])) {
                    None
                } else {
                    let start = hex_value(s.subrange(0, h1));
                    let end = hex_value(s.subrange(h1 + 1, h2));
                    if !(start <= u64::MAX && end <= u64::MAX && start < end && end - start
                        <= usize::MAX) {
                        None
                    } else {
                        let raw_name = s.subrange(span_ws(s, ino_end), s.len() as int);
                        Some(
                            RegionModel {
                                start_addr: start as u64,
                                end_addr: end as u64,
                                readable: s[h2 + 1] == 'r',
                                writeable: s[h2 + 2] == 'w',
                                execable: s[h2 + 3] == 'x',
                                private: s[h2 + 4] == 'p',
                                shared: s[h2 + 4] == 's',
                                name: if raw_name.len() == 0 {
                                    hex_str(start)
                                } else {
                                    without_nuls(raw_name)
                                },
                            },
                        )
                    }
                }
            }
        }
    }
}

/// The regions that survive the eligibility filter, in line order: parsed
/// regions that are readable, writeable and not the main stack.
pub open spec fn eligible_regions(lines: Seq<Seq<char>>) -> Seq<RegionModel>
    decreases lines.len(),
{
    if lines.len() == 0 {
        Seq::empty()
    } else {
        let rest = eligible_regions(lines.drop_first());
        match parse_line(lines.first()) {
            Some(m) => if m.eligible() {
                seq![m] + rest
            } else {
                rest
            },
            None => rest,
        }
    }
}

/// Region filtering, soundness: every region the filter keeps is readable,
/// writeable and not named `[stack]`.
pub proof fn lemma_region_filtering_sound(lines: Seq<Seq<char>>)
    ensures
        forall|k: int|
            0 <= k < eligible_regions(lines).len() ==> (#[trigger] eligible_regions(
                lines,
            )[k]).eligible(),
    decreases lines.len(),
{
    if lines.len() > 0 {
        lemma_region_filtering_sound(lines.drop_first());
        let rest = eligible_regions(lines.drop_first());
        let whole = eligible_regions(lines);
        match parse_line(lines.first()) {
            Some(m) => {
                if m.eligible() {
                    assert forall|k: int| 0 <= k < whole.len() implies (#[trigger] whole[k]).eligible() by {
                        if k > 0 {
                            assert(whole[k] == rest[k - 1]);
                        }
                    }
                } else {
                    assert forall|k: int| 0 <= k < whole.len() implies (#[trigger] whole[k]).eligible() by {
                        assert(whole[k] == rest[k]);
                    }
                }
            },
            None => {
                assert forall|k: int| 0 <= k < whole.len() implies (#[trigger] whole[k]).eligible() by {
                    assert(whole[k] == rest[k]);
                }
            },
        }
    }
}

/// Region filtering, completeness: every line that parses to an eligible
/// region contributes that region to the filtered list.
pub proof fn lemma_region_filtering_complete(lines: Seq<Seq<char>>, i: int)
    requires
        0 <= i < lines.len(),
        parse_line(lines[i]) is Some,
        parse_line(lines[i])->Some_0.eligible(),
    ensures
        eligible_regions(lines).contains(parse_line(lines[i])->Some_0),
    decreases lines.len(),
{
    let m = parse_line(lines[i])->Some_0;
    let whole = eligible_regions(lines);
    let rest = eligible_regions(lines.drop_first());
    if i == 0 {
        assert(whole[0] == m);
    } else {
        lemma_region_filtering_complete(lines.drop_first(), i - 1);
        let j = choose|j: int| 0 <= j < rest.len() && rest[j] == m;
        match parse_line(lines.first()) {
            Some(m0) => {
                if m0.eligible() {
                    assert(whole[j + 1] == rest[j]);
                } else {
                    assert(whole[j] == rest[j]);
                }
            },
            None => {
                assert(whole[j] == rest[j]);
            },
        }
    }
}

/// Copy the characters of `s[start..end]` with every NUL dropped.
pub fn strip_nuls_range(s: &str, start: usize, end: usize) -> (r: String)
    requires
        start <= end <= s@.len(),
    ensures
        r@ == without_nuls(s@.subrange(start as int, end as int)),
{
    let mut r = String::new();
    let mut i: usize = start;
    while i < end
        invariant
            start <= i <= end <= s@.len(),
            r@ == without_nuls(s@.subrange(start as int, i as int)),
        decreases end - i,
    {
        let c = s.get_char(i);
        let ghost pre = s@.subrange(start as int, i as int);
        let ghost cur = s@.subrange(start as int, i + 1);
        assert(cur.drop_last() =~= pre);
        assert(cur.last() == c);
        if c != '\0' {
            r.append(s.substring_char(i, i + 1));
            assert(s@.subrange(i as int, i + 1) =~= seq![c]);
            assert(r@ =~= without_nuls(pre).push(c));
        }
        i += 1;
    }
    assert(s@.subrange(start as int, i as int) =~= s@.subrange(start as int, end as int));
    r
}

/// Copy `s` with every NUL dropped.
pub fn strip_nuls(s: &str) -> (r: String)
    ensures
        r@ == without_nuls(s@),
{
    let n = s.unicode_len();
    let r = strip_nuls_range(s, 0, n);
    assert(s@.subrange(0, n as int) =~= s@);
    r
}

/// Parse one line of the map listing; mirrors `parse_line` exactly.
pub fn parse_maps_line(s: &str) -> (r: Option<MemRegion>)
    ensures
        match r {
            Some(reg) => parse_line(s@) == Some(reg@) && reg.wf(),
            None => parse_line(s@) is None,
        },
{
    let n = s.unicode_len();
    proof {
        lemma_span_hex(s@, 0);
    }
    let h1 = span_hex_exec(s, 0, n);
    if !(0 < h1 && h1 < n && s.get_char(h1) == '-') {
        return None;
    }
    let h2 = span_hex_exec(s, h1 + 1, n);
    if !(h1 + 1 < h2 && h2 < n && s.get_char(h2) == ' ') {
        return None;
    }
    if !(n - h2 >= 6) {
        return None;
    }
    let pr = s.get_char(h2 + 1);
    let pw = s.get_char(h2 + 2);
    let px = s.get_char(h2 + 3);
    let ps = s.get_char(h2 + 4);
    if !((pr == 'r' || pr == '-') && (pw == 'w' || pw == '-') && (px == 'x' || px == '-') && (ps
        == 'p' || ps == 's') && s.get_char(h2 + 5) == ' ') {
        return None;
    }
    let off_end = span_hex_exec(s, h2 + 6, n);
    if !(h2 + 6 < off_end && off_end < n && s.get_char(off_end) == ' ') {
        return None;
    }
    let dev1 = span_hex_exec(s, off_end + 1, n);
    if !(off_end + 1 < dev1 && dev1 < n && s.get_char(dev1) == ':') {
        return None;
    }
    let dev2 = span_hex_exec(s, dev1 + 1, n);
    if !(dev1 + 1 < dev2 && dev2 < n && s.get_char(dev2) == ' ') {
        return None;
    }
    let ino_end = span_dec_exec(s, dev2 + 1, n);
    if !(dev2 + 1 < ino_end) {
        return None;
    }
    if !(ino_end == n || {
        let c = s.get_char(ino_end);
        c == ' ' || c == '\t'
    }) {
        return None;
    }
    proof {
        lemma_span_hex(s@, h1 + 1);
    }
    let start = match hex_range_value(s, 0, h1) {
        Some(v) => v,
        None => {
            return None;
        },
    };
    let end = match hex_range_value(s, h1 + 1, h2) {
        Some(v) => v,
        None => {
            return None;
        },
    };
    if !(start < end && end - start <= usize::MAX as u64) {
        return None;
    }
    let name_start = span_ws_exec(s, ino_end, n);
    let name = if name_start == n {
        u64_to_hex(start)
    } else {
        strip_nuls_range(s, name_start, n)
    };
    proof {
        if name_start == n {
            assert(s@.subrange(name_start as int, n as int) =~= Seq::<char>::empty());
        }
    }
    let reg = MemRegion {
        start_addr: start,
        end_addr: end,
        size: (end - start) as usize,
        readable: pr == 'r',
        writeable: pw == 'w',
        execable: px == 'x',
        private: ps == 'p',
        shared: ps == 's',
        name,
    };
    Some(reg)
}

/// Whether a region qualifies for scanning.
pub fn region_eligible(r: &MemRegion) -> (b: bool)
    ensures
        b == r@.eligible(),
{
    let stack_name: String = String::from_str("[stack]");
    r.readable && r.writeable && !(r.name == stack_name)
}

} // verus!
