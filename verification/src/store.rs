//! The named result store: an ordered association of unique names with
//! address lists, modelled as a `Map`, and its JSON file form — one object
//! mapping each name to an array of decimal addresses.

use vstd::prelude::*;

use crate::textnum::{
    dec_range_value, dec_str, dec_value, is_dec_digit, lemma_dec_str_wf, lemma_span_dec_exact,
    span_dec, span_dec_exec, u64_to_dec,
};

verus! {

/// The views of the entries: each name as a character sequence, each address
/// list as a sequence.
pub open spec fn entry_views(entries: Seq<(String, Vec<u64>)>) -> Seq<(Seq<char>, Seq<u64>)> {
    entries.map_values(|p: (String, Vec<u64>)| (p.0@, p.1@))
}

/// The mapping an entry list denotes; a later entry for the same name wins.
pub open spec fn map_of_views(es: Seq<(Seq<char>, Seq<u64>)>) -> Map<Seq<char>, Seq<u64>>
    decreases es.len(),
{
    if es.len() == 0 {
        Map::empty()
    } else {
        map_of_views(es.drop_last()).insert(es.last().0, es.last().1)
    }
}

/// The mapping an exec entry list denotes.
pub open spec fn store_map_of(entries: Seq<(String, Vec<u64>)>) -> Map<Seq<char>, Seq<u64>> {
    map_of_views(entry_views(entries))
}

/// No two entries share a name.
pub open spec fn unique_names(entries: Seq<(String, Vec<u64>)>) -> bool {
    forall|i: int, j: int|
        0 <= i < j < entries.len() ==> (#[trigger] entries[i]).0@ != (#[trigger] entries[j]).0@
}

proof fn lemma_entry_views_drop_last(entries: Seq<(String, Vec<u64>)>)
    requires
        entries.len() > 0,
    ensures
        entry_views(entries).drop_last() =~= entry_views(entries.drop_last()),
        entry_views(entries).last() == (entries.last().0@, entries.last().1@),
{
}

/// A name no entry carries is not in the map.
pub proof fn lemma_store_absent(entries: Seq<(String, Vec<u64>)>, n: Seq<char>)
    requires
        forall|i: int| 0 <= i < entries.len() ==> (#[trigger] entries[i]).0@ != n,
    ensures
        !store_map_of(entries).contains_key(n),
    decreases entries.len(),
{
    if entries.len() > 0 {
        let dl = entries.drop_last();
        assert(forall|i: int| 0 <= i < dl.len() ==> (#[trigger] dl[i]) == entries[i]);
        lemma_store_absent(dl, n);
        lemma_entry_views_drop_last(entries);
    }
}

/// With unique names, the map holds exactly each entry's list under its
/// name.
pub proof fn lemma_store_found(entries: Seq<(String, Vec<u64>)>, i: int)
    requires
        unique_names(entries),
        0 <= i < entries.len(),
    ensures
        store_map_of(entries).contains_key(entries[i].0@),
        store_map_of(entries)[entries[i].0@] == entries[i].1@,
    decreases entries.len(),
{
    lemma_entry_views_drop_last(entries);
    if i == entries.len() - 1 {
    } else {
        let dl = entries.drop_last();
        assert(forall|k: int| 0 <= k < dl.len() ==> (#[trigger] dl[k]) == entries[k]);
        lemma_store_found(dl, i);
        assert(entries[i].0@ != entries.last().0@);
    }
}

/// Replacing the list of entry `i` in place updates the map at that name.
pub proof fn lemma_store_update(
    entries: Seq<(String, Vec<u64>)>,
    i: int,
    name: String,
    v: Vec<u64>,
)
    requires
        unique_names(entries),
        0 <= i < entries.len(),
        name@ == entries[i].0@,
    ensures
        store_map_of(entries.update(i, (name, v))) =~= store_map_of(entries).insert(name@, v@),
        unique_names(entries.update(i, (name, v))),
    decreases entries.len(),
{
    let upd = entries.update(i, (name, v));
    assert forall|a: int, b: int| 0 <= a < b < upd.len() implies (#[trigger] upd[a]).0@
        != (#[trigger] upd[b]).0@ by {
        assert(entries[a].0@ != entries[b].0@);
    }
    lemma_entry_views_drop_last(entries);
    lemma_entry_views_drop_last(upd);
    if i == entries.len() - 1 {
        assert(upd.drop_last() =~= entries.drop_last());
    } else {
        let dl = entries.drop_last();
        assert(forall|k: int| 0 <= k < dl.len() ==> (#[trigger] dl[k]) == entries[k]);
        lemma_store_update(dl, i, name, v);
        assert(upd.drop_last() =~= dl.update(i, (name, v)));
        assert(upd.last() == entries.last());
        assert(entries.last().0@ != name@);
    }
}

/// Appending an entry with a fresh name inserts it into the map and keeps
/// the names unique.
pub proof fn lemma_store_push(entries: Seq<(String, Vec<u64>)>, name: String, v: Vec<u64>)
    requires
        forall|i: int| 0 <= i < entries.len() ==> (#[trigger] entries[i]).0@ != name@,
        unique_names(entries),
    ensures
        store_map_of(entries.push((name, v))) =~= store_map_of(entries).insert(name@, v@),
        unique_names(entries.push((name, v))),
{
    let pushed = entries.push((name, v));
    assert(pushed.drop_last() =~= entries);
    lemma_entry_views_drop_last(pushed);
    assert forall|a: int, b: int| 0 <= a < b < pushed.len() implies (#[trigger] pushed[a]).0@
        != (#[trigger] pushed[b]).0@ by {
        if b < pushed.len() - 1 {
            assert(entries[a].0@ != entries[b].0@);
        } else {
            assert(pushed[a] == entries[a]);
        }
    }
}

/// Removing entry `i` removes its name from the map and keeps the names
/// unique.
pub proof fn lemma_store_remove(entries: Seq<(String, Vec<u64>)>, i: int)
    requires
        unique_names(entries),
        0 <= i < entries.len(),
    ensures
        store_map_of(entries.remove(i)) =~= store_map_of(entries).remove(entries[i].0@),
        unique_names(entries.remove(i)),
    decreases entries.len(),
{
    let rem = entries.remove(i);
    assert forall|a: int, b: int| 0 <= a < b < rem.len() implies (#[trigger] rem[a]).0@
        != (#[trigger] rem[b]).0@ by {
        let a0 = if a < i {
            a
        } else {
            a + 1
        };
        let b0 = if b < i {
            b
        } else {
            b + 1
        };
        assert(rem[a] == entries[a0]);
        assert(rem[b] == entries[b0]);
        assert(entries[a0].0@ != entries[b0].0@);
    }
    lemma_entry_views_drop_last(entries);
    if i == entries.len() - 1 {
        assert(rem =~= entries.drop_last());
        let dl = entries.drop_last();
        assert(forall|k: int| 0 <= k < dl.len() ==> (#[trigger] dl[k]) == entries[k]);
        lemma_store_absent(dl, entries[i].0@);
        assert(store_map_of(entries.remove(i)) =~= store_map_of(entries).remove(entries[i].0@));
    } else {
        let dl = entries.drop_last();
        assert(forall|k: int| 0 <= k < dl.len() ==> (#[trigger] dl[k]) == entries[k]);
        lemma_store_remove(dl, i);
        assert(rem.drop_last() =~= dl.remove(i));
        lemma_entry_views_drop_last(rem);
        assert(rem.last() == entries.last());
        assert(entries.last().0@ != entries[i].0@);
    }
}

/// Index of the entry carrying `name`, when one exists.
pub fn find_entry(entries: &Vec<(String, Vec<u64>)>, name: &String) -> (r: Option<usize>)
    ensures
        match r {
            Some(i) => i < entries@.len() && entries@[i as int].0@ == name@,
            None => forall|i: int|
                0 <= i < entries@.len() ==> (#[trigger] entries@[i]).0@ != name@,
        },
{
    let mut i: usize = 0;
    while i < entries.len()
        invariant
            0 <= i <= entries@.len(),
            forall|k: int| 0 <= k < i ==> (#[trigger] entries@[k]).0@ != name@,
        decreases entries@.len() - i,
    {
        if entries[i].0.eq(name) {
            return Some(i);
        }
        i += 1;
    }
    None
}

/// JSON text of one character of a name: a backslash or double quote is
/// escaped, anything else stands as itself.
pub open spec fn escape_char(c: char) -> Seq<char> {
    if c == '"' || c == '\\' {
        seq!['\\', c]
    } else {
        seq![c]
    }
}

/// JSON text of a name, character by character.
pub open spec fn json_escape(s: Seq<char>) -> Seq<char>
    decreases s.len(),
{
    if s.len() == 0 {
        Seq::empty()
    } else {
        json_escape(s.drop_last()) + escape_char(s.last())
    }
}

/// JSON text of an address list without its brackets: decimal numbers
/// joined by commas.
pub open spec fn json_nums(ns: Seq<u64>) -> Seq<char>
    decreases ns.len(),
{
    if ns.len() == 0 {
        Seq::empty()
    } else if ns.len() == 1 {
        dec_str(ns[0] as int)
    } else {
        json_nums(ns.drop_last()) + seq![','] + dec_str(ns.last() as int)
    }
}

/// JSON text of one store entry: the quoted, escaped name, a colon, and the
/// bracketed address list.
pub open spec fn json_entry(name: Seq<char>, ns: Seq<u64>) -> Seq<char> {
    seq!['"'] + json_escape(name) + seq!['"', ':', '['] + json_nums(ns) + seq![']']
}

/// JSON text of the entries without the outer braces, joined by commas.
pub open spec fn json_entries(es: Seq<(Seq<char>, Seq<u64>)>) -> Seq<char>
    decreases es.len(),
{
    if es.len() == 0 {
        Seq::empty()
    } else if es.len() == 1 {
        json_entry(es[0].0, es[0].1)
    } else {
        json_entries(es.drop_last()) + seq![','] + json_entry(es.last().0, es.last().1)
    }
}

/// The JSON object the whole store serializes to.
pub open spec fn store_json(es: Seq<(Seq<char>, Seq<u64>)>) -> Seq<char> {
    seq!['{'] + json_entries(es) + seq!['}']
}

/// Append the escaped form of `s` to `out`.
fn append_escaped(out: &mut String, s: &String)
    ensures
        final(out)@ == old(out)@ + json_escape(s@),
{
    let n = s.as_str().unicode_len();
    let mut i: usize = 0;
    assert(s@.subrange(0, 0) =~= Seq::<char>::empty());
    assert(out@ =~= out@ + json_escape(s@.subrange(0, 0)));
    while i < n
        invariant
            0 <= i <= n,
            n == s@.len(),
            out@ == old(out)@ + json_escape(s@.subrange(0, i as int)),
        decreases n - i,
    {
        let c = s.as_str().get_char(i);
        let ghost pre = s@.subrange(0, i as int);
        let ghost cur = s@.subrange(0, i + 1);
        assert(cur.drop_last() =~= pre);
        assert(cur.last() == c);
        if c == '"' || c == '\\' {
            out.append("\\");
            proof {
                reveal_strlit("\\");
            }
        }
        out.append(s.as_str().substring_char(i, i + 1));
        assert(s@.subrange(i as int, i + 1) =~= seq![c]);
        assert(out@ =~= old(out)@ + json_escape(cur));
        i += 1;
    }
    assert(s@.subrange(0, n as int) =~= s@);
}

/// Append the comma-joined decimal form of `ns` to `out`.
fn append_nums(out: &mut String, ns: &Vec<u64>)
    ensures
        final(out)@ == old(out)@ + json_nums(ns@),
{
    let mut i: usize = 0;
    assert(json_nums(ns@.subrange(0, 0)) =~= Seq::<char>::empty());
    assert(out@ =~= out@ + json_nums(ns@.subrange(0, 0)));
    while i < ns.len()
        invariant
            0 <= i <= ns@.len(),
            out@ == old(out)@ + json_nums(ns@.subrange(0, i as int)),
        decreases ns@.len() - i,
    {
        let ghost pre = ns@.subrange(0, i as int);
        let ghost cur = ns@.subrange(0, i + 1);
        assert(cur.drop_last() =~= pre);
        assert(cur.last() == ns@[i as int]);
        if i > 0 {
            out.append(",");
            proof {
                reveal_strlit(",");
            }
        } else {
            assert(cur.len() == 1);
        }
        let num = u64_to_dec(ns[i]);
        out.append(num.as_str());
        assert(out@ =~= old(out)@ + json_nums(cur));
        i += 1;
    }
    assert(ns@.subrange(0, ns@.len() as int) =~= ns@);
}

/// Serialize the whole store: a JSON object whose keys are the names, in
/// entry order, each mapped to its address array.
pub fn searches_to_json(entries: &Vec<(String, Vec<u64>)>) -> (r: String)
    ensures
        r@ == store_json(entry_views(entries@)),
{
    proof {
        reveal_strlit("{");
        reveal_strlit("}");
        reveal_strlit("\"");
        reveal_strlit("\":[");
        reveal_strlit("]");
        reveal_strlit(",");
    }
    let ghost views = entry_views(entries@);
    let mut out = String::from_str("{");
    let mut i: usize = 0;
    assert(views.subrange(0, 0) =~= Seq::<(Seq<char>, Seq<u64>)>::empty());
    assert(out@ =~= seq!['{'] + json_entries(views.subrange(0, 0)));
    while i < entries.len()
        invariant
            0 <= i <= entries@.len(),
            views == entry_views(entries@),
            out@ == seq!['{'] + json_entries(views.subrange(0, i as int)),
        decreases entries@.len() - i,
    {
        proof {
            reveal_strlit(",");
            reveal_strlit("\"");
            reveal_strlit("\":[");
            reveal_strlit("]");
        }
        let ghost pre = views.subrange(0, i as int);
        let ghost cur = views.subrange(0, i + 1);
        assert(cur.drop_last() =~= pre);
        assert(cur.last() == views[i as int]);
        assert(views[i as int] == (entries@[i as int].0@, entries@[i as int].1@));
        if i > 0 {
            out.append(",");
        } else {
            assert(cur.len() == 1);
        }
        out.append("\"");
        append_escaped(&mut out, &entries[i].0);
        out.append("\":[");
        append_nums(&mut out, &entries[i].1);
        out.append("]");
        assert(out@ =~= seq!['{'] + json_entries(cur));
        i += 1;
    }
    out.append("}");
    assert(views.subrange(0, views.len() as int) =~= views);
    assert(out@ =~= store_json(entry_views(entries@)));
    out
}


/// The characters of a JSON string read from just inside the opening quote
/// at `i` to its closing quote: `\"` and `\\` stand for a quote and a
/// backslash, any other escape is rejected, and the result pairs the content
/// with the index after the closing quote.
pub open spec fn parse_string_body(s: Seq<char>, i: int) -> Option<(Seq<char>, int)>
    decreases s.len() - i,
{
    if i < 0 || i >= s.len() {
        None
    } else if s[i] == '"' {
        Some((Seq::empty(), i + 1))
    } else if s[i] == '\\' {
        if i + 1 < s.len() && (s[i + 1] == '"' || s[i + 1] == '\\') {
            match parse_string_body(s, i + 2) {
                Some(p) => Some((seq![s[i + 1]] + p.0, p.1)),
                None => None,
            }
        } else {
            None
        }
    } else {
        match parse_string_body(s, i + 1) {
            Some(p) => Some((seq![s[i]] + p.0, p.1)),
            None => None,
        }
    }
}

/// A quoted JSON string starting at `i`.
pub open spec fn parse_quoted(s: Seq<char>, i: int) -> Option<(Seq<char>, int)> {
    if 0 <= i < s.len() && s[i] == '"' {
        parse_string_body(s, i + 1)
    } else {
        None
    }
}

/// An unsigned decimal number starting at `i`: its value and the index after
/// its digits, `None` when no digit stands there or the value does not fit.
pub open spec fn parse_number(s: Seq<char>, i: int) -> Option<(u64, int)> {
    let e = span_dec(s, i);
    if i < 0 || e <= i {
        None
    } else if dec_value(s.subrange(i, e)) > u64::MAX {
        None
    } else {
        Some((dec_value(s.subrange(i, e)) as u64, e))
    }
}

/// The elements of a non-empty JSON number array read from the first digit
/// at `i` through the closing bracket.
pub open spec fn parse_items(s: Seq<char>, i: int) -> Option<(Seq<u64>, int)>
    decreases s.len() - i,
{
    if i < 0 {
        None
    } else {
        match parse_number(s, i) {
            Some(p) => {
                let (v, j) = p;
                if j < s.len() && s[j] == ']' {
                    Some((seq![v], j + 1))
                } else if j < s.len() && s[j] == ',' && j > i {
                    match parse_items(s, j + 1) {
                        Some(q) => Some((seq![v] + q.0, q.1)),
                        None => None,
                    }
                } else {
                    None
                }
            },
            None => None,
        }
    }
}

/// A JSON number array starting at its opening bracket at `i`.
pub open spec fn parse_array(s: Seq<char>, i: int) -> Option<(Seq<u64>, int)> {
    if !(0 <= i < s.len() && s[i] == '[') {
        None
    } else if i + 1 < s.len() && s[i + 1] == ']' {
        Some((Seq::empty(), i + 2))
    } else {
        parse_items(s, i + 1)
    }
}

/// The entries of a non-empty JSON object read from the first key's quote at
/// `i` through the closing brace.
pub open spec fn parse_entries(s: Seq<char>, i: int) -> Option<(Seq<(Seq<char>, Seq<u64>)>, int)>
    decreases s.len() - i,
{
    if i < 0 {
        None
    } else {
        match parse_quoted(s, i) {
            Some(np) => {
                let (name, j) = np;
                if j < s.len() && s[j] == ':' {
                    match parse_array(s, j + 1) {
                        Some(ap) => {
                            let (ns, k) = ap;
                            if k < s.len() && s[k] == '}' {
                                Some((seq![(name, ns)], k + 1))
                            } else if k < s.len() && s[k] == ',' && k > i {
                                match parse_entries(s, k + 1) {
                                    Some(q) => Some((seq![(name, ns)] + q.0, q.1)),
                                    None => None,
                                }
                            } else {
                                None
                            }
                        },
                        None => None,
                    }
                } else {
                    None
                }
            },
            None => None,
        }
    }
}

/// The parse of a whole store file: one JSON object from name to number
/// array, with nothing before or after it. The entry list keeps the file's
/// order; a repeated name keeps both occurrences.
pub open spec fn parse_store_json(s: Seq<char>) -> Option<Seq<(Seq<char>, Seq<u64>)>> {
    if s.len() == 2 && s[0] == '{' && s[1] == '}' {
        Some(Seq::empty())
    } else if s.len() >= 1 && s[0] == '{' {
        match parse_entries(s, 1) {
            Some(p) => if p.1 == s.len() {
                Some(p.0)
            } else {
                None
            },
            None => None,
        }
    } else {
        None
    }
}

/// Read a string body; mirrors `parse_string_body`.
fn parse_string_body_exec(s: &str, i: usize, n: usize) -> (r: Option<(String, usize)>)
    requires
        n == s@.len(),
        i <= n,
    ensures
        match r {
            Some(p) => parse_string_body(s@, i as int) == Some((p.0@, p.1 as int)) && p.1 <= n,
            None => parse_string_body(s@, i as int) is None,
        },
    decreases n - i,
{
    if i >= n {
        return None;
    }
    let c = s.get_char(i);
    if c == '"' {
        Some((String::new(), i + 1))
    } else if c == '\\' {
        if i + 1 < n {
            let c2 = s.get_char(i + 1);
            if c2 == '"' || c2 == '\\' {
                match parse_string_body_exec(s, i + 2, n) {
                    Some(p) => {
                        let (rest, j) = p;
                        let mut out = String::from_str(s.substring_char(i + 1, i + 2));
                        out.append(rest.as_str());
                        assert(s@.subrange(i + 1, i + 2) =~= seq![s@[i + 1]]);
                        assert(out@ =~= seq![s@[i + 1]] + rest@);
                        Some((out, j))
                    },
                    None => None,
                }
            } else {
                None
            }
        } else {
            None
        }
    } else {
        match parse_string_body_exec(s, i + 1, n) {
            Some(p) => {
                let (rest, j) = p;
                let mut out = String::from_str(s.substring_char(i, i + 1));
                out.append(rest.as_str());
                assert(s@.subrange(i as int, i + 1) =~= seq![s@[i as int]]);
                assert(out@ =~= seq![s@[i as int]] + rest@);
                Some((out, j))
            },
            None => None,
        }
    }
}

/// Read a number; mirrors `parse_number`.
fn parse_number_exec(s: &str, i: usize, n: usize) -> (r: Option<(u64, usize)>)
    requires
        n == s@.len(),
        i <= n,
    ensures
        match r {
            Some(p) => parse_number(s@, i as int) == Some((p.0, p.1 as int)) && i < p.1 <= n,
            None => parse_number(s@, i as int) is None,
        },
{
    let e = span_dec_exec(s, i, n);
    if e <= i {
        return None;
    }
    proof {
        crate::textnum::lemma_span_dec(s@, i as int);
        assert forall|k: int| 0 <= k < e - i implies is_dec_digit(
            #[trigger] s@.subrange(i as int, e as int)[k],
        ) by {
            assert(s@.subrange(i as int, e as int)[k] == s@[i + k]);
        }
    }
    match dec_range_value(s, i, e) {
        Some(v) => Some((v, e)),
        None => None,
    }
}

/// Read the items of a non-empty array; mirrors `parse_items`.
fn parse_items_exec(s: &str, i: usize, n: usize) -> (r: Option<(Vec<u64>, usize)>)
    requires
        n == s@.len(),
        i <= n,
    ensures
        match r {
            Some(p) => parse_items(s@, i as int) == Some((p.0@, p.1 as int)) && p.1 <= n,
            None => parse_items(s@, i as int) is None,
        },
    decreases n - i,
{
    match parse_number_exec(s, i, n) {
        Some(p) => {
            let (v, j) = p;
            if j < n && s.get_char(j) == ']' {
                let mut out: Vec<u64> = Vec::new();
                out.push(v);
                assert(out@ =~= seq![v]);
                Some((out, j + 1))
            } else if j < n && s.get_char(j) == ',' && j > i {
                match parse_items_exec(s, j + 1, n) {
                    Some(q) => {
                        let (mut rest, k) = q;
                        let ghost rest_view = rest@;
                        let mut out: Vec<u64> = Vec::new();
                        out.push(v);
                        out.append(&mut rest);
                        assert(out@ =~= seq![v] + rest_view);
                        Some((out, k))
                    },
                    None => None,
                }
            } else {
                None
            }
        },
        None => None,
    }
}

/// Read the entries of a non-empty object; mirrors `parse_entries`.
fn parse_entries_exec(s: &str, i: usize, n: usize) -> (r: Option<(Vec<(String, Vec<u64>)>, usize)>)
    requires
        n == s@.len(),
        i <= n,
    ensures
        match r {
            Some(p) => parse_entries(s@, i as int) == Some((entry_views(p.0@), p.1 as int)) && p.1
                <= n,
            None => parse_entries(s@, i as int) is None,
        },
    decreases n - i,
{
    let quoted = if i < n && s.get_char(i) == '"' {
        parse_string_body_exec(s, i + 1, n)
    } else {
        None
    };
    match quoted {
        Some(np) => {
            let (name, j) = np;
            if j < n && s.get_char(j) == ':' {
                let arr = parse_array_exec(s, j + 1, n);
                match arr {
                    Some(ap) => {
                        let (ns, k) = ap;
                        if k < n && s.get_char(k) == '}' {
                            let mut out: Vec<(String, Vec<u64>)> = Vec::new();
                            out.push((name, ns));
                            assert(entry_views(out@) =~= seq![(out@[0].0@, out@[0].1@)]);
                            Some((out, k + 1))
                        } else if k < n && s.get_char(k) == ',' && k > i {
                            match parse_entries_exec(s, k + 1, n) {
                                Some(q) => {
                                    let (mut rest, m) = q;
                                    let ghost rest_view = rest@;
                                    let mut out: Vec<(String, Vec<u64>)> = Vec::new();
                                    let ghost name_view = name@;
                                    let ghost ns_view = ns@;
                                    out.push((name, ns));
                                    out.append(&mut rest);
                                    assert(entry_views(out@) =~= seq![(name_view, ns_view)]
                                        + entry_views(rest_view));
                                    Some((out, m))
                                },
                                None => None,
                            }
                        } else {
                            None
                        }
                    },
                    None => None,
                }
            } else {
                None
            }
        },
        None => None,
    }
}

/// Read an array from its opening bracket; mirrors `parse_array`.
fn parse_array_exec(s: &str, i: usize, n: usize) -> (r: Option<(Vec<u64>, usize)>)
    requires
        n == s@.len(),
        i <= n,
    ensures
        match r {
            Some(p) => parse_array(s@, i as int) == Some((p.0@, p.1 as int)) && p.1 <= n,
            None => parse_array(s@, i as int) is None,
        },
{
    if !(i < n && s.get_char(i) == '[') {
        None
    } else if i + 1 < n && s.get_char(i + 1) == ']' {
        let out: Vec<u64> = Vec::new();
        assert(out@ =~= Seq::<u64>::empty());
        Some((out, i + 2))
    } else {
        parse_items_exec(s, i + 1, n)
    }
}

/// Parse a whole store file; mirrors `parse_store_json`. `None` means the
/// file is malformed and the store starts empty.
pub fn parse_store_file(s: &str) -> (r: Option<Vec<(String, Vec<u64>)>>)
    ensures
        match r {
            Some(v) => parse_store_json(s@) == Some(entry_views(v@)),
            None => parse_store_json(s@) is None,
        },
{
    let n = s.unicode_len();
    if n == 2 && s.get_char(0) == '{' && s.get_char(1) == '}' {
        let out: Vec<(String, Vec<u64>)> = Vec::new();
        assert(entry_views(out@) =~= Seq::<(Seq<char>, Seq<u64>)>::empty());
        Some(out)
    } else if n >= 1 && s.get_char(0) == '{' {
        match parse_entries_exec(s, 1, n) {
            Some(p) => {
                let (es, j) = p;
                if j == n {
                    Some(es)
                } else {
                    None
                }
            },
            None => None,
        }
    } else {
        None
    }
}


/// Escaping a name, read from the front.
proof fn lemma_json_escape_first(n: Seq<char>)
    requires
        n.len() > 0,
    ensures
        json_escape(n) == escape_char(n[0]) + json_escape(n.drop_first()),
    decreases n.len(),
{
    if n.len() == 1 {
        assert(n.drop_last() =~= Seq::<char>::empty());
        assert(n.drop_first() =~= Seq::<char>::empty());
        assert(json_escape(n.drop_last()) =~= Seq::<char>::empty());
        assert(json_escape(n.drop_first()) =~= Seq::<char>::empty());
        assert(n.last() == n[0]);
        assert(json_escape(n) =~= escape_char(n[0]) + json_escape(n.drop_first()));
    } else {
        let dl = n.drop_last();
        lemma_json_escape_first(dl);
        assert(dl[0] == n[0]);
        assert(n.drop_first().drop_last() =~= dl.drop_first());
        assert(n.drop_first().last() == n.last());
        assert(n.drop_first().len() > 0);
        assert(json_escape(n.drop_first()) == json_escape(dl.drop_first()) + escape_char(
            n.last(),
        ));
        assert(json_escape(n) =~= escape_char(n[0]) + json_escape(n.drop_first()));
    }
}

/// Reading an escaped name back from inside its quotes recovers the name.
proof fn lemma_parse_string_body_exact(s: Seq<char>, i: int, name: Seq<char>, j: int)
    requires
        0 <= i <= j <= s.len(),
        s.subrange(i, j) == json_escape(name) + seq!['"'],
    ensures
        parse_string_body(s, i) == Some((name, j)),
    decreases name.len(),
{
    let whole = s.subrange(i, j);
    let block = json_escape(name) + seq!['"'];
    assert(whole.len() == j - i);
    assert(block.len() == json_escape(name).len() + 1);
    if name.len() == 0 {
        assert(json_escape(name) =~= Seq::<char>::empty());
        assert(block =~= seq!['"']);
        assert(s[i] == whole[0]);
        assert(s[i] == '"');
        assert(parse_string_body(s, i) == Some((Seq::<char>::empty(), i + 1)));
    } else {
        lemma_json_escape_first(name);
        let c = name[0];
        let rest = json_escape(name.drop_first()) + seq!['"'];
        if c == '"' || c == '\\' {
            assert(escape_char(c) =~= seq!['\\', c]);
            assert(block =~= seq!['\\', c] + rest);
            assert(s[i] == whole[0]);
            assert(s[i + 1] == whole[1]);
            assert(s[i] == '\\');
            assert(s[i + 1] == c);
            assert(s.subrange(i + 2, j) =~= rest) by {
                assert forall|k: int| 0 <= k < j - (i + 2) implies s.subrange(i + 2, j)[k]
                    == rest[k] by {
                    assert(s.subrange(i + 2, j)[k] == s[i + 2 + k]);
                    assert(s[i + 2 + k] == whole[2 + k]);
                }
            }
            lemma_parse_string_body_exact(s, i + 2, name.drop_first(), j);
            assert(seq![s[i + 1]] + name.drop_first() =~= name);
        } else {
            assert(escape_char(c) =~= seq![c]);
            assert(block =~= seq![c] + rest);
            assert(s[i] == whole[0]);
            assert(s[i] == c);
            assert(s.subrange(i + 1, j) =~= rest) by {
                assert forall|k: int| 0 <= k < j - (i + 1) implies s.subrange(i + 1, j)[k]
                    == rest[k] by {
                    assert(s.subrange(i + 1, j)[k] == s[i + 1 + k]);
                    assert(s[i + 1 + k] == whole[1 + k]);
                }
            }
            lemma_parse_string_body_exact(s, i + 1, name.drop_first(), j);
            assert(seq![s[i]] + name.drop_first() =~= name);
        }
    }
}

/// Reading a rendered number back yields the number, when what follows is
/// not a digit.
proof fn lemma_parse_number_exact(s: Seq<char>, i: int, v: u64, j: int)
    requires
        0 <= i <= j <= s.len(),
        s.subrange(i, j) == dec_str(v as int),
        j == s.len() || !is_dec_digit(s[j]),
    ensures
        parse_number(s, i) == Some((v, j)),
{
    lemma_dec_str_wf(v as int);
    let d = dec_str(v as int);
    assert(s.subrange(i, j).len() == j - i);
    assert forall|k: int| i <= k < j implies is_dec_digit(#[trigger] s[k]) by {
        assert(s[k] == s.subrange(i, j)[k - i]);
    }
    lemma_span_dec_exact(s, i, j);
}

/// The number list's text, read from the front.
proof fn lemma_json_nums_first(ns: Seq<u64>)
    requires
        ns.len() > 0,
    ensures
        ns.len() == 1 ==> json_nums(ns) == dec_str(ns[0] as int),
        ns.len() > 1 ==> json_nums(ns) == dec_str(ns[0] as int) + seq![','] + json_nums(
            ns.drop_first(),
        ),
    decreases ns.len(),
{
    if ns.len() == 1 {
    } else if ns.len() == 2 {
        let dl = ns.drop_last();
        assert(dl =~= seq![ns[0]]);
        assert(ns.drop_first() =~= seq![ns[1]]);
        assert(json_nums(dl) == dec_str(dl[0] as int));
        assert(json_nums(ns.drop_first()) == dec_str(ns.drop_first()[0] as int));
        assert(ns.last() == ns[1]);
        assert(json_nums(ns) =~= dec_str(ns[0] as int) + seq![','] + json_nums(ns.drop_first()));
    } else {
        let dl = ns.drop_last();
        lemma_json_nums_first(dl);
        assert(dl[0] == ns[0]);
        assert(ns.drop_first().drop_last() =~= dl.drop_first());
        assert(ns.drop_first().last() == ns.last());
        assert(ns.drop_first().len() > 1);
        assert(json_nums(ns.drop_first()) == json_nums(dl.drop_first()) + seq![','] + dec_str(
            ns.last() as int,
        ));
        assert(json_nums(ns) =~= dec_str(ns[0] as int) + seq![','] + json_nums(ns.drop_first()));
    }
}

/// Reading a rendered number list back, bracket included, yields the list.
proof fn lemma_parse_items_exact(s: Seq<char>, i: int, ns: Seq<u64>, j: int)
    requires
        0 <= i <= j <= s.len(),
        ns.len() > 0,
        s.subrange(i, j) == json_nums(ns) + seq![']'],
    ensures
        parse_items(s, i) == Some((ns, j)),
    decreases ns.len(),
{
    lemma_json_nums_first(ns);
    lemma_dec_str_wf(ns[0] as int);
    let whole = s.subrange(i, j);
    let d = dec_str(ns[0] as int);
    let e = i + d.len();
    assert(whole.len() == j - i);
    assert((json_nums(ns) + seq![']']).len() == json_nums(ns).len() + 1);
    assert(s.subrange(i, e) =~= d) by {
        assert forall|k: int| 0 <= k < e - i implies s.subrange(i, e)[k] == d[k] by {
            assert(s.subrange(i, e)[k] == s[i + k]);
            assert(s[i + k] == whole[k]);
        }
    }
    if ns.len() == 1 {
        assert(s[e] == whole[e - i]);
        assert(s[e] == ']');
        lemma_parse_number_exact(s, i, ns[0], e);
        assert(seq![ns[0]] =~= ns);
        assert(j == e + 1);
    } else {
        assert(s[e] == whole[e - i]);
        assert(s[e] == ',');
        lemma_parse_number_exact(s, i, ns[0], e);
        assert(s.subrange(e + 1, j) =~= json_nums(ns.drop_first()) + seq![']']) by {
            assert forall|k: int| 0 <= k < j - (e + 1) implies s.subrange(e + 1, j)[k] == (
            json_nums(ns.drop_first()) + seq![']'])[k] by {
                assert(s.subrange(e + 1, j)[k] == s[e + 1 + k]);
                assert(s[e + 1 + k] == whole[e + 1 + k - i]);
            }
        }
        lemma_parse_items_exact(s, e + 1, ns.drop_first(), j);
        assert(seq![ns[0]] + ns.drop_first() =~= ns);
    }
}

/// Reading a rendered array back yields its numbers.
proof fn lemma_parse_array_exact(s: Seq<char>, i: int, ns: Seq<u64>, j: int)
    requires
        0 <= i <= j <= s.len(),
        s.subrange(i, j) == seq!['['] + json_nums(ns) + seq![']'],
    ensures
        parse_array(s, i) == Some((ns, j)),
{
    let whole = s.subrange(i, j);
    assert(whole.len() == j - i);
    assert((seq!['['] + json_nums(ns) + seq![']']).len() == json_nums(ns).len() + 2);
    assert(s[i] == whole[0]);
    assert(s[i] == '[');
    if ns.len() == 0 {
        assert(json_nums(ns) =~= Seq::<char>::empty());
        assert(whole =~= seq!['[', ']']);
        assert(s[i + 1] == whole[1]);
        assert(s[i + 1] == ']');
        assert(j == i + 2);
    } else {
        lemma_json_nums_first(ns);
        lemma_dec_str_wf(ns[0] as int);
        let d = dec_str(ns[0] as int);
        assert(s[i + 1] == whole[1]);
        assert(s[i + 1] == d[0]);
        assert(is_dec_digit(d[0]));
        assert(d[0] != ']');
        assert(s.subrange(i + 1, j) =~= json_nums(ns) + seq![']']) by {
            assert forall|k: int| 0 <= k < j - (i + 1) implies s.subrange(i + 1, j)[k] == (
            json_nums(ns) + seq![']'])[k] by {
                assert(s.subrange(i + 1, j)[k] == s[i + 1 + k]);
                assert(s[i + 1 + k] == whole[1 + k]);
            }
        }
        lemma_parse_items_exact(s, i + 1, ns, j);
    }
}

/// The entry list's text, read from the front.
proof fn lemma_json_entries_first(es: Seq<(Seq<char>, Seq<u64>)>)
    requires
        es.len() > 0,
    ensures
        es.len() == 1 ==> json_entries(es) == json_entry(es[0].0, es[0].1),
        es.len() > 1 ==> json_entries(es) == json_entry(es[0].0, es[0].1) + seq![',']
            + json_entries(es.drop_first()),
    decreases es.len(),
{
    if es.len() == 1 {
    } else if es.len() == 2 {
        let dl = es.drop_last();
        assert(dl =~= seq![es[0]]);
        assert(es.drop_first() =~= seq![es[1]]);
        assert(json_entries(dl) == json_entry(dl[0].0, dl[0].1));
        assert(json_entries(es.drop_first()) == json_entry(
            es.drop_first()[0].0,
            es.drop_first()[0].1,
        ));
        assert(es.last() == es[1]);
        assert(json_entries(es) =~= json_entry(es[0].0, es[0].1) + seq![','] + json_entries(
            es.drop_first(),
        ));
    } else {
        let dl = es.drop_last();
        lemma_json_entries_first(dl);
        assert(dl[0] == es[0]);
        assert(es.drop_first().drop_last() =~= dl.drop_first());
        assert(es.drop_first().last() == es.last());
        assert(es.drop_first().len() > 1);
        assert(json_entries(es.drop_first()) == json_entries(dl.drop_first()) + seq![',']
            + json_entry(es.last().0, es.last().1));
        assert(json_entries(es) =~= json_entry(es[0].0, es[0].1) + seq![','] + json_entries(
            es.drop_first(),
        ));
    }
}

/// Reading rendered entries back, closing brace included, yields the
/// entries.
proof fn lemma_parse_entries_exact(s: Seq<char>, i: int, es: Seq<(Seq<char>, Seq<u64>)>, j: int)
    requires
        0 <= i <= j <= s.len(),
        es.len() > 0,
        s.subrange(i, j) == json_entries(es) + seq!['}'],
    ensures
        parse_entries(s, i) == Some((es, j)),
    decreases es.len(),
{
    lemma_json_entries_first(es);
    let name = es[0].0;
    let ns = es[0].1;
    let whole = s.subrange(i, j);
    assert(whole.len() == j - i);
    assert((json_entries(es) + seq!['}']).len() == json_entries(es).len() + 1);
    assert(json_entry(name, ns).len() == 5 + json_escape(name).len() + json_nums(ns).len());
    assert(s[i] == whole[0]);
    assert(s[i] == '"');
    let qend = i + 2 + json_escape(name).len();
    assert(s.subrange(i + 1, qend) =~= json_escape(name) + seq!['"']) by {
        assert forall|k: int| 0 <= k < qend - (i + 1) implies s.subrange(i + 1, qend)[k] == (
        json_escape(name) + seq!['"'])[k] by {
            assert(s.subrange(i + 1, qend)[k] == s[i + 1 + k]);
            assert(s[i + 1 + k] == whole[1 + k]);
        }
    }
    lemma_parse_string_body_exact(s, i + 1, name, qend);
    assert(s[qend] == whole[qend - i]);
    assert(s[qend] == ':');
    let aend = qend + 3 + json_nums(ns).len();
    assert(s.subrange(qend + 1, aend) =~= seq!['['] + json_nums(ns) + seq![']']) by {
        assert forall|k: int| 0 <= k < aend - (qend + 1) implies s.subrange(qend + 1, aend)[k] == (
        seq!['['] + json_nums(ns) + seq![']'])[k] by {
            assert(s.subrange(qend + 1, aend)[k] == s[qend + 1 + k]);
            assert(s[qend + 1 + k] == whole[qend + 1 + k - i]);
        }
    }
    lemma_parse_array_exact(s, qend + 1, ns, aend);
    if es.len() == 1 {
        assert(s[aend] == whole[aend - i]);
        assert(s[aend] == '}');
        assert(j == aend + 1);
        assert(seq![(name, ns)] =~= es);
    } else {
        assert(s[aend] == whole[aend - i]);
        assert(s[aend] == ',');
        assert(s.subrange(aend + 1, j) =~= json_entries(es.drop_first()) + seq!['}']) by {
            assert forall|k: int| 0 <= k < j - (aend + 1) implies s.subrange(aend + 1, j)[k] == (
            json_entries(es.drop_first()) + seq!['}'])[k] by {
                assert(s.subrange(aend + 1, j)[k] == s[aend + 1 + k]);
                assert(s[aend + 1 + k] == whole[aend + 1 + k - i]);
            }
        }
        lemma_parse_entries_exact(s, aend + 1, es.drop_first(), j);
        assert(seq![(name, ns)] + es.drop_first() =~= es);
    }
}

/// Store file round trip: parsing the serialized store yields exactly the
/// entries that were written, names and address lists alike. Together with
/// the save and restore contracts this carries a saved result set across a
/// write to disk and a later load.
pub proof fn lemma_store_json_round_trip(es: Seq<(Seq<char>, Seq<u64>)>)
    ensures
        parse_store_json(store_json(es)) == Some(es),
{
    let s = store_json(es);
    assert(s[0] == '{');
    if es.len() == 0 {
        assert(json_entries(es) =~= Seq::<char>::empty());
        assert(s =~= seq!['{', '}']);
        assert(s.len() == 2 && s[1] == '}');
    } else {
        lemma_json_entries_first(es);
        let entry = json_entry(es[0].0, es[0].1);
        assert(entry[0] == '"');
        assert(json_entries(es)[0] == '"');
        assert(s[1] == '"');
        assert(s.subrange(1, s.len() as int) =~= json_entries(es) + seq!['}']) by {
            assert forall|k: int| 0 <= k < s.len() - 1 implies s.subrange(1, s.len() as int)[k] == (
            json_entries(es) + seq!['}'])[k] by {
                assert(s.subrange(1, s.len() as int)[k] == s[1 + k]);
            }
        }
        lemma_parse_entries_exact(s, 1, es, s.len() as int);
    }
}

} // verus!
