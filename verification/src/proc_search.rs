//! Process discovery helpers: reading a pid out of a `/proc` directory
//! entry's path and matching a process name against the operator's search
//! string. The directory walk and the command-line reads stay with the
//! shell.

use vstd::prelude::*;

use crate::textnum::{all_dec_digits, dec_range_value, dec_value, lemma_span_dec, span_dec_exec};

verus! {

/// Finds target processes by name.
pub struct ProcSearch {}

/// The pid a `/proc` entry path names: `Some` exactly when the path is
/// `/proc/` followed by one or more decimal digits whose value fits a pid
/// word.
pub open spec fn proc_path_pid(s: Seq<char>) -> Option<u32> {
    if s.len() > 6 && s.subrange(0, 6) == "/proc/"@ && all_dec_digits(
        s.subrange(6, s.len() as int),
    ) && dec_value(s.subrange(6, s.len() as int)) <= u32::MAX {
        Some(dec_value(s.subrange(6, s.len() as int)) as u32)
    } else {
        None
    }
}

/// The needle occurs in the haystack at offset `i`.
pub open spec fn name_match_at(hay: Seq<char>, needle: Seq<char>, i: int) -> bool {
    &&& 0 <= i
    &&& i + needle.len() <= hay.len()
    &&& hay.subrange(i, i + needle.len()) == needle
}

/// The needle occurs somewhere in the haystack.
pub open spec fn name_matches_spec(hay: Seq<char>, needle: Seq<char>) -> bool {
    exists|i: int| name_match_at(hay, needle, i)
}

impl ProcSearch {
    /// Read the pid out of one `/proc` directory entry's path.
    pub fn pid_from_proc_path(path: &str) -> (r: Option<u32>)
        ensures
            r == proc_path_pid(path@),
    {
        proof {
            reveal_strlit("/proc/");
        }
        let n = path.unicode_len();
        if n <= 6 {
            return None;
        }
        if !(path.get_char(0) == '/' && path.get_char(1) == 'p' && path.get_char(2) == 'r'
            && path.get_char(3) == 'o' && path.get_char(4) == 'c' && path.get_char(5) == '/') {
            proof {
                if path@.subrange(0, 6) == "/proc/"@ {
                    assert(path@[0] == "/proc/"@[0]);
                    assert(path@[1] == "/proc/"@[1]);
                    assert(path@[2] == "/proc/"@[2]);
                    assert(path@[3] == "/proc/"@[3]);
                    assert(path@[4] == "/proc/"@[4]);
                    assert(path@[5] == "/proc/"@[5]);
                }
            }
            return None;
        }
        assert(path@.subrange(0, 6) =~= "/proc/"@);
        let ghost digits = path@.subrange(6, n as int);
        let e = span_dec_exec(path, 6, n);
        proof {
            lemma_span_dec(path@, 6);
            if e == n {
                assert forall|j: int| 0 <= j < digits.len() implies crate::textnum::is_dec_digit(
                    #[trigger] digits[j],
                ) by {
                    assert(digits[j] == path@[6 + j]);
                }
            } else {
                assert(!crate::textnum::is_dec_digit(digits[e - 6]));
            }
        }
        if e != n {
            return None;
        }
        match dec_range_value(path, 6, n) {
            Some(v) => {
                if v <= 0xFFFF_FFFF {
                    Some(v as u32)
                } else {
                    None
                }
            },
            None => None,
        }
    }

    /// Whether the operator's search string occurs in a process name.
    pub fn name_matches(pname: &str, procname: &str) -> (r: bool)
        ensures
            r == name_matches_spec(pname@, procname@),
    {
        let hn = pname.unicode_len();
        let nn = procname.unicode_len();
        if nn > hn {
            proof {
                assert forall|i: int| !name_match_at(pname@, procname@, i) by {}
            }
            return false;
        }
        if nn == 0 {
            assert(pname@.subrange(0, 0) =~= procname@);
            assert(name_match_at(pname@, procname@, 0));
            return true;
        }
        let mut i: usize = 0;
        while i <= hn - nn
            invariant
                0 <= i <= hn - nn + 1,
                1 <= nn <= hn,
                hn == pname@.len(),
                nn == procname@.len(),
                forall|k: int| 0 <= k < i ==> !name_match_at(pname@, procname@, k),
            decreases hn - nn - i + 1,
        {
            if chars_match_at(pname, procname, i, hn, nn) {
                assert(name_match_at(pname@, procname@, i as int));
                return true;
            }
            i += 1;
        }
        proof {
            assert forall|k: int| !name_match_at(pname@, procname@, k) by {
                if 0 <= k <= hn - nn {
                }
            }
        }
        false
    }
}

/// Compare the needle against the haystack at offset `i`.
fn chars_match_at(hay: &str, needle: &str, i: usize, hn: usize, nn: usize) -> (r: bool)
    requires
        hn == hay@.len(),
        nn == needle@.len(),
        i + nn <= hn,
    ensures
        r == name_match_at(hay@, needle@, i as int),
{
    let mut j: usize = 0;
    while j < nn
        invariant
            0 <= j <= nn,
            hn == hay@.len(),
            nn == needle@.len(),
            i + nn <= hn,
            forall|k: int| 0 <= k < j ==> hay@[i + k] == needle@[k],
        decreases nn - j,
    {
        if hay.get_char(i + j) != needle.get_char(j) {
            assert(hay@.subrange(i as int, i + nn)[j as int] == hay@[i + j]);
            return false;
        }
        j += 1;
    }
    assert(hay@.subrange(i as int, i + nn) =~= needle@);
    true
}

} // verus!
