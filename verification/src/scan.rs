//! Literal byte-pattern search: leftmost-first, non-overlapping occurrences
//! of a pattern inside a byte buffer.

use vstd::prelude::*;

verus! {

/// The pattern occurs in `data` at offset `i`.
pub open spec fn matches_at(data: Seq<u8>, pat: Seq<u8>, i: int) -> bool {
    &&& 0 <= i
    &&& i + pat.len() <= data.len()
    &&& data.subrange(i, i + pat.len()) == pat
}

/// Offsets of the leftmost-first, non-overlapping occurrences of `pat` in
/// `data`, scanning upward from offset `i`: at each match the scan advances
/// past the whole pattern, otherwise by one byte.
pub open spec fn occurrences_from(data: Seq<u8>, pat: Seq<u8>, i: int) -> Seq<int>
    decreases data.len() - i,
{
    if pat.len() == 0 || i + pat.len() > data.len() || i < 0 {
        Seq::empty()
    } else if matches_at(data, pat, i) {
        seq![i] + occurrences_from(data, pat, i + pat.len())
    } else {
        occurrences_from(data, pat, i + 1)
    }
}

/// All leftmost-first, non-overlapping occurrences of `pat` in `data`.
pub open spec fn occurrences(data: Seq<u8>, pat: Seq<u8>) -> Seq<int> {
    occurrences_from(data, pat, 0)
}

/// Every reported offset is a real occurrence, and offsets come in strictly
/// ascending order with no two occurrences overlapping.
pub proof fn lemma_occurrences_from_sound(data: Seq<u8>, pat: Seq<u8>, i: int)
    ensures
        forall|k: int|
            0 <= k < occurrences_from(data, pat, i).len() ==> matches_at(
                data,
                pat,
                #[trigger] occurrences_from(data, pat, i)[k],
            ),
        forall|k: int|
            0 <= k < occurrences_from(data, pat, i).len() ==> i <= #[trigger] occurrences_from(
                data,
                pat,
                i,
            )[k],
        forall|k: int|
            0 <= k && k + 1 < occurrences_from(data, pat, i).len() ==> #[trigger] occurrences_from(
                data,
                pat,
                i,
            )[k] + pat.len() <= occurrences_from(data, pat, i)[k + 1],
    decreases data.len() - i,
{
    if pat.len() == 0 || i + pat.len() > data.len() || i < 0 {
    } else if matches_at(data, pat, i) {
        lemma_occurrences_from_sound(data, pat, i + pat.len() as int);
        let rest = occurrences_from(data, pat, i + pat.len() as int);
        let occs = occurrences_from(data, pat, i);
        assert(occs == seq![i] + rest);
        assert forall|k: int| 0 <= k < occs.len() implies matches_at(data, pat, occs[k]) && i
            <= occs[k] by {
            if k > 0 {
                assert(occs[k] == rest[k - 1]);
            }
        }
        assert forall|k: int| 0 <= k && k + 1 < occs.len() implies #[trigger] occs[k] + pat.len()
            <= occs[k + 1] by {
            assert(occs[k + 1] == rest[k]);
            if k > 0 {
                assert(occs[k] == rest[k - 1]);
            }
        }
    } else {
        lemma_occurrences_from_sound(data, pat, i + 1);
        let rest = occurrences_from(data, pat, i + 1);
        let occs = occurrences_from(data, pat, i);
        assert(occs == rest);
        assert forall|k: int| 0 <= k < occs.len() implies matches_at(data, pat, occs[k]) && i
            <= occs[k] by {
            assert(occs[k] == rest[k]);
        }
        assert forall|k: int| 0 <= k && k + 1 < occs.len() implies #[trigger] occs[k] + pat.len()
            <= occs[k + 1] by {
            assert(occs[k] == rest[k]);
            assert(occs[k + 1] == rest[k + 1]);
        }
    }
}

/// Search soundness: every offset in the occurrence list marks a place where
/// the bytes of `data` equal the pattern.
pub proof fn lemma_occurrences_sound(data: Seq<u8>, pat: Seq<u8>, k: int)
    requires
        0 <= k < occurrences(data, pat).len(),
    ensures
        matches_at(data, pat, occurrences(data, pat)[k]),
{
    lemma_occurrences_from_sound(data, pat, 0);
}

/// Search completeness: every occurrence of the pattern either is reported or
/// overlaps a reported occurrence that starts no later.
pub proof fn lemma_occurrences_from_complete(data: Seq<u8>, pat: Seq<u8>, i: int, j: int)
    requires
        pat.len() > 0,
        0 <= i <= j,
        matches_at(data, pat, j),
    ensures
        exists|k: int|
            0 <= k < occurrences_from(data, pat, i).len() && #[trigger] occurrences_from(
                data,
                pat,
                i,
            )[k] <= j < occurrences_from(data, pat, i)[k] + pat.len(),
    decreases data.len() - i,
{
    let occs = occurrences_from(data, pat, i);
    if matches_at(data, pat, i) {
        if j < i + pat.len() {
            assert(occs[0] == i);
        } else {
            lemma_occurrences_from_complete(data, pat, i + pat.len() as int, j);
            let rest = occurrences_from(data, pat, i + pat.len() as int);
            let k = choose|k: int| 0 <= k < rest.len() && #[trigger] rest[k] <= j < rest[k] + pat.len();
            assert(occs[k + 1] == rest[k]);
        }
    } else {
        assert(i != j);
        lemma_occurrences_from_complete(data, pat, i + 1, j);
    }
}

/// Search completeness over a whole buffer: any place where the pattern
/// occurs is covered by some reported occurrence.
pub proof fn lemma_occurrences_complete(data: Seq<u8>, pat: Seq<u8>, j: int)
    requires
        pat.len() > 0,
        matches_at(data, pat, j),
    ensures
        exists|k: int|
            0 <= k < occurrences(data, pat).len() && #[trigger] occurrences(data, pat)[k] <= j
                < occurrences(data, pat)[k] + pat.len(),
{
    lemma_occurrences_from_complete(data, pat, 0, j);
    let occs0 = occurrences_from(data, pat, 0);
    let k = choose|k: int|
        0 <= k < occs0.len() && #[trigger] occs0[k] <= j < occs0[k] + pat.len();
    assert(0 <= k < occurrences(data, pat).len() && occurrences(data, pat)[k] <= j < occurrences(
        data,
        pat,
    )[k] + pat.len());
}

/// Compare `pat` against `data` at offset `i`.
fn bytes_match_at(data: &Vec<u8>, pat: &Vec<u8>, i: usize) -> (r: bool)
    requires
        i + pat@.len() <= data@.len(),
    ensures
        r == matches_at(data@, pat@, i as int),
{
    let mut j: usize = 0;
    let n = data.len();
    while j < pat.len()
        invariant
            j <= pat@.len(),
            i + pat@.len() <= data@.len(),
            data@.len() <= usize::MAX,
            forall|k: int| 0 <= k < j ==> data@[i + k] == pat@[k],
        decreases pat@.len() - j,
    {
        if data[i + j] != pat[j] {
            assert(data@.subrange(i as int, i + pat@.len())[j as int] == data@[i + j]);
            return false;
        }
        j += 1;
    }
    assert(data@.subrange(i as int, i + pat@.len()) =~= pat@);
    true
}

/// Find every leftmost-first, non-overlapping occurrence of `pat` in `data`,
/// reported by byte offset in ascending order.
pub fn find_occurrences(data: &Vec<u8>, pat: &Vec<u8>) -> (r: Vec<usize>)
    requires
        pat@.len() > 0,
    ensures
        r@.map_values(|o: usize| o as int) == occurrences(data@, pat@),
{
    let mut r: Vec<usize> = Vec::new();
    let mut i: usize = 0;
    if pat.len() > data.len() {
        assert(occurrences(data@, pat@) =~= Seq::<int>::empty());
        assert(r@.map_values(|o: usize| o as int) =~= Seq::<int>::empty());
        return r;
    }
    while i <= data.len() - pat.len()
        invariant
            pat@.len() > 0,
            pat@.len() <= data@.len(),
            i <= data@.len(),
            occurrences(data@, pat@) == r@.map_values(|o: usize| o as int) + occurrences_from(
                data@,
                pat@,
                i as int,
            ),
        decreases data@.len() - i,
    {
        let ghost prev = r@;
        if bytes_match_at(data, pat, i) {
            r.push(i);
            assert(r@.map_values(|o: usize| o as int) =~= prev.map_values(|o: usize| o as int)
                + seq![i as int]);
            i += pat.len();
        } else {
            i += 1;
        }
    }
    assert(occurrences_from(data@, pat@, i as int) =~= Seq::<int>::empty());
    assert(r@.map_values(|o: usize| o as int) =~= r@.map_values(|o: usize| o as int)
        + Seq::<int>::empty());
    r
}

} // verus!
