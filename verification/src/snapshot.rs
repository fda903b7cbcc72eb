//! Snapshots of region contents and the byte-wise differ: given the previous
//! and the current capture of every region, keep the addresses whose byte
//! changed (or stayed equal), together with the byte last observed there.

use vstd::prelude::*;

verus! {

/// The bytes captured from one region at one moment, keyed by the region's
/// start address.
pub struct SnapShot {
    pub region_key: u64,
    pub data: Vec<u8>,
}

/// Mathematical model of a captured region.
pub struct SnapModel {
    pub key: u64,
    pub data: Seq<u8>,
}

impl View for SnapShot {
    type V = SnapModel;

    open spec fn view(&self) -> SnapModel {
        SnapModel { key: self.region_key, data: self.data@ }
    }
}

impl SnapShot {
    /// Every address inside the captured span fits in an address word.
    pub open spec fn wf(self) -> bool {
        self.region_key + self.data@.len() <= u64::MAX
    }
}

impl SnapModel {
    pub open spec fn contains(self, addr: u64) -> bool {
        self.key <= addr < self.key + self.data.len()
    }
}

pub open spec fn snap_views(snaps: Seq<SnapShot>) -> Seq<SnapModel> {
    snaps.map_values(|s: SnapShot| s@)
}

/// Index of the first snapshot recorded for the region starting at `key`.
pub open spec fn find_snap(snaps: Seq<SnapModel>, key: u64) -> Option<int>
    decreases snaps.len(),
{
    if snaps.len() == 0 {
        None
    } else if snaps.first().key == key {
        Some(0)
    } else {
        match find_snap(snaps.drop_first(), key) {
            Some(i) => Some(i + 1),
            None => None,
        }
    }
}

pub proof fn lemma_find_snap(snaps: Seq<SnapModel>, key: u64)
    ensures
        match find_snap(snaps, key) {
            Some(i) => 0 <= i < snaps.len() && snaps[i].key == key,
            None => forall|i: int| 0 <= i < snaps.len() ==> (#[trigger] snaps[i]).key != key,
        },
    decreases snaps.len(),
{
    if snaps.len() > 0 && snaps.first().key != key {
        lemma_find_snap(snaps.drop_first(), key);
        let rest = snaps.drop_first();
        match find_snap(rest, key) {
            Some(i) => {
                assert(snaps[i + 1] == rest[i]);
            },
            None => {
                assert forall|i: int| 0 <= i < snaps.len() implies (#[trigger] snaps[i]).key
                    != key by {
                    if i > 0 {
                        assert(snaps[i] == rest[i - 1]);
                    }
                }
            },
        }
    }
}

/// The byte a capture holds at an absolute address: the byte of the first
/// captured region whose span holds the address.
pub open spec fn byte_at(snaps: Seq<SnapModel>, addr: u64) -> Option<u8>
    decreases snaps.len(),
{
    if snaps.len() == 0 {
        None
    } else if snaps.first().contains(addr) {
        Some(snaps.first().data[addr - snaps.first().key])
    } else {
        byte_at(snaps.drop_first(), addr)
    }
}

pub open spec fn min_len(a: int, b: int) -> int {
    if a <= b {
        a
    } else {
        b
    }
}

/// Surviving `(address, current byte)` pairs of one region compare, from
/// byte index `i` up: index `j` survives when `(prev[j] == curr[j])` agrees
/// with `should_eq`.
pub open spec fn diff_region_pairs(
    prev: Seq<u8>,
    curr: Seq<u8>,
    key: u64,
    should_eq: bool,
    i: int,
) -> Seq<(u64, u8)>
    decreases min_len(prev.len() as int, curr.len() as int) - i,
{
    let n = min_len(prev.len() as int, curr.len() as int);
    if i < 0 || i >= n {
        Seq::empty()
    } else {
        let rest = diff_region_pairs(prev, curr, key, should_eq, i + 1);
        if (prev[i] == curr[i]) == should_eq {
            seq![((key + i) as u64, curr[i])] + rest
        } else {
            rest
        }
    }
}

/// Surviving pairs over a whole capture, in capture order, for the regions
/// that also appear in the previous snapshot.
pub open spec fn diff_all(
    prev: Seq<SnapModel>,
    capture: Seq<SnapModel>,
    should_eq: bool,
) -> Seq<(u64, u8)>
    decreases capture.len(),
{
    if capture.len() == 0 {
        Seq::empty()
    } else {
        let head = capture.first();
        let this = match find_snap(prev, head.key) {
            Some(j) => diff_region_pairs(prev[j].data, head.data, head.key, should_eq, 0),
            None => Seq::empty(),
        };
        this + diff_all(prev, capture.drop_first(), should_eq)
    }
}

/// Refinement over recorded `(address, previous byte)` pairs: a pair
/// survives when the capture holds a byte for its address and that byte's
/// equality with the recorded one agrees with `should_eq`; the surviving
/// pair records the current byte.
pub open spec fn diff_refine(
    pairs: Seq<(u64, u8)>,
    capture: Seq<SnapModel>,
    should_eq: bool,
) -> Seq<(u64, u8)>
    decreases pairs.len(),
{
    if pairs.len() == 0 {
        Seq::empty()
    } else {
        let rest = diff_refine(pairs.drop_first(), capture, should_eq);
        match byte_at(capture, pairs.first().0) {
            Some(curr) => if (curr == pairs.first().1) == should_eq {
                seq![(pairs.first().0, curr)] + rest
            } else {
                rest
            },
            None => rest,
        }
    }
}

/// The recorded `(address, byte)` pairs of a result list and its parallel
/// last-value list, truncated to the shorter of the two.
pub open spec fn zip_pairs(addrs: Seq<u64>, vals: Seq<u8>) -> Seq<(u64, u8)>
    decreases addrs.len(),
{
    if addrs.len() == 0 || vals.len() == 0 {
        Seq::empty()
    } else {
        seq![(addrs.first(), vals.first())] + zip_pairs(addrs.drop_first(), vals.drop_first())
    }
}

/// Every pair the one-region compare emits lies in the compared span, holds
/// the current byte, and its old and new bytes agree exactly when
/// `should_eq` asks.
pub proof fn lemma_diff_region_pairs_sound(
    prev: Seq<u8>,
    curr: Seq<u8>,
    key: u64,
    should_eq: bool,
    i: int,
)
    requires
        key + curr.len() <= u64::MAX,
        i >= 0,
    ensures
        forall|k: int|
            0 <= k < diff_region_pairs(prev, curr, key, should_eq, i).len() ==> {
                let p = #[trigger] diff_region_pairs(prev, curr, key, should_eq, i)[k];
                let j = p.0 - key;
                &&& key + i <= p.0
                &&& j < min_len(prev.len() as int, curr.len() as int)
                &&& p.1 == curr[j]
                &&& (prev[j] == curr[j]) == should_eq
            },
    decreases min_len(prev.len() as int, curr.len() as int) - i,
{
    let n = min_len(prev.len() as int, curr.len() as int);
    if i < n {
        lemma_diff_region_pairs_sound(prev, curr, key, should_eq, i + 1);
        let whole = diff_region_pairs(prev, curr, key, should_eq, i);
        let rest = diff_region_pairs(prev, curr, key, should_eq, i + 1);
        if (prev[i] == curr[i]) == should_eq {
            assert forall|k: int| 0 <= k < whole.len() implies {
                let p = #[trigger] whole[k];
                let j = p.0 - key;
                &&& key + i <= p.0
                &&& j < n
                &&& p.1 == curr[j]
                &&& (prev[j] == curr[j]) == should_eq
            } by {
                if k > 0 {
                    assert(whole[k] == rest[k - 1]);
                }
            }
        } else {
            assert forall|k: int| 0 <= k < whole.len() implies {
                let p = #[trigger] whole[k];
                let j = p.0 - key;
                &&& key + i <= p.0
                &&& j < n
                &&& p.1 == curr[j]
                &&& (prev[j] == curr[j]) == should_eq
            } by {
                assert(whole[k] == rest[k]);
            }
        }
    }
}

/// One witness for a pair the whole-capture compare emits: capture entry
/// `c` and previous-snapshot entry `q` share a key, the pair's address lies
/// in entry `c`, the pair holds the current byte there, and the old and new
/// bytes agree exactly when `should_eq` asks.
pub open spec fn diff_pair_witness(
    prev: Seq<SnapModel>,
    capture: Seq<SnapModel>,
    should_eq: bool,
    p: (u64, u8),
    c: int,
    q: int,
) -> bool {
    &&& 0 <= c < capture.len()
    &&& 0 <= q < prev.len()
    &&& capture[c].key == prev[q].key
    &&& capture[c].contains(p.0)
    &&& p.0 - capture[c].key < prev[q].data.len()
    &&& p.1 == capture[c].data[p.0 - capture[c].key]
    &&& (prev[q].data[p.0 - capture[c].key] == capture[c].data[p.0 - capture[c].key])
        == should_eq
}

/// Snapshot diff soundness: every pair the whole-capture compare emits has a
/// witness. With `should_eq == false` (a `Changed` diff), the byte at every
/// emitted address differs between the previous and the current snapshot.
pub proof fn lemma_snapshot_diff_sound(
    prev: Seq<SnapModel>,
    capture: Seq<SnapModel>,
    should_eq: bool,
    k: int,
)
    requires
        forall|c: int|
            0 <= c < capture.len() ==> (#[trigger] capture[c]).key + capture[c].data.len()
                <= u64::MAX,
        0 <= k < diff_all(prev, capture, should_eq).len(),
    ensures
        exists|c: int, q: int|
            diff_pair_witness(
                prev,
                capture,
                should_eq,
                diff_all(prev, capture, should_eq)[k],
                c,
                q,
            ),
    decreases capture.len(),
{
    let whole = diff_all(prev, capture, should_eq);
    if capture.len() == 0 {
        assert(whole =~= Seq::<(u64, u8)>::empty());
    } else {
        let head = capture.first();
        let tail = capture.drop_first();
        assert(capture[0] == head);
        assert(forall|c: int| 0 <= c < tail.len() ==> (#[trigger] tail[c]) == capture[c + 1]);
        lemma_find_snap(prev, head.key);
        let rest = diff_all(prev, tail, should_eq);
        let this = match find_snap(prev, head.key) {
            Some(j) => diff_region_pairs(prev[j].data, head.data, head.key, should_eq, 0),
            None => Seq::<(u64, u8)>::empty(),
        };
        assert(whole == this + rest);
        if k < this.len() {
            let j = find_snap(prev, head.key)->Some_0;
            lemma_diff_region_pairs_sound(prev[j].data, head.data, head.key, should_eq, 0);
            let p = whole[k];
            assert(p == this[k]);
            assert(diff_pair_witness(prev, capture, should_eq, p, 0, j));
        } else {
            lemma_snapshot_diff_sound(prev, tail, should_eq, k - this.len());
            let p = whole[k];
            assert(p == rest[k - this.len()]);
            let (c, q) = choose|c: int, q: int|
                #[trigger] diff_pair_witness(
                    prev,
                    tail,
                    should_eq,
                    diff_all(prev, tail, should_eq)[k - this.len()],
                    c,
                    q,
                );
            assert(capture[c + 1] == tail[c]);
            assert(diff_pair_witness(prev, capture, should_eq, p, c + 1, q));
        }
    }
}

fn min_exec(a: usize, b: usize) -> (r: usize)
    ensures
        r as int == min_len(a as int, b as int),
{
    if a <= b {
        a
    } else {
        b
    }
}

/// Compare one region's previous and current bytes.
pub fn diff_region(prev: &Vec<u8>, curr: &Vec<u8>, key: u64, should_eq: bool) -> (r: Vec<
    (u64, u8),
>)
    requires
        key + curr@.len() <= u64::MAX,
    ensures
        r@ == diff_region_pairs(prev@, curr@, key, should_eq, 0),
{
    let mut r: Vec<(u64, u8)> = Vec::new();
    let n = min_exec(prev.len(), curr.len());
    let mut i: usize = 0;
    while i < n
        invariant
            0 <= i <= n,
            n as int == min_len(prev@.len() as int, curr@.len() as int),
            key + curr@.len() <= u64::MAX,
            diff_region_pairs(prev@, curr@, key, should_eq, 0) == r@ + diff_region_pairs(
                prev@,
                curr@,
                key,
                should_eq,
                i as int,
            ),
        decreases n - i,
    {
        let ghost before = r@;
        if (prev[i] == curr[i]) == should_eq {
            r.push((key + i as u64, curr[i]));
            assert(r@ =~= before + seq![((key + i as u64) as u64, curr@[i as int])]);
        }
        i += 1;
    }
    assert(diff_region_pairs(prev@, curr@, key, should_eq, i as int) =~= Seq::<(u64, u8)>::empty());
    assert(r@ =~= r@ + Seq::<(u64, u8)>::empty());
    r
}

/// Index of the first snapshot recorded for the region starting at `key`.
pub fn find_snapshot(snaps: &Vec<SnapShot>, key: u64) -> (r: Option<usize>)
    ensures
        match r {
            Some(i) => find_snap(snap_views(snaps@), key) == Some(i as int),
            None => find_snap(snap_views(snaps@), key) is None,
        },
{
    let ghost views = snap_views(snaps@);
    let mut i: usize = 0;
    while i < snaps.len()
        invariant
            0 <= i <= snaps@.len(),
            views == snap_views(snaps@),
            forall|k: int| 0 <= k < i ==> (#[trigger] views[k]).key != key,
        decreases snaps@.len() - i,
    {
        if snaps[i].region_key == key {
            proof {
                lemma_find_snap_prefix(views, key, i as int);
            }
            return Some(i);
        }
        assert(views[i as int].key != key);
        i += 1;
    }
    proof {
        lemma_find_snap_none(views, key);
    }
    None
}

/// When every key before `i` misses and `snaps[i]` hits, the first hit is
/// `i`.
proof fn lemma_find_snap_prefix(snaps: Seq<SnapModel>, key: u64, i: int)
    requires
        0 <= i < snaps.len(),
        snaps[i].key == key,
        forall|k: int| 0 <= k < i ==> (#[trigger] snaps[k]).key != key,
    ensures
        find_snap(snaps, key) == Some(i),
    decreases i,
{
    if i == 0 {
    } else {
        let tail = snaps.drop_first();
        assert(forall|k: int| 0 <= k < tail.len() ==> (#[trigger] tail[k]) == snaps[k + 1]);
        lemma_find_snap_prefix(tail, key, i - 1);
    }
}

/// When no key matches, the lookup misses.
proof fn lemma_find_snap_none(snaps: Seq<SnapModel>, key: u64)
    requires
        forall|k: int| 0 <= k < snaps.len() ==> (#[trigger] snaps[k]).key != key,
    ensures
        find_snap(snaps, key) is None,
    decreases snaps.len(),
{
    if snaps.len() > 0 {
        let tail = snaps.drop_first();
        assert(forall|k: int| 0 <= k < tail.len() ==> (#[trigger] tail[k]) == snaps[k + 1]);
        lemma_find_snap_none(tail, key);
    }
}

/// The byte a capture holds at an absolute address.
pub fn capture_byte_at(snaps: &Vec<SnapShot>, addr: u64) -> (r: Option<u8>)
    ensures
        r == byte_at(snap_views(snaps@), addr),
{
    let ghost views = snap_views(snaps@);
    assert(views.skip(0) =~= views);
    let mut i: usize = 0;
    while i < snaps.len()
        invariant
            0 <= i <= snaps@.len(),
            views == snap_views(snaps@),
            byte_at(views, addr) == byte_at(views.skip(i as int), addr),
        decreases snaps@.len() - i,
    {
        let ghost sub = views.skip(i as int);
        assert(sub.first() == views[i as int]);
        assert(sub.drop_first() =~= views.skip(i + 1));
        let s = &snaps[i];
        if s.region_key <= addr && addr - s.region_key < s.data.len() as u64 {
            assert(views[i as int].contains(addr));
            return Some(s.data[(addr - s.region_key) as usize]);
        }
        assert(!views[i as int].contains(addr));
        i += 1;
    }
    assert(views.skip(i as int) =~= Seq::<SnapModel>::empty());
    None
}


/// Addresses of surviving pairs.
pub open spec fn pair_addrs(pairs: Seq<(u64, u8)>) -> Seq<u64> {
    pairs.map_values(|p: (u64, u8)| p.0)
}

/// Observed bytes of surviving pairs.
pub open spec fn pair_vals(pairs: Seq<(u64, u8)>) -> Seq<u8> {
    pairs.map_values(|p: (u64, u8)| p.1)
}

pub proof fn lemma_zip_pairs(addrs: Seq<u64>, vals: Seq<u8>)
    ensures
        zip_pairs(addrs, vals).len() == min_len(addrs.len() as int, vals.len() as int),
        forall|i: int|
            0 <= i < zip_pairs(addrs, vals).len() ==> #[trigger] zip_pairs(addrs, vals)[i] == (
            addrs[i],
            vals[i],
            ),
    decreases addrs.len(),
{
    if addrs.len() > 0 && vals.len() > 0 {
        lemma_zip_pairs(addrs.drop_first(), vals.drop_first());
        let whole = zip_pairs(addrs, vals);
        let rest = zip_pairs(addrs.drop_first(), vals.drop_first());
        assert forall|i: int| 0 <= i < whole.len() implies #[trigger] whole[i] == (
        addrs[i],
        vals[i],
        ) by {
            if i > 0 {
                assert(whole[i] == rest[i - 1]);
                assert(addrs.drop_first()[i - 1] == addrs[i]);
                assert(vals.drop_first()[i - 1] == vals[i]);
            }
        }
    }
}

/// Compare a whole capture against the previous snapshot: for each captured
/// region that the previous snapshot also holds, the surviving byte
/// positions, in capture order.
pub fn diff_capture(prev: &Vec<SnapShot>, capture: &Vec<SnapShot>, should_eq: bool) -> (r: Vec<
    (u64, u8),
>)
    requires
        forall|i: int| 0 <= i < capture@.len() ==> (#[trigger] capture@[i]).wf(),
    ensures
        r@ == diff_all(snap_views(prev@), snap_views(capture@), should_eq),
{
    let ghost pviews = snap_views(prev@);
    let ghost cviews = snap_views(capture@);
    let mut r: Vec<(u64, u8)> = Vec::new();
    let mut k: usize = 0;
    assert(cviews.skip(0) =~= cviews);
    while k < capture.len()
        invariant
            0 <= k <= capture@.len(),
            pviews == snap_views(prev@),
            cviews == snap_views(capture@),
            forall|i: int| 0 <= i < capture@.len() ==> (#[trigger] capture@[i]).wf(),
            diff_all(pviews, cviews, should_eq) == r@ + diff_all(
                pviews,
                cviews.skip(k as int),
                should_eq,
            ),
        decreases capture@.len() - k,
    {
        let ghost sub = cviews.skip(k as int);
        assert(sub.first() == cviews[k as int]);
        assert(sub.drop_first() =~= cviews.skip(k + 1));
        let ghost before = r@;
        let head = &capture[k];
        assert(sub.first() == capture@[k as int]@);
        match find_snapshot(prev, head.region_key) {
            Some(i) => {
                proof {
                    lemma_find_snap(pviews, head.region_key);
                    assert(pviews[i as int] == prev@[i as int]@);
                }
                assert(capture@[k as int].wf());
                let mut pairs = diff_region(&prev[i].data, &head.data, head.region_key, should_eq);
                let ghost pairs_view = pairs@;
                r.append(&mut pairs);
                assert(r@ =~= before + pairs_view);
                assert(diff_all(pviews, sub, should_eq) == pairs_view + diff_all(
                    pviews,
                    cviews.skip(k + 1),
                    should_eq,
                ));
            },
            None => {
                assert(diff_all(pviews, sub, should_eq) == diff_all(
                    pviews,
                    cviews.skip(k + 1),
                    should_eq,
                ));
            },
        }
        k += 1;
    }
    assert(cviews.skip(capture@.len() as int) =~= Seq::<SnapModel>::empty());
    assert(r@ =~= r@ + Seq::<(u64, u8)>::empty());
    r
}

/// Refine recorded results against a fresh capture: keep each recorded
/// `(address, byte)` pair whose current byte's equality with the recorded
/// one agrees with `should_eq`, recording the current byte.
pub fn diff_refine_results(
    addrs: &Vec<u64>,
    vals: &Vec<u8>,
    capture: &Vec<SnapShot>,
    should_eq: bool,
) -> (r: Vec<(u64, u8)>)
    ensures
        r@ == diff_refine(zip_pairs(addrs@, vals@), snap_views(capture@), should_eq),
{
    let ghost pairs = zip_pairs(addrs@, vals@);
    let ghost cviews = snap_views(capture@);
    proof {
        lemma_zip_pairs(addrs@, vals@);
    }
    let n = min_exec(addrs.len(), vals.len());
    let mut r: Vec<(u64, u8)> = Vec::new();
    let mut i: usize = 0;
    assert(pairs.skip(0) =~= pairs);
    while i < n
        invariant
            0 <= i <= n,
            n as int == min_len(addrs@.len() as int, vals@.len() as int),
            pairs == zip_pairs(addrs@, vals@),
            cviews == snap_views(capture@),
            pairs.len() == n,
            forall|k: int| 0 <= k < pairs.len() ==> #[trigger] pairs[k] == (addrs@[k], vals@[k]),
            diff_refine(pairs, cviews, should_eq) == r@ + diff_refine(
                pairs.skip(i as int),
                cviews,
                should_eq,
            ),
        decreases n - i,
    {
        let ghost sub = pairs.skip(i as int);
        assert(sub.first() == pairs[i as int]);
        assert(sub.drop_first() =~= pairs.skip(i + 1));
        let ghost before = r@;
        let addr = addrs[i];
        let prev_byte = vals[i];
        match capture_byte_at(capture, addr) {
            Some(curr) => {
                if (curr == prev_byte) == should_eq {
                    r.push((addr, curr));
                    assert(r@ =~= before + seq![(addr, curr)]);
                }
            },
            None => {},
        }
        i += 1;
    }
    assert(pairs.skip(n as int) =~= Seq::<(u64, u8)>::empty());
    assert(r@ =~= r@ + Seq::<(u64, u8)>::empty());
    r
}

/// Split surviving pairs into the address list and the parallel last-value
/// list.
pub fn split_pairs(pairs: &Vec<(u64, u8)>) -> (r: (Vec<u64>, Vec<u8>))
    ensures
        r.0@ == pair_addrs(pairs@),
        r.1@ == pair_vals(pairs@),
{
    let mut addrs: Vec<u64> = Vec::new();
    let mut vals: Vec<u8> = Vec::new();
    let mut i: usize = 0;
    while i < pairs.len()
        invariant
            0 <= i <= pairs@.len(),
            addrs@ =~= pair_addrs(pairs@.subrange(0, i as int)),
            vals@ =~= pair_vals(pairs@.subrange(0, i as int)),
        decreases pairs@.len() - i,
    {
        let ghost pre = pairs@.subrange(0, i as int);
        let ghost cur = pairs@.subrange(0, i + 1);
        addrs.push(pairs[i].0);
        vals.push(pairs[i].1);
        assert(addrs@ =~= pair_addrs(cur));
        assert(vals@ =~= pair_vals(cur));
        i += 1;
    }
    assert(pairs@.subrange(0, pairs@.len() as int) =~= pairs@);
    assert(addrs@ =~= pair_addrs(pairs@));
    assert(vals@ =~= pair_vals(pairs@));
    (addrs, vals)
}

} // verus!
