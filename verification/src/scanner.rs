//! The scanner: owner of the region set, the current result set with its
//! parallel last-observed bytes, the latest snapshot, and the named result
//! store. The shell around it performs the `/proc` reads and writes and
//! hands the captured bytes in; every decision about them is made here.

use vstd::prelude::*;

use crate::regions::{
    eligible_regions, parse_line, parse_maps_line, region_eligible, MemRegion, RegionModel,
};
use crate::scan::{find_occurrences, lemma_occurrences_from_sound, matches_at, occurrences};
use crate::snapshot::{
    diff_all, diff_capture, diff_refine, diff_refine_results, pair_addrs, pair_vals, snap_views,
    split_pairs, zip_pairs, SnapModel, SnapShot,
};
use crate::store::{
    entry_views, find_entry, lemma_store_absent, lemma_store_found, lemma_store_push,
    lemma_store_remove, lemma_store_update, parse_store_file, parse_store_json, searches_to_json,
    store_json, store_map_of, unique_names,
};
use crate::textnum::hex_str;
use crate::textnum::u64_to_hex;

verus! {

/// The two snapshot-diff modes an operator can ask for.
pub enum SearchType {
    Changed,
    Unchanged,
}

impl SearchType {
    /// `Unchanged` keeps the bytes that stayed equal; `Changed` keeps the
    /// bytes that differ.
    pub open spec fn spec_should_equal(self) -> bool {
        self == SearchType::Unchanged
    }

    pub fn should_equal(&self) -> (r: bool)
        ensures
            r == self.spec_should_equal(),
    {
        match self {
            SearchType::Unchanged => true,
            SearchType::Changed => false,
        }
    }
}

/// The views of a line list.
pub open spec fn line_views(lines: Seq<String>) -> Seq<Seq<char>> {
    lines.map_values(|l: String| l@)
}

/// The models of a region list.
pub open spec fn region_views(rs: Seq<MemRegion>) -> Seq<RegionModel> {
    rs.map_values(|r: MemRegion| r@)
}

/// Line indices of a map listing that do not parse, in order.
pub open spec fn rejected_lines(lines: Seq<Seq<char>>, i: int) -> Seq<int>
    decreases lines.len() - i,
{
    if i < 0 || i >= lines.len() {
        Seq::empty()
    } else {
        let rest = rejected_lines(lines, i + 1);
        if parse_line(lines[i]) is None {
            seq![i] + rest
        } else {
            rest
        }
    }
}

/// Addresses of every occurrence of `pat` in one region's bytes.
pub open spec fn region_hits(start: u64, data: Seq<u8>, pat: Seq<u8>) -> Seq<u64> {
    occurrences(data, pat).map_values(|o: int| (start + o) as u64)
}

/// First-pass search results: for each region in map order whose bytes could
/// be read, the addresses of the pattern's occurrences, offsets ascending.
pub open spec fn first_pass_from(
    regions: Seq<MemRegion>,
    reads: Seq<Option<Vec<u8>>>,
    pat: Seq<u8>,
    i: int,
) -> Seq<u64>
    decreases regions.len() - i,
{
    if i < 0 || i >= regions.len() {
        Seq::empty()
    } else {
        (match reads[i] {
            Some(buf) => region_hits(regions[i].start_addr, buf@, pat),
            None => Seq::empty(),
        }) + first_pass_from(regions, reads, pat, i + 1)
    }
}

/// Refinement search results: the recorded addresses, in order, whose
/// re-read bytes equal the pattern; a failed read drops the address.
pub open spec fn refine_results(
    results: Seq<u64>,
    reads: Seq<Option<Vec<u8>>>,
    pat: Seq<u8>,
    i: int,
) -> Seq<u64>
    decreases results.len() - i,
{
    if i < 0 || i >= results.len() {
        Seq::empty()
    } else {
        let rest = refine_results(results, reads, pat, i + 1);
        match reads[i] {
            Some(buf) => if buf@ == pat {
                seq![results[i]] + rest
            } else {
                rest
            },
            None => rest,
        }
    }
}

/// The scanner's whole state. The memory channel that fills the byte
/// buffers lives outside; this type owns everything decided about them.
pub struct NoviMem {
    pid: u32,
    pname: String,
    regions: Vec<MemRegion>,
    searches: Vec<(String, Vec<u64>)>,
    results: Vec<u64>,
    values: Vec<u8>,
    snapshots: Vec<SnapShot>,
}

impl NoviMem {
    /// Scanner invariant: every region kept is well-formed and eligible, the
    /// store's names are unique, and the last-value list is parallel to the
    /// results or empty.
    pub closed spec fn wf(self) -> bool {
        &&& forall|i: int|
            0 <= i < self.regions@.len() ==> (#[trigger] self.regions@[i]).wf()
                && self.regions@[i]@.eligible()
        &&& unique_names(self.searches@)
        &&& self.values@.len() == self.results@.len() || self.values@.len() == 0
    }

    pub closed spec fn spec_pid(self) -> u32 {
        self.pid
    }

    pub closed spec fn spec_pname(self) -> Seq<char> {
        self.pname@
    }

    pub closed spec fn spec_regions(self) -> Seq<MemRegion> {
        self.regions@
    }

    pub closed spec fn spec_results(self) -> Seq<u64> {
        self.results@
    }

    pub closed spec fn spec_values(self) -> Seq<u8> {
        self.values@
    }

    pub closed spec fn spec_snapshots(self) -> Seq<SnapModel> {
        snap_views(self.snapshots@)
    }

    /// The named store as a mapping from name to saved addresses.
    pub closed spec fn store(self) -> Map<Seq<char>, Seq<u64>> {
        store_map_of(self.searches@)
    }

    /// The store's entries in order: each name with its saved addresses.
    pub closed spec fn spec_store_entries(self) -> Seq<(Seq<char>, Seq<u64>)> {
        entry_views(self.searches@)
    }

    /// A fresh scanner for one target: no regions, no results, no snapshot,
    /// an empty store.
    pub fn new(pid: u32, pname: String) -> (m: NoviMem)
        ensures
            m.wf(),
            m.spec_pid() == pid,
            m.spec_pname() == pname@,
            m.spec_regions() == Seq::<MemRegion>::empty(),
            m.spec_results() == Seq::<u64>::empty(),
            m.spec_values() == Seq::<u8>::empty(),
            m.spec_snapshots() == Seq::<SnapModel>::empty(),
            m.store() == Map::<Seq<char>, Seq<u64>>::empty(),
    {
        let m = NoviMem {
            pid,
            pname,
            regions: Vec::new(),
            searches: Vec::new(),
            results: Vec::new(),
            values: Vec::new(),
            snapshots: Vec::new(),
        };
        proof {
            assert(snap_views(m.snapshots@) =~= Seq::<SnapModel>::empty());
            assert(entry_views(m.searches@) =~= Seq::<(Seq<char>, Seq<u64>)>::empty());
        }
        m
    }

    pub fn pid(&self) -> (r: u32)
        ensures
            r == self.spec_pid(),
    {
        self.pid
    }

    pub fn pname(&self) -> (r: &String)
        ensures
            r@ == self.spec_pname(),
    {
        &self.pname
    }

    pub fn regions(&self) -> (r: &Vec<MemRegion>)
        ensures
            r@ == self.spec_regions(),
    {
        &self.regions
    }

    /// The current result set, in order.
    pub fn results(&self) -> (r: &Vec<u64>)
        ensures
            r@ == self.spec_results(),
    {
        &self.results
    }

    pub fn result_count(&self) -> (r: usize)
        ensures
            r == self.spec_results().len(),
    {
        self.results.len()
    }

    pub fn has_snapshot(&self) -> (r: bool)
        ensures
            r == (self.spec_snapshots().len() > 0),
    {
        self.snapshots.len() > 0
    }

    /// Build the region set from the lines of the kernel's map listing:
    /// every line that parses contributes its region exactly when it is
    /// readable, writeable and not the stack; the returned indices name the
    /// lines that did not parse, for the shell to report.
    pub fn parse_maps(&mut self, lines: &Vec<String>) -> (rejected: Vec<usize>)
        requires
            old(self).wf(),
        ensures
            final(self).wf(),
            region_views(final(self).spec_regions()) == eligible_regions(line_views(lines@)),
            rejected@.map_values(|x: usize| x as int) == rejected_lines(line_views(lines@), 0),
            final(self).spec_results() == old(self).spec_results(),
            final(self).spec_values() == old(self).spec_values(),
            final(self).spec_snapshots() == old(self).spec_snapshots(),
            final(self).store() == old(self).store(),
            final(self).spec_pid() == old(self).spec_pid(),
            final(self).spec_pname() == old(self).spec_pname(),
    {
        let ghost lviews = line_views(lines@);
        let mut out: Vec<MemRegion> = Vec::new();
        let mut rejected: Vec<usize> = Vec::new();
        let mut i: usize = 0;
        assert(lviews.skip(0) =~= lviews);
        assert(region_views(out@) =~= Seq::<RegionModel>::empty());
        assert(rejected@.map_values(|x: usize| x as int) =~= Seq::<int>::empty());
        while i < lines.len()
            invariant
                0 <= i <= lines@.len(),
                lviews == line_views(lines@),
                eligible_regions(lviews) =~= region_views(out@) + eligible_regions(
                    lviews.skip(i as int),
                ),
                rejected_lines(lviews, 0) =~= rejected@.map_values(|x: usize| x as int)
                    + rejected_lines(lviews, i as int),
                forall|k: int|
                    0 <= k < out@.len() ==> (#[trigger] out@[k]).wf() && out@[k]@.eligible(),
            decreases lines@.len() - i,
        {
            let ghost sub = lviews.skip(i as int);
            assert(sub.first() == lviews[i as int]);
            assert(sub.drop_first() =~= lviews.skip(i + 1));
            assert(lviews[i as int] == lines@[i as int]@);
            let ghost out_before = out@;
            let ghost rej_before = rejected@;
            match parse_maps_line(lines[i].as_str()) {
                Some(reg) => {
                    if region_eligible(&reg) {
                        out.push(reg);
                        assert(region_views(out@) =~= region_views(out_before) + seq![reg@]);
                    }
                },
                None => {
                    rejected.push(i);
                    assert(rejected@.map_values(|x: usize| x as int) =~= rej_before.map_values(
                        |x: usize| x as int,
                    ) + seq![i as int]);
                },
            }
            i += 1;
        }
        assert(lviews.skip(lines@.len() as int) =~= Seq::<Seq<char>>::empty());
        assert(eligible_regions(lviews.skip(lines@.len() as int)) =~= Seq::<RegionModel>::empty());
        assert(rejected_lines(lviews, lines@.len() as int) =~= Seq::<int>::empty());
        self.regions = out;
        assert(region_views(self.regions@) =~= region_views(self.regions@) + Seq::<
            RegionModel,
        >::empty());
        assert(rejected@.map_values(|x: usize| x as int) =~= rejected@.map_values(|x: usize| x as int)
            + Seq::<int>::empty());
        rejected
    }

    /// Search for a byte pattern. With an empty result set this is a first
    /// pass: `reads` holds, per region in map order, the region's captured
    /// bytes (`None` where the read failed), and the new result set lists
    /// every occurrence, regions in order, offsets ascending. With a
    /// non-empty result set this is a refinement: `reads` holds, per
    /// recorded address, the bytes re-read there, and an address survives
    /// exactly when its bytes equal the pattern. Returns the count.
    pub fn search(&mut self, val: &Vec<u8>, reads: &Vec<Option<Vec<u8>>>) -> (count: usize)
        requires
            old(self).wf(),
            val@.len() > 0,
            old(self).spec_results().len() == 0 ==> {
                &&& reads@.len() == old(self).spec_regions().len()
                &&& forall|i: int|
                    0 <= i < reads@.len() && (#[trigger] reads@[i]) is Some
                        ==> reads@[i]->Some_0@.len() <= old(self).spec_regions()[i].size
            },
            old(self).spec_results().len() > 0 ==> reads@.len() == old(
                self,
            ).spec_results().len(),
        ensures
            final(self).wf(),
            old(self).spec_results().len() == 0 ==> final(self).spec_results() == first_pass_from(
                old(self).spec_regions(),
                reads@,
                val@,
                0,
            ),
            old(self).spec_results().len() > 0 ==> final(self).spec_results() == refine_results(
                old(self).spec_results(),
                reads@,
                val@,
                0,
            ),
            final(self).spec_values() == Seq::<u8>::empty(),
            count == final(self).spec_results().len(),
            final(self).spec_regions() == old(self).spec_regions(),
            final(self).spec_snapshots() == old(self).spec_snapshots(),
            final(self).store() == old(self).store(),
            final(self).spec_pid() == old(self).spec_pid(),
            final(self).spec_pname() == old(self).spec_pname(),
    {
        let mut out: Vec<u64> = Vec::new();
        if self.results.len() == 0 {
            let ghost regs = self.regions@;
            let mut i: usize = 0;
            assert(first_pass_from(regs, reads@, val@, 0) =~= Seq::<u64>::empty()
                + first_pass_from(regs, reads@, val@, 0));
            while i < self.regions.len()
                invariant
                    0 <= i <= self.regions@.len(),
                    regs == self.regions@,
                    val@.len() > 0,
                    reads@.len() == regs.len(),
                    forall|k: int|
                        0 <= k < regs.len() ==> (#[trigger] regs[k]).wf(),
                    forall|k: int|
                        0 <= k < reads@.len() && (#[trigger] reads@[k]) is Some
                            ==> reads@[k]->Some_0@.len() <= regs[k].size,
                    first_pass_from(regs, reads@, val@, 0) == out@ + first_pass_from(
                        regs,
                        reads@,
                        val@,
                        i as int,
                    ),
                decreases self.regions@.len() - i,
            {
                let ghost before = out@;
                match &reads[i] {
                    Some(buf) => {
                        let start = self.regions[i].start_addr;
                        assert(regs[i as int].wf());
                        append_region_hits(&mut out, start, buf, val);
                        assert(out@ =~= before + region_hits(start, buf@, val@));
                    },
                    None => {},
                }
                i += 1;
            }
            assert(first_pass_from(regs, reads@, val@, i as int) =~= Seq::<u64>::empty());
            assert(out@ =~= out@ + Seq::<u64>::empty());
        } else {
            let ghost olds = self.results@;
            let mut i: usize = 0;
            assert(refine_results(olds, reads@, val@, 0) =~= Seq::<u64>::empty() + refine_results(
                olds,
                reads@,
                val@,
                0,
            ));
            while i < self.results.len()
                invariant
                    0 <= i <= self.results@.len(),
                    olds == self.results@,
                    reads@.len() == olds.len(),
                    refine_results(olds, reads@, val@, 0) == out@ + refine_results(
                        olds,
                        reads@,
                        val@,
                        i as int,
                    ),
                decreases self.results@.len() - i,
            {
                let ghost before = out@;
                match &reads[i] {
                    Some(buf) => {
                        if bytes_equal(buf, val) {
                            out.push(self.results[i]);
                            assert(out@ =~= before + seq![olds[i as int]]);
                        }
                    },
                    None => {},
                }
                i += 1;
            }
            assert(refine_results(olds, reads@, val@, i as int) =~= Seq::<u64>::empty());
            assert(out@ =~= out@ + Seq::<u64>::empty());
        }
        self.results = out;
        self.values = Vec::new();
        self.results.len()
    }

    /// Empty the result set and its parallel last-value list.
    pub fn clear_results(&mut self)
        requires
            old(self).wf(),
        ensures
            final(self).wf(),
            final(self).spec_results() == Seq::<u64>::empty(),
            final(self).spec_values() == Seq::<u8>::empty(),
            final(self).spec_regions() == old(self).spec_regions(),
            final(self).spec_snapshots() == old(self).spec_snapshots(),
            final(self).store() == old(self).store(),
            final(self).spec_pid() == old(self).spec_pid(),
            final(self).spec_pname() == old(self).spec_pname(),
    {
        self.results.clear();
        self.values.clear();
    }

    /// Capture handling. `capture` holds the fresh bytes of every region the
    /// shell could read, keyed by region start, and always replaces the held
    /// snapshot. With no mode, or with a mode but no prior snapshot (the
    /// shell reports the latter), the result set is untouched. With a mode
    /// and a prior snapshot: an empty result set is replaced by every byte
    /// position whose old and new bytes satisfy the mode, a non-empty one is
    /// refined through its recorded last-observed bytes; either way the
    /// last-value list records the byte each surviving address now holds.
    /// Returns the count of surviving addresses.
    pub fn take_snapshots(&mut self, stype: Option<SearchType>, capture: Vec<SnapShot>) -> (count:
        usize)
        requires
            old(self).wf(),
            forall|i: int| 0 <= i < capture@.len() ==> (#[trigger] capture@[i]).wf(),
        ensures
            final(self).wf(),
            final(self).spec_snapshots() == snap_views(capture@),
            count == final(self).spec_results().len(),
            match stype {
                None => final(self).spec_results() == old(self).spec_results() && final(self).spec_values()
                    == old(self).spec_values(),
                Some(t) => {
                    if old(self).spec_snapshots().len() == 0 {
                        final(self).spec_results() == old(self).spec_results() && final(self).spec_values()
                            == old(self).spec_values()
                    } else {
                        let pairs = if old(self).spec_results().len() == 0 {
                            diff_all(
                                old(self).spec_snapshots(),
                                snap_views(capture@),
                                t.spec_should_equal(),
                            )
                        } else {
                            diff_refine(
                                zip_pairs(old(self).spec_results(), old(self).spec_values()),
                                snap_views(capture@),
                                t.spec_should_equal(),
                            )
                        };
                        final(self).spec_results() == pair_addrs(pairs) && final(self).spec_values()
                            == pair_vals(pairs)
                    }
                },
            },
            final(self).spec_regions() == old(self).spec_regions(),
            final(self).store() == old(self).store(),
            final(self).spec_pid() == old(self).spec_pid(),
            final(self).spec_pname() == old(self).spec_pname(),
    {
        match &stype {
            Some(t) => {
                if self.snapshots.len() > 0 {
                    let se = t.should_equal();
                    let pairs = if self.results.len() == 0 {
                        diff_capture(&self.snapshots, &capture, se)
                    } else {
                        diff_refine_results(&self.results, &self.values, &capture, se)
                    };
                    let (addrs, vals) = split_pairs(&pairs);
                    self.results = addrs;
                    self.values = vals;
                }
            },
            None => {},
        }
        self.snapshots = capture;
        self.results.len()
    }

    /// Save the current result set under a name and clear it; an existing
    /// entry of that name is replaced.
    pub fn save_search(&mut self, name: String)
        requires
            old(self).wf(),
            name@.len() > 0,
        ensures
            final(self).wf(),
            final(self).store() == old(self).store().insert(name@, old(self).spec_results()),
            final(self).spec_results() == Seq::<u64>::empty(),
            final(self).spec_values() == Seq::<u8>::empty(),
            final(self).spec_regions() == old(self).spec_regions(),
            final(self).spec_snapshots() == old(self).spec_snapshots(),
            final(self).spec_pid() == old(self).spec_pid(),
            final(self).spec_pname() == old(self).spec_pname(),
    {
        let mut taken: Vec<u64> = Vec::new();
        core::mem::swap(&mut taken, &mut self.results);
        self.values.clear();
        let ghost entries = self.searches@;
        match find_entry(&self.searches, &name) {
            Some(i) => {
                proof {
                    lemma_store_update(entries, i as int, name, taken);
                }
                self.searches[i] = (name, taken);
            },
            None => {
                proof {
                    lemma_store_push(entries, name, taken);
                }
                self.searches.push((name, taken));
            },
        }
    }

    /// Replace the result set with a saved one; `true` exactly when the name
    /// is in the store. The last-value list is cleared.
    pub fn restore_search(&mut self, name: String) -> (found: bool)
        requires
            old(self).wf(),
        ensures
            final(self).wf(),
            found == old(self).store().contains_key(name@),
            found ==> final(self).spec_results() == old(self).store()[name@],
            !found ==> final(self).spec_results() == old(self).spec_results() && final(self).spec_values()
                == old(self).spec_values(),
            found ==> final(self).spec_values() == Seq::<u8>::empty(),
            final(self).store() == old(self).store(),
            final(self).spec_regions() == old(self).spec_regions(),
            final(self).spec_snapshots() == old(self).spec_snapshots(),
            final(self).spec_pid() == old(self).spec_pid(),
            final(self).spec_pname() == old(self).spec_pname(),
    {
        let ghost entries = self.searches@;
        match find_entry(&self.searches, &name) {
            Some(i) => {
                proof {
                    lemma_store_found(entries, i as int);
                }
                self.results = copy_addrs(&self.searches[i].1);
                self.values = Vec::new();
                true
            },
            None => {
                proof {
                    lemma_store_absent(entries, name@);
                }
                false
            },
        }
    }

    /// Remove a saved search; `true` exactly when the name was in the store.
    pub fn delete_search(&mut self, name: String) -> (found: bool)
        requires
            old(self).wf(),
        ensures
            final(self).wf(),
            found == old(self).store().contains_key(name@),
            found ==> final(self).store() == old(self).store().remove(name@),
            !found ==> final(self).store() == old(self).store(),
            final(self).spec_results() == old(self).spec_results(),
            final(self).spec_values() == old(self).spec_values(),
            final(self).spec_regions() == old(self).spec_regions(),
            final(self).spec_snapshots() == old(self).spec_snapshots(),
            final(self).spec_pid() == old(self).spec_pid(),
            final(self).spec_pname() == old(self).spec_pname(),
    {
        let ghost entries = self.searches@;
        match find_entry(&self.searches, &name) {
            Some(i) => {
                proof {
                    lemma_store_found(entries, i as int);
                    lemma_store_remove(entries, i as int);
                }
                self.searches.remove(i);
                true
            },
            None => {
                proof {
                    lemma_store_absent(entries, name@);
                }
                false
            },
        }
    }

    /// The saved search names, in store order.
    pub fn search_names(&self) -> (r: Vec<String>)
        ensures
            r@.len() == self.spec_store_entries().len(),
            forall|i: int|
                0 <= i < r@.len() ==> (#[trigger] r@[i])@ == self.spec_store_entries()[i].0,
    {
        let mut out: Vec<String> = Vec::new();
        let mut i: usize = 0;
        while i < self.searches.len()
            invariant
                0 <= i <= self.searches@.len(),
                out@.len() == i,
                forall|k: int| 0 <= k < i ==> (#[trigger] out@[k])@ == self.searches@[k].0@,
            decreases self.searches@.len() - i,
        {
            out.push(self.searches[i].0.clone());
            i += 1;
        }
        out
    }

    /// The JSON text of the store, for the shell to write to the state file.
    pub fn searches_json(&self) -> (r: String)
        ensures
            r@ == store_json(self.spec_store_entries()),
    {
        searches_to_json(&self.searches)
    }

    /// Whether the store holds any saved search.
    pub fn has_searches(&self) -> (r: bool)
        ensures
            r == (self.spec_store_entries().len() > 0),
    {
        self.searches.len() > 0
    }

    /// Load the store from the state file's text. On well-formed text the
    /// store holds exactly the file's entries (a repeated name keeps the
    /// last occurrence) and the call returns `true`; malformed text leaves
    /// an empty store, for the shell to report.
    pub fn load_searches(&mut self, text: &str) -> (ok: bool)
        requires
            old(self).wf(),
        ensures
            final(self).wf(),
            ok == (parse_store_json(text@) is Some),
            ok ==> final(self).store() == crate::store::map_of_views(parse_store_json(text@)->Some_0),
            !ok ==> final(self).store() == Map::<Seq<char>, Seq<u64>>::empty(),
            final(self).spec_results() == old(self).spec_results(),
            final(self).spec_values() == old(self).spec_values(),
            final(self).spec_regions() == old(self).spec_regions(),
            final(self).spec_snapshots() == old(self).spec_snapshots(),
            final(self).spec_pid() == old(self).spec_pid(),
            final(self).spec_pname() == old(self).spec_pname(),
    {
        self.searches = Vec::new();
        assert(entry_views(self.searches@) =~= Seq::<(Seq<char>, Seq<u64>)>::empty());
        match parse_store_file(text) {
            Some(parsed) => {
                let ghost views = entry_views(parsed@);
                let mut i: usize = 0;
                assert(views.subrange(0, 0) =~= Seq::<(Seq<char>, Seq<u64>)>::empty());
                let mut parsed = parsed;
                while i < parsed.len()
                    invariant
                        0 <= i <= parsed@.len(),
                        views == entry_views(parsed@),
                        unique_names(self.searches@),
                        store_map_of(self.searches@) == crate::store::map_of_views(
                            views.subrange(0, i as int),
                        ),
                        old(self).wf(),
                        self.results@ == old(self).results@,
                        self.values@ == old(self).values@,
                        self.regions@ == old(self).regions@,
                        self.snapshots@ == old(self).snapshots@,
                        self.pid == old(self).pid,
                        self.pname == old(self).pname,
                    decreases parsed@.len() - i,
                {
                    let ghost pre = views.subrange(0, i as int);
                    let ghost cur = views.subrange(0, i + 1);
                    assert(cur.drop_last() =~= pre);
                    assert(cur.last() == views[i as int]);
                    let ghost entries = self.searches@;
                    let pair = copy_entry(&parsed[i]);
                    assert(views[i as int] == (pair.0@, pair.1@));
                    match find_entry(&self.searches, &pair.0) {
                        Some(j) => {
                            proof {
                                lemma_store_update(entries, j as int, pair.0, pair.1);
                            }
                            self.searches[j] = pair;
                        },
                        None => {
                            proof {
                                lemma_store_push(entries, pair.0, pair.1);
                            }
                            self.searches.push(pair);
                        },
                    }
                    i += 1;
                }
                assert(views.subrange(0, views.len() as int) =~= views);
                true
            },
            None => {
                assert(self.store() =~= Map::<Seq<char>, Seq<u64>>::empty());
                false
            },
        }
    }

    /// The first region of the map holding this address, as the pair of its
    /// start and its name, if any does.
    pub fn get_containing_region(&self, addr: u64) -> (r: Option<(u64, String)>)
        ensures
            match r {
                Some(p) => {
                    let found = first_region_containing(self.spec_regions(), addr);
                    &&& found is Some
                    &&& p.0 == self.spec_regions()[found->Some_0].start_addr
                    &&& p.1@ == self.spec_regions()[found->Some_0].name@
                    &&& self.spec_regions()[found->Some_0]@.start_addr <= addr
                        < self.spec_regions()[found->Some_0]@.end_addr
                },
                None => first_region_containing(self.spec_regions(), addr) is None,
            },
    {
        let ghost regs = self.regions@;
        let mut i: usize = 0;
        assert(regs.skip(0) =~= regs);
        while i < self.regions.len()
            invariant
                0 <= i <= regs.len(),
                regs == self.regions@,
                first_region_containing(regs, addr) == shift_index(
                    first_region_containing(regs.skip(i as int), addr),
                    i as int,
                ),
            decreases regs.len() - i,
        {
            let ghost sub = regs.skip(i as int);
            assert(sub.first() == regs[i as int]);
            assert(sub.drop_first() =~= regs.skip(i + 1));
            let reg = &self.regions[i];
            if reg.contains(addr) {
                return Some((reg.start_addr, reg.name.clone()));
            }
            i += 1;
        }
        assert(regs.skip(regs.len() as int) =~= Seq::<MemRegion>::empty());
        None
    }

    /// One decorated result line: the address in hexadecimal and, when a
    /// region of the map holds it, the region's start, the offset into the
    /// region (so that start plus offset is the address again), and the
    /// region's name.
    pub fn format_result(&self, addr: u64) -> (r: String)
        ensures
            r@ == match first_region_containing(self.spec_regions(), addr) {
                Some(i) => decorated(
                    addr,
                    self.spec_regions()[i].start_addr,
                    self.spec_regions()[i].name@,
                ),
                None => hex_str(addr as int),
            },
            (first_region_containing(self.spec_regions(), addr) matches Some(i) ==> {
                let start = self.spec_regions()[i].start_addr;
                start + (addr - start) == addr
            }),
    {
        proof {
            reveal_strlit(" (");
            reveal_strlit(" + ");
            reveal_strlit(" in ");
            reveal_strlit(")");
        }
        match self.get_containing_region(addr) {
            Some(p) => {
                let (start, name) = p;
                let mut out = u64_to_hex(addr);
                out.append(" (");
                let h1 = u64_to_hex(start);
                out.append(h1.as_str());
                out.append(" + ");
                let h2 = u64_to_hex(addr - start);
                out.append(h2.as_str());
                out.append(" in ");
                out.append(name.as_str());
                out.append(")");
                assert(out@ =~= decorated(
                    addr,
                    self.spec_regions()[first_region_containing(self.spec_regions(), addr)->Some_0].start_addr,
                    self.spec_regions()[first_region_containing(self.spec_regions(), addr)->Some_0].name@,
                ));
                out
            },
            None => u64_to_hex(addr),
        }
    }

    /// One line per region of the map: start and end addresses in
    /// hexadecimal and the region's name.
    pub fn module_lines(&self) -> (r: Vec<String>)
        ensures
            r@.len() == self.spec_regions().len(),
            forall|i: int|
                0 <= i < r@.len() ==> (#[trigger] r@[i])@ == module_line(
                    self.spec_regions()[i]@,
                ),
    {
        proof {
            reveal_strlit(":");
            reveal_strlit("\t");
        }
        let mut out: Vec<String> = Vec::new();
        let mut i: usize = 0;
        while i < self.regions.len()
            invariant
                0 <= i <= self.regions@.len(),
                out@.len() == i,
                forall|k: int|
                    0 <= k < i ==> (#[trigger] out@[k])@ == module_line(self.regions@[k]@),
            decreases self.regions@.len() - i,
        {
            proof {
                reveal_strlit(":");
                reveal_strlit("\t");
            }
            let reg = &self.regions[i];
            let mut line = u64_to_hex(reg.start_addr);
            line.append(":");
            let h = u64_to_hex(reg.end_addr);
            line.append(h.as_str());
            line.append("\t");
            line.append(reg.name.as_str());
            assert(line@ =~= module_line(self.regions@[i as int]@));
            out.push(line);
            i += 1;
        }
        out
    }
}

/// Index of the first region that holds `addr`.
pub open spec fn first_region_containing(regions: Seq<MemRegion>, addr: u64) -> Option<int>
    decreases regions.len(),
{
    if regions.len() == 0 {
        None
    } else if regions.first().spec_contains(addr) {
        Some(0)
    } else {
        match first_region_containing(regions.drop_first(), addr) {
            Some(i) => Some(i + 1),
            None => None,
        }
    }
}

/// The same lookup result, seen from `base` entries earlier.
pub open spec fn shift_index(r: Option<int>, base: int) -> Option<int> {
    match r {
        Some(i) => Some(i + base),
        None => None,
    }
}

/// The decoration of an address inside a region: the address, then the
/// region start plus the offset that leads back to the address, then the
/// region's name.
pub open spec fn decorated(addr: u64, start: u64, name: Seq<char>) -> Seq<char> {
    hex_str(addr as int) + seq![' ', '('] + hex_str(start as int) + seq![' ', '+', ' '] + hex_str(
        addr - start,
    ) + seq![' ', 'i', 'n', ' '] + name + seq![')']
}

/// One region line: start, a colon, end, a tab, the name.
pub open spec fn module_line(r: RegionModel) -> Seq<char> {
    hex_str(r.start_addr as int) + seq![':'] + hex_str(r.end_addr as int) + seq!['\t'] + r.name
}

/// Append the addresses of every occurrence of `pat` in one region's bytes.
fn append_region_hits(out: &mut Vec<u64>, start: u64, buf: &Vec<u8>, pat: &Vec<u8>)
    requires
        pat@.len() > 0,
        start + buf@.len() <= u64::MAX,
    ensures
        final(out)@ == old(out)@ + region_hits(start, buf@, pat@),
{
    let offs = find_occurrences(buf, pat);
    proof {
        lemma_occurrences_from_sound(buf@, pat@, 0);
    }
    let ghost hits = region_hits(start, buf@, pat@);
    let mut j: usize = 0;
    assert(out@ =~= old(out)@ + hits.subrange(0, 0));
    while j < offs.len()
        invariant
            0 <= j <= offs@.len(),
            start + buf@.len() <= u64::MAX,
            offs@.map_values(|o: usize| o as int) == occurrences(buf@, pat@),
            forall|k: int|
                0 <= k < occurrences(buf@, pat@).len() ==> matches_at(
                    buf@,
                    pat@,
                    #[trigger] occurrences(buf@, pat@)[k],
                ),
            hits == region_hits(start, buf@, pat@),
            out@ == old(out)@ + hits.subrange(0, j as int),
        decreases offs@.len() - j,
    {
        let ghost occ = occurrences(buf@, pat@);
        assert(occ[j as int] == offs@[j as int] as int);
        assert(matches_at(buf@, pat@, occ[j as int]));
        let addr = start + offs[j] as u64;
        assert(hits[j as int] == addr);
        out.push(addr);
        assert(out@ =~= old(out)@ + hits.subrange(0, j + 1));
        j += 1;
    }
    assert(hits.subrange(0, hits.len() as int) =~= hits);
    assert(hits.len() == offs@.len());
}

/// Whether two byte strings hold the same bytes.
fn bytes_equal(a: &Vec<u8>, b: &Vec<u8>) -> (r: bool)
    ensures
        r == (a@ == b@),
{
    if a.len() != b.len() {
        return false;
    }
    let mut i: usize = 0;
    while i < a.len()
        invariant
            0 <= i <= a@.len(),
            a@.len() == b@.len(),
            forall|k: int| 0 <= k < i ==> a@[k] == b@[k],
        decreases a@.len() - i,
    {
        if a[i] != b[i] {
            return false;
        }
        i += 1;
    }
    assert(a@ =~= b@);
    true
}

/// A plain copy of an address list.
fn copy_addrs(src: &Vec<u64>) -> (r: Vec<u64>)
    ensures
        r@ == src@,
{
    let mut out: Vec<u64> = Vec::new();
    let mut i: usize = 0;
    while i < src.len()
        invariant
            0 <= i <= src@.len(),
            out@ =~= src@.subrange(0, i as int),
        decreases src@.len() - i,
    {
        out.push(src[i]);
        assert(out@ =~= src@.subrange(0, i + 1));
        i += 1;
    }
    assert(src@.subrange(0, src@.len() as int) =~= src@);
    out
}

/// A plain copy of one store entry.
fn copy_entry(src: &(String, Vec<u64>)) -> (r: (String, Vec<u64>))
    ensures
        r.0@ == src.0@,
        r.1@ == src.1@,
{
    (src.0.clone(), copy_addrs(&src.1))
}

/// Refinement monotonicity: every address a refinement keeps was already in
/// the result set it refined.
pub proof fn lemma_refinement_subset(
    results: Seq<u64>,
    reads: Seq<Option<Vec<u8>>>,
    pat: Seq<u8>,
    i: int,
)
    requires
        i >= 0,
    ensures
        forall|k: int|
            0 <= k < refine_results(results, reads, pat, i).len() ==> results.contains(
                #[trigger] refine_results(results, reads, pat, i)[k],
            ),
    decreases results.len() - i,
{
    if 0 <= i < results.len() {
        lemma_refinement_subset(results, reads, pat, i + 1);
        let whole = refine_results(results, reads, pat, i);
        let rest = refine_results(results, reads, pat, i + 1);
        let kept = match reads[i] {
            Some(buf) => buf@ == pat,
            None => false,
        };
        assert forall|k: int| 0 <= k < whole.len() implies results.contains(
            #[trigger] whole[k],
        ) by {
            if kept {
                if k == 0 {
                    assert(results[i] == whole[0]);
                } else {
                    assert(whole[k] == rest[k - 1]);
                }
            } else {
                assert(whole[k] == rest[k]);
            }
        }
    }
}

/// Refinement idempotence: when every re-read returns the pattern itself —
/// a stable target — refinement keeps the whole result set, in order.
pub proof fn lemma_refinement_idempotent(
    results: Seq<u64>,
    reads: Seq<Option<Vec<u8>>>,
    pat: Seq<u8>,
    i: int,
)
    requires
        0 <= i <= results.len(),
        reads.len() == results.len(),
        forall|k: int|
            0 <= k < reads.len() ==> (#[trigger] reads[k]) is Some && reads[k]->Some_0@ == pat,
    ensures
        refine_results(results, reads, pat, i) == results.skip(i),
    decreases results.len() - i,
{
    if i == results.len() {
        assert(results.skip(i) =~= Seq::<u64>::empty());
    } else {
        lemma_refinement_idempotent(results, reads, pat, i + 1);
        assert(refine_results(results, reads, pat, i) =~= results.skip(i));
    }
}

/// One witness for a first-pass hit: region `i` was read and the pattern
/// occurs in its bytes at offset `o`, the hit's address.
pub open spec fn search_hit_witness(
    regions: Seq<MemRegion>,
    reads: Seq<Option<Vec<u8>>>,
    pat: Seq<u8>,
    addr: u64,
    i: int,
    o: int,
) -> bool {
    &&& 0 <= i < regions.len()
    &&& reads[i] is Some
    &&& matches_at(reads[i]->Some_0@, pat, o)
    &&& addr == (regions[i].start_addr + o) as u64
}

/// First-pass search soundness: every address the search reports has a
/// witness — a region whose captured bytes hold the pattern at the address's
/// offset.
pub proof fn lemma_search_sound(
    regions: Seq<MemRegion>,
    reads: Seq<Option<Vec<u8>>>,
    pat: Seq<u8>,
    r: int,
    k: int,
)
    requires
        0 <= r,
        0 <= k < first_pass_from(regions, reads, pat, r).len(),
    ensures
        exists|i: int, o: int|
            search_hit_witness(regions, reads, pat, first_pass_from(regions, reads, pat, r)[k], i, o),
    decreases regions.len() - r,
{
    let whole = first_pass_from(regions, reads, pat, r);
    let this = match reads[r] {
        Some(buf) => region_hits(regions[r].start_addr, buf@, pat),
        None => Seq::<u64>::empty(),
    };
    let rest = first_pass_from(regions, reads, pat, r + 1);
    assert(whole == this + rest);
    if k < this.len() {
        let buf = reads[r]->Some_0;
        lemma_occurrences_from_sound(buf@, pat, 0);
        let occ = occurrences(buf@, pat);
        assert(this[k] == (regions[r].start_addr + occ[k]) as u64);
        assert(matches_at(buf@, pat, occ[k]));
        assert(search_hit_witness(regions, reads, pat, whole[k], r, occ[k]));
    } else {
        lemma_search_sound(regions, reads, pat, r + 1, k - this.len());
        assert(whole[k] == rest[k - this.len()]);
        let (i, o) = choose|i: int, o: int|
            #[trigger] search_hit_witness(regions, reads, pat, rest[k - this.len()], i, o);
        assert(search_hit_witness(regions, reads, pat, whole[k], i, o));
    }
}

/// A first-pass hit's witnessing region holds the hit's address, whenever
/// the region is well-formed and its captured bytes do not outrun it.
pub proof fn lemma_search_hit_in_region(
    regions: Seq<MemRegion>,
    reads: Seq<Option<Vec<u8>>>,
    pat: Seq<u8>,
    addr: u64,
    i: int,
    o: int,
)
    requires
        search_hit_witness(regions, reads, pat, addr, i, o),
        pat.len() > 0,
        regions[i].wf(),
        reads[i]->Some_0@.len() <= regions[i].size,
    ensures
        regions[i].spec_contains(addr),
{
    let buf = reads[i]->Some_0;
    assert(0 <= o && o + pat.len() <= buf@.len());
    assert(regions[i].start_addr + o < regions[i].end_addr);
}

/// The hits of region `i` all appear in the first-pass results scanned from
/// any earlier region.
proof fn lemma_first_pass_block(
    regions: Seq<MemRegion>,
    reads: Seq<Option<Vec<u8>>>,
    pat: Seq<u8>,
    r: int,
    i: int,
)
    requires
        0 <= r <= i < regions.len(),
        reads[i] is Some,
    ensures
        forall|m: int|
            0 <= m < region_hits(regions[i].start_addr, reads[i]->Some_0@, pat).len()
                ==> first_pass_from(regions, reads, pat, r).contains(
                #[trigger] region_hits(regions[i].start_addr, reads[i]->Some_0@, pat)[m],
            ),
    decreases i - r,
{
    let block = region_hits(regions[i].start_addr, reads[i]->Some_0@, pat);
    let whole = first_pass_from(regions, reads, pat, r);
    let this = match reads[r] {
        Some(buf) => region_hits(regions[r].start_addr, buf@, pat),
        None => Seq::<u64>::empty(),
    };
    let rest = first_pass_from(regions, reads, pat, r + 1);
    assert(whole == this + rest);
    if r == i {
        assert forall|m: int| 0 <= m < block.len() implies whole.contains(
            #[trigger] block[m],
        ) by {
            assert(whole[m] == block[m]);
        }
    } else {
        lemma_first_pass_block(regions, reads, pat, r + 1, i);
        assert forall|m: int| 0 <= m < block.len() implies whole.contains(
            #[trigger] block[m],
        ) by {
            assert(rest.contains(block[m]));
            let j = choose|j: int| 0 <= j < rest.len() && rest[j] == block[m];
            assert(whole[this.len() + j] == rest[j]);
        }
    }
}

/// First-pass search completeness: wherever the pattern occurs in a region
/// that was read, the results hold an address of that region that covers the
/// occurrence — the occurrence itself, or an overlapping one that starts no
/// later.
pub proof fn lemma_search_complete(
    regions: Seq<MemRegion>,
    reads: Seq<Option<Vec<u8>>>,
    pat: Seq<u8>,
    i: int,
    o: int,
)
    requires
        pat.len() > 0,
        0 <= i < regions.len(),
        reads[i] is Some,
        matches_at(reads[i]->Some_0@, pat, o),
        regions[i].wf(),
        reads[i]->Some_0@.len() <= regions[i].size,
    ensures
        exists|j: int|
            {
                &&& matches_at(reads[i]->Some_0@, pat, j)
                &&& j <= o < j + pat.len()
                &&& #[trigger] first_pass_from(regions, reads, pat, 0).contains(
                    (regions[i].start_addr + j) as u64,
                )
            },
{
    let buf = reads[i]->Some_0;
    crate::scan::lemma_occurrences_complete(buf@, pat, o);
    lemma_occurrences_from_sound(buf@, pat, 0);
    let occ = occurrences(buf@, pat);
    let k = choose|k: int| 0 <= k < occ.len() && #[trigger] occ[k] <= o < occ[k] + pat.len();
    lemma_first_pass_block(regions, reads, pat, 0, i);
    let block = region_hits(regions[i].start_addr, buf@, pat);
    assert(block[k] == (regions[i].start_addr + occ[k]) as u64);
    assert(first_pass_from(regions, reads, pat, 0).contains(block[k]));
    assert(matches_at(buf@, pat, occ[k]));
}

/// Round-trip persistence, first half: after saving the result set under a
/// name (which clears the set) and restoring by that name, the restore
/// succeeds and yields exactly the saved set. The parameters are the scanner
/// states around the three calls, related as the calls' contracts relate
/// them.
pub proof fn lemma_round_trip_persistence(
    m0: NoviMem,
    m1: NoviMem,
    m2: NoviMem,
    m3: NoviMem,
    name: Seq<char>,
    found: bool,
)
    requires
        m1.store() == m0.store().insert(name, m0.spec_results()),
        m2.store() == m1.store(),
        found == m2.store().contains_key(name),
        found ==> m3.spec_results() == m2.store()[name],
    ensures
        found,
        m3.spec_results() == m0.spec_results(),
{
}

/// Round-trip persistence across the state file: the store's file text
/// parses back to exactly the store's entries, and those entries denote the
/// store's mapping. With the save and load contracts this carries every
/// saved search across a write to disk and a later session's load.
pub proof fn lemma_store_file_persistence(m: NoviMem)
    ensures
        parse_store_json(store_json(m.spec_store_entries())) == Some(m.spec_store_entries()),
        crate::store::map_of_views(m.spec_store_entries()) == m.store(),
{
    crate::store::lemma_store_json_round_trip(m.spec_store_entries());
}

/// Round-trip persistence, second half: after deleting a name from the
/// store, restoring by that name reports failure.
pub proof fn lemma_delete_then_restore(
    m0: NoviMem,
    m1: NoviMem,
    name: Seq<char>,
    found_after: bool,
)
    requires
        m1.store() == m0.store().remove(name),
        found_after == m1.store().contains_key(name),
    ensures
        !found_after,
{
}

} // verus!
