//! The resume ledger of one landing directory and one source card: which files an
//! earlier run copied there and verified. A file may be skipped only when the ledger
//! lists it as verified, the recorded size is the source's size, and a file of that
//! size is at the destination now. Modification times are never consulted, and a
//! manifest that cannot be read turns the run into a full copy, with the reason shown.

use vstd::prelude::*;
use crate::manifest::model::{normal_relative, normalize_relative, Manifest, ManifestEntry};
use crate::manifest::store::{read_issue_text, ManifestReadIssue};
use crate::text::{owned, push_str, str_eq};

verus! {

/// One file the ledger counts as done.
#[derive(Debug, Clone, PartialEq, Eq)]
pub struct DoneEntry {
    pub relative_path: String,
    pub size: u64,
}

/// What was read from a landing directory's manifest folder, in file-name order: the
/// manifests, and the files that could not be read, each with the name to show.
#[derive(Debug, Default)]
pub struct LoadedManifests {
    pub manifests: Vec<(String, Manifest)>,
    pub issues: Vec<(String, ManifestReadIssue)>,
}

impl LoadedManifests {
    /// Whether any manifest could not be read.
    pub fn has_issues(&self) -> (r: bool)
        ensures
            r == (self.issues@.len() > 0),
    {
        self.issues.len() > 0
    }
}

/// The verified entries of one manifest, added to `done` in order (a later entry for
/// a path replaces an earlier one).
pub open spec fn absorb_entries(done: Map<Seq<char>, u64>, es: Seq<ManifestEntry>) -> Map<Seq<char>, u64>
    decreases es.len(),
{
    if es.len() == 0 {
        done
    } else {
        let d = absorb_entries(done, es.drop_last());
        if es.last().verify is Verified {
            d.insert(es.last().relative_path@, es.last().size)
        } else {
            d
        }
    }
}

/// What the manifests of one card tell, in order; other cards' manifests add nothing.
pub open spec fn absorb_all(ms: Seq<(String, Manifest)>, source_id: Seq<char>) -> Map<Seq<char>, u64>
    decreases ms.len(),
{
    if ms.len() == 0 {
        Map::empty()
    } else {
        let d = absorb_all(ms.drop_last(), source_id);
        let m = ms.last().1;
        if m.source.id@ == source_id {
            absorb_entries(d, m.entries@)
        } else {
            d
        }
    }
}

/// The reason shown for each manifest that could not be read: its name, then the
/// problem.
pub open spec fn reasons_of(issues: Seq<(String, ManifestReadIssue)>) -> Seq<Seq<char>> {
    Seq::new(issues.len(), |i: int| issues[i].0@ + "："@ + read_issue_text(issues[i].1))
}

/// The map a list of done entries stands for.
pub open spec fn entries_map(v: Seq<DoneEntry>) -> Map<Seq<char>, u64>
    decreases v.len(),
{
    if v.len() == 0 {
        Map::empty()
    } else {
        entries_map(v.drop_last()).insert(v.last().relative_path@, v.last().size)
    }
}

/// No path twice.
pub open spec fn distinct_done(v: Seq<DoneEntry>) -> bool {
    forall|a: int, b: int| 0 <= a < b < v.len() ==> (#[trigger] v[a]).relative_path@ != (#[trigger] v[b]).relative_path@
}

/// The resume ledger of one landing directory and one card.
pub struct ResumeLedger {
    landing_dir: String,
    done: Vec<DoneEntry>,
    /// Why this run copies everything; empty unless a manifest could not be read.
    pub degraded_reasons: Vec<String>,
}

proof fn lemma_entries_map_len(v: Seq<DoneEntry>)
    requires
        distinct_done(v),
    ensures
        entries_map(v).dom().finite(),
        entries_map(v).dom().len() == v.len(),
        forall|k: Seq<char>| entries_map(v).dom().contains(k) <==> exists|i: int| 0 <= i < v.len() && (#[trigger] v[i]).relative_path@ == k,
    decreases v.len(),
{
    if v.len() > 0 {
        let w = v.drop_last();
        assert forall|a: int, b: int| 0 <= a < b < w.len() implies (#[trigger] w[a]).relative_path@ != (#[trigger] w[b]).relative_path@ by {
            assert(w[a] == v[a] && w[b] == v[b]);
        }
        lemma_entries_map_len(w);
        let k0 = v.last().relative_path@;
        if entries_map(w).dom().contains(k0) {
            let i = choose|i: int| 0 <= i < w.len() && (#[trigger] w[i]).relative_path@ == k0;
            assert(w[i] == v[i]);
            assert(false);
        }
        assert forall|k: Seq<char>| entries_map(v).dom().contains(k) <==> exists|i: int| 0 <= i < v.len() && (#[trigger] v[i]).relative_path@ == k by {
            if entries_map(v).dom().contains(k) {
                if k == k0 {
                    assert(v[v.len() - 1].relative_path@ == k);
                } else {
                    let i = choose|i: int| 0 <= i < w.len() && (#[trigger] w[i]).relative_path@ == k;
                    assert(w[i] == v[i]);
                }
            }
            if exists|i: int| 0 <= i < v.len() && (#[trigger] v[i]).relative_path@ == k {
                let i = choose|i: int| 0 <= i < v.len() && (#[trigger] v[i]).relative_path@ == k;
                if i < v.len() - 1 {
                    assert(w[i] == v[i]);
                }
            }
        }
    }
}

proof fn lemma_entries_map_update(v: Seq<DoneEntry>, j: int, e: DoneEntry)
    requires
        distinct_done(v),
        0 <= j < v.len(),
        v[j].relative_path@ == e.relative_path@,
    ensures
        entries_map(v.update(j, e)) == entries_map(v).insert(e.relative_path@, e.size),
        distinct_done(v.update(j, e)),
    decreases v.len(),
{
    let u = v.update(j, e);
    assert forall|a: int, b: int| 0 <= a < b < u.len() implies (#[trigger] u[a]).relative_path@ != (#[trigger] u[b]).relative_path@ by {
        assert(u[a].relative_path@ == v[a].relative_path@);
        assert(u[b].relative_path@ == v[b].relative_path@);
    }
    let w = v.drop_last();
    assert forall|a: int, b: int| 0 <= a < b < w.len() implies (#[trigger] w[a]).relative_path@ != (#[trigger] w[b]).relative_path@ by {
        assert(w[a] == v[a] && w[b] == v[b]);
    }
    if j == v.len() - 1 {
        assert(u.drop_last() =~= w);
        assert(entries_map(u) =~= entries_map(v).insert(e.relative_path@, e.size));
    } else {
        assert(u.drop_last() =~= w.update(j, e));
        lemma_entries_map_update(w, j, e);
        assert(v.last().relative_path@ != e.relative_path@) by {
            assert(v[j].relative_path@ != v[v.len() - 1].relative_path@);
        }
        assert(entries_map(u) =~= entries_map(v).insert(e.relative_path@, e.size));
    }
}

/// Records `e` in `done`: replaces the entry at its path, or appends it.
fn upsert(done: &mut Vec<DoneEntry>, e: DoneEntry)
    requires
        distinct_done(old(done)@),
    ensures
        distinct_done(final(done)@),
        entries_map(final(done)@) == entries_map(old(done)@).insert(e.relative_path@, e.size),
{
    let mut i: usize = 0;
    while i < done.len()
        invariant
            i <= done@.len(),
            done@ == old(done)@,
            distinct_done(done@),
            forall|k: int| 0 <= k < i ==> (#[trigger] done@[k]).relative_path@ != e.relative_path@,
        decreases done@.len() - i,
    {
        if str_eq(done[i].relative_path.as_str(), e.relative_path.as_str()) {
            proof {
                lemma_entries_map_update(done@, i as int, e);
            }
            done.set(i, e);
            return;
        }
        i = i + 1;
    }
    let ghost before = done@;
    done.push(e);
    proof {
        assert(done@.drop_last() =~= before);
        assert(done@.last() == e);
        assert(entries_map(done@) == entries_map(before).insert(e.relative_path@, e.size));
        assert forall|a: int, b: int| 0 <= a < b < done@.len() implies (#[trigger] done@[a]).relative_path@ != (#[trigger] done@[b]).relative_path@ by {
            if b < done@.len() - 1 {
                assert(done@[a] == before[a] && done@[b] == before[b]);
            } else {
                assert(done@[a] == before[a]);
            }
        }
    }
}

impl ResumeLedger {
    /// The ledger's invariant: no path twice.
    pub closed spec fn wf(&self) -> bool {
        distinct_done(self.done@)
    }

    /// The files counted as done, by path, with their recorded sizes.
    pub closed spec fn done_map(&self) -> Map<Seq<char>, u64> {
        entries_map(self.done@)
    }

    /// The reasons this run copies everything.
    pub closed spec fn reasons(&self) -> Seq<String> {
        self.degraded_reasons@
    }

    /// The landing directory this ledger describes.
    pub closed spec fn landing(&self) -> Seq<char> {
        self.landing_dir@
    }

    /// An empty ledger (no history, or a forced full copy).
    pub fn empty(landing_dir: &str) -> (r: ResumeLedger)
        ensures
            r.wf(),
            r.done_map() == Map::<Seq<char>, u64>::empty(),
            r.landing() == landing_dir@,
            r.reasons().len() == 0,
    {
        let r = ResumeLedger { landing_dir: owned(landing_dir), done: Vec::new(), degraded_reasons: Vec::new() };
        proof {
            assert(entries_map(r.done@) =~= Map::<Seq<char>, u64>::empty());
        }
        r
    }

    /// The ledger from what was read of a landing directory, for one card. Any
    /// manifest that could not be read makes the ledger empty and degraded, with a
    /// reason per such file; otherwise it holds every verified entry of the card's
    /// manifests, a later record of a path replacing an earlier one.
    pub fn load(landing_dir: &str, loaded: &LoadedManifests, source_id: &str) -> (r: ResumeLedger)
        ensures
            r.wf(),
            r.landing() == landing_dir@,
            r.reasons().len() == loaded.issues@.len(),
            forall|i: int| 0 <= i < r.reasons().len() ==> (#[trigger] r.reasons()[i])@ == reasons_of(loaded.issues@)[i],
            loaded.issues@.len() > 0 ==> r.done_map() == Map::<Seq<char>, u64>::empty(),
            loaded.issues@.len() == 0 ==> r.done_map() == absorb_all(loaded.manifests@, source_id@),
    {
        let mut ledger = ResumeLedger::empty(landing_dir);
        let mut i: usize = 0;
        while i < loaded.issues.len()
            invariant
                i <= loaded.issues@.len(),
                ledger.wf(),
                ledger.landing() == landing_dir@,
                ledger.done_map() == Map::<Seq<char>, u64>::empty(),
                ledger.reasons().len() == i,
                forall|k: int| 0 <= k < i ==> (#[trigger] ledger.reasons()[k])@ == reasons_of(loaded.issues@)[k],
            decreases loaded.issues@.len() - i,
        {
            let mut s = String::new();
            push_str(&mut s, loaded.issues[i].0.as_str());
            push_str(&mut s, "：");
            let d = loaded.issues[i].1.describe();
            push_str(&mut s, d.as_str());
            ledger.degraded_reasons.push(s);
            i = i + 1;
        }
        if loaded.issues.len() > 0 {
            return ledger;
        }
        let mut k: usize = 0;
        while k < loaded.manifests.len()
            invariant
                k <= loaded.manifests@.len(),
                loaded.issues@.len() == 0,
                ledger.wf(),
                ledger.landing() == landing_dir@,
                ledger.reasons().len() == 0,
                ledger.done_map() == absorb_all(loaded.manifests@.take(k as int), source_id@),
            decreases loaded.manifests@.len() - k,
        {
            proof {
                assert(loaded.manifests@.take(k + 1).drop_last() =~= loaded.manifests@.take(k as int));
            }
            ledger.absorb(&loaded.manifests[k].1, source_id);
            k = k + 1;
        }
        proof {
            assert(loaded.manifests@.take(loaded.manifests@.len() as int) =~= loaded.manifests@);
        }
        ledger
    }

    fn absorb(&mut self, m: &Manifest, source_id: &str)
        requires
            old(self).wf(),
        ensures
            final(self).wf(),
            final(self).landing() == old(self).landing(),
            final(self).reasons() == old(self).reasons(),
            final(self).done_map() == (if m.source.id@ == source_id@ {
                absorb_entries(old(self).done_map(), m.entries@)
            } else {
                old(self).done_map()
            }),
    {
        if !str_eq(m.source.id.as_str(), source_id) {
            return;
        }
        let ghost start = self.done_map();
        let mut i: usize = 0;
        while i < m.entries.len()
            invariant
                i <= m.entries@.len(),
                self.wf(),
                self.landing() == old(self).landing(),
                self.reasons() == old(self).reasons(),
                self.done_map() == absorb_entries(start, m.entries@.take(i as int)),
            decreases m.entries@.len() - i,
        {
            proof {
                assert(m.entries@.take(i + 1).drop_last() =~= m.entries@.take(i as int));
            }
            let e = &m.entries[i];
            if e.counts_as_done() {
                upsert(&mut self.done, DoneEntry { relative_path: e.relative_path.clone(), size: e.size });
            }
            i = i + 1;
        }
        proof {
            assert(m.entries@.take(m.entries@.len() as int) =~= m.entries@);
        }
    }

    /// Whether this run copies everything because a manifest could not be read.
    pub fn is_degraded(&self) -> (r: bool)
        ensures
            r == (self.reasons().len() > 0),
    {
        self.degraded_reasons.len() > 0
    }

    /// How many files the ledger counts as done.
    pub fn len(&self) -> (r: usize)
        requires
            self.wf(),
        ensures
            r == self.done_map().dom().len(),
    {
        proof {
            lemma_entries_map_len(self.done@);
        }
        self.done.len()
    }

    /// Whether the ledger counts no file as done.
    pub fn is_empty(&self) -> (r: bool)
        requires
            self.wf(),
        ensures
            r == (self.done_map().dom().len() == 0),
    {
        proof {
            lemma_entries_map_len(self.done@);
        }
        self.done.len() == 0
    }

    /// The landing directory.
    pub fn landing_dir(&self) -> (r: &str)
        ensures
            r@ == self.landing(),
    {
        self.landing_dir.as_str()
    }

    /// Whether a source file may be skipped: its path (either separator) is counted
    /// as done, with the source's size, and the file now at its place in the landing
    /// directory has that size too (`landed_size` is that file's size, `None` when
    /// there is no file there).
    pub fn is_done(&self, relative_path: &str, source_size: u64, landed_size: Option<u64>) -> (r: bool)
        requires
            self.wf(),
        ensures
            r == ({
                let key = normal_relative(relative_path@);
                &&& self.done_map().dom().contains(key)
                &&& self.done_map()[key] == source_size
                &&& landed_size == Some(source_size)
            }),
    {
        let key = normalize_relative(relative_path);
        proof {
            lemma_entries_map_len(self.done@);
        }
        let mut i: usize = 0;
        while i < self.done.len()
            invariant
                i <= self.done@.len(),
                self.wf(),
                key@ == normal_relative(relative_path@),
                forall|k: int| 0 <= k < i ==> (#[trigger] self.done@[k]).relative_path@ != key@,
            decreases self.done@.len() - i,
        {
            if str_eq(self.done[i].relative_path.as_str(), key.as_str()) {
                proof {
                    lemma_entries_map_lookup(self.done@, i as int);
                }
                let recorded = self.done[i].size;
                return recorded == source_size && match landed_size {
                    Some(n) => n == source_size,
                    None => false,
                };
            }
            i = i + 1;
        }
        proof {
            if self.done_map().dom().contains(key@) {
                let j = choose|j: int| 0 <= j < self.done@.len() && (#[trigger] self.done@[j]).relative_path@ == key@;
                assert(self.done@[j].relative_path@ != key@);
            }
        }
        false
    }
}

proof fn lemma_entries_map_lookup(v: Seq<DoneEntry>, j: int)
    requires
        distinct_done(v),
        0 <= j < v.len(),
    ensures
        entries_map(v).dom().contains(v[j].relative_path@),
        entries_map(v)[v[j].relative_path@] == v[j].size,
    decreases v.len(),
{
    let w = v.drop_last();
    if j < v.len() - 1 {
        assert forall|a: int, b: int| 0 <= a < b < w.len() implies (#[trigger] w[a]).relative_path@ != (#[trigger] w[b]).relative_path@ by {
            assert(w[a] == v[a] && w[b] == v[b]);
        }
        assert(w[j] == v[j]);
        lemma_entries_map_lookup(w, j);
        assert(v[j].relative_path@ != v[v.len() - 1].relative_path@);
    }
}

/// Whether entry `e` of the `a`-th manifest is a verified record of path `k` with size
/// `size`, made for card `source_id`.
pub open spec fn verified_record(ms: Seq<(String, Manifest)>, source_id: Seq<char>, a: int, e: int, k: Seq<char>, size: u64) -> bool {
    &&& 0 <= a < ms.len()
    &&& ms[a].1.source.id@ == source_id
    &&& 0 <= e < ms[a].1.entries@.len()
    &&& ms[a].1.entries@[e].relative_path@ == k
    &&& ms[a].1.entries@[e].size == size
    &&& ms[a].1.entries@[e].verify is Verified
}

proof fn lemma_absorb_entries_source(done: Map<Seq<char>, u64>, es: Seq<ManifestEntry>, k: Seq<char>)
    requires
        absorb_entries(done, es).dom().contains(k),
    ensures
        (done.dom().contains(k) && absorb_entries(done, es)[k] == done[k]) || exists|e: int| 0 <= e < es.len()
            && (#[trigger] es[e]).relative_path@ == k && es[e].size == absorb_entries(done, es)[k] && es[e].verify is Verified,
    decreases es.len(),
{
    if es.len() > 0 {
        let d = absorb_entries(done, es.drop_last());
        let last = es[es.len() - 1];
        assert(es.last() == last);
        if last.verify is Verified && last.relative_path@ == k {
            assert(absorb_entries(done, es)[k] == last.size);
        } else {
            assert(d.dom().contains(k));
            assert(absorb_entries(done, es)[k] == d[k]);
            lemma_absorb_entries_source(done, es.drop_last(), k);
            if !(done.dom().contains(k) && d[k] == done[k]) {
                let e = choose|e: int| 0 <= e < es.drop_last().len() && (#[trigger] es.drop_last()[e]).relative_path@ == k
                    && es.drop_last()[e].size == d[k] && es.drop_last()[e].verify is Verified;
                assert(es[e] == es.drop_last()[e]);
            }
        }
    }
}

proof fn lemma_absorb_all_source(ms: Seq<(String, Manifest)>, source_id: Seq<char>, k: Seq<char>)
    requires
        absorb_all(ms, source_id).dom().contains(k),
    ensures
        exists|a: int, e: int| #[trigger] verified_record(ms, source_id, a, e, k, absorb_all(ms, source_id)[k]),
    decreases ms.len(),
{
    let d = absorb_all(ms.drop_last(), source_id);
    let m = ms[ms.len() - 1].1;
    assert(ms.last().1 == m);
    if m.source.id@ == source_id {
        lemma_absorb_entries_source(d, m.entries@, k);
        if d.dom().contains(k) && absorb_all(ms, source_id)[k] == d[k] {
            lemma_absorb_all_source(ms.drop_last(), source_id, k);
            let (a, e) = choose|a: int, e: int| #[trigger] verified_record(ms.drop_last(), source_id, a, e, k, d[k]);
            assert(ms[a] == ms.drop_last()[a]);
            assert(verified_record(ms, source_id, a, e, k, absorb_all(ms, source_id)[k]));
        } else {
            let e = choose|e: int| 0 <= e < m.entries@.len() && (#[trigger] m.entries@[e]).relative_path@ == k
                && m.entries@[e].size == absorb_all(ms, source_id)[k] && m.entries@[e].verify is Verified;
            assert(verified_record(ms, source_id, ms.len() - 1, e, k, absorb_all(ms, source_id)[k]));
        }
    } else {
        lemma_absorb_all_source(ms.drop_last(), source_id, k);
        let (a, e) = choose|a: int, e: int| #[trigger] verified_record(ms.drop_last(), source_id, a, e, k, d[k]);
        assert(ms[a] == ms.drop_last()[a]);
        assert(verified_record(ms, source_id, a, e, k, absorb_all(ms, source_id)[k]));
    }
}

/// A file is skipped only on a record this card's own readable manifests made of it:
/// a verified entry with the same path and size. When any manifest could not be
/// read, nothing is skipped and everything is copied again.
pub proof fn lemma_skip_needs_verified_record(loaded: LoadedManifests, source_id: Seq<char>, done: Map<Seq<char>, u64>, path: Seq<char>, size: u64)
    requires
        loaded.issues@.len() > 0 ==> done == Map::<Seq<char>, u64>::empty(),
        loaded.issues@.len() == 0 ==> done == absorb_all(loaded.manifests@, source_id),
        done.dom().contains(normal_relative(path)),
        done[normal_relative(path)] == size,
    ensures
        loaded.issues@.len() == 0,
        exists|a: int, e: int| #[trigger] verified_record(loaded.manifests@, source_id, a, e, normal_relative(path), size),
{
    if loaded.issues@.len() > 0 {
        assert(!Map::<Seq<char>, u64>::empty().dom().contains(normal_relative(path)));
    } else {
        lemma_absorb_all_source(loaded.manifests@, source_id, normal_relative(path));
    }
}

} // verus!
