//! Auditing a destination against its manifest: every listed file ends up intact
//! (same path, same hash), moved (same hash elsewhere), or missing; every file found
//! that nothing claimed is added. Only a missing file is a loss.

use vstd::prelude::*;
use crate::engine::hasher::{hash_hex, same_hash, HashAlgorithm, HashValue};
use crate::manifest::model::{normal_relative, normalize_relative, Manifest, ManifestEntry};
use crate::text::str_eq;

verus! {

/// A file found at the destination, with its hash.
#[derive(Debug, Clone, PartialEq, Eq)]
pub struct ObservedFile {
    pub relative_path: String,
    pub size: u64,
    pub hash: HashValue,
}

impl ObservedFile {
    /// A found file; its path is put in normal form.
    pub fn new(relative_path: &str, size: u64, hash: HashValue) -> (r: ObservedFile)
        ensures
            r.relative_path@ == normal_relative(relative_path@),
            r.size == size,
            r.hash == hash,
    {
        ObservedFile { relative_path: normalize_relative(relative_path), size, hash }
    }
}

/// A listed file found where it was written, unchanged.
#[derive(Debug, Clone, PartialEq, Eq)]
pub struct IntactItem {
    pub relative_path: String,
    pub size: u64,
}

/// A listed file found, unchanged, at another path.
#[derive(Debug, Clone, PartialEq, Eq)]
pub struct MovedItem {
    pub from: String,
    pub to: String,
    pub size: u64,
}

/// A listed file found nowhere.
#[derive(Debug, Clone, PartialEq, Eq)]
pub struct MissingItem {
    pub relative_path: String,
    pub size: u64,
    pub expected_hash: String,
    pub was_verified_at_copy: bool,
}

/// A file found that no listed file accounts for.
#[derive(Debug, Clone, PartialEq, Eq)]
pub struct AddedItem {
    pub relative_path: String,
    pub size: u64,
    pub hash: String,
}

/// The result of an audit.
#[derive(Debug, Clone, PartialEq, Eq)]
pub struct AuditReport {
    pub algorithm: HashAlgorithm,
    pub intact: Vec<IntactItem>,
    pub moved: Vec<MovedItem>,
    pub missing: Vec<MissingItem>,
    pub added: Vec<AddedItem>,
    /// Whether the whole destination was walked (false after a cancel).
    pub complete: bool,
    /// How many listed files were not verified when they were copied.
    pub unverified_at_copy: usize,
}

/// How many items of each kind.
#[derive(Debug, Clone, Copy, PartialEq, Eq, Structural)]
pub struct AuditCounts {
    pub intact: usize,
    pub moved: usize,
    pub missing: usize,
    pub added: usize,
}

impl AuditReport {
    /// The data is intact exactly when nothing is missing: a moved or added file is
    /// no loss.
    pub fn is_data_intact(&self) -> (r: bool)
        ensures
            r == (self.missing@.len() == 0),
    {
        self.missing.len() == 0
    }

    /// How many items of each kind.
    pub fn counts(&self) -> (r: AuditCounts)
        ensures
            r.intact == self.intact@.len(),
            r.moved == self.moved@.len(),
            r.missing == self.missing@.len(),
            r.added == self.added@.len(),
    {
        AuditCounts {
            intact: self.intact.len(),
            moved: self.moved.len(),
            missing: self.missing.len(),
            added: self.added.len(),
        }
    }
}

/// Index of the last found file at `path` (a later one replaces an earlier one), or -1.
pub open spec fn last_at(obs: Seq<ObservedFile>, path: Seq<char>) -> int
    decreases obs.len(),
{
    if obs.len() == 0 {
        -1
    } else if obs.last().relative_path@ == path {
        obs.len() - 1
    } else {
        last_at(obs.drop_last(), path)
    }
}

proof fn lemma_last_at(obs: Seq<ObservedFile>, path: Seq<char>)
    ensures
        -1 <= last_at(obs, path) < obs.len(),
        last_at(obs, path) >= 0 ==> obs[last_at(obs, path)].relative_path@ == path,
        forall|j: int| last_at(obs, path) < j < obs.len() ==> (#[trigger] obs[j]).relative_path@ != path,
    decreases obs.len(),
{
    if obs.len() > 0 && obs.last().relative_path@ != path {
        lemma_last_at(obs.drop_last(), path);
        assert forall|j: int| last_at(obs, path) < j < obs.len() implies (#[trigger] obs[j]).relative_path@ != path by {
            if j < obs.len() - 1 {
                assert(obs[j] == obs.drop_last()[j]);
            }
        }
    }
}

/// First pass, over the listed files in order: the ones found unchanged at their own
/// path (and which found file that claims), the others left pending.
pub open spec fn first_pass(es: Seq<ManifestEntry>, obs: Seq<ObservedFile>) -> (Seq<int>, Seq<int>, Seq<bool>)
    decreases es.len(),
{
    if es.len() == 0 {
        (Seq::empty(), Seq::empty(), Seq::new(obs.len(), |i: int| false))
    } else {
        let (intact, pending, claimed) = first_pass(es.drop_last(), obs);
        let e = es.last();
        let j = last_at(obs, e.relative_path@);
        if j >= 0 && same_hash(obs[j].hash, e.source_hash) {
            (intact.push(es.len() - 1), pending, claimed.update(j, true))
        } else {
            (intact, pending.push(es.len() - 1), claimed)
        }
    }
}

/// The first found file that nothing claimed and whose hash is `h`, or -1.
pub open spec fn first_free_match(obs: Seq<ObservedFile>, claimed: Seq<bool>, h: HashValue) -> int
    decreases obs.len(),
{
    if obs.len() == 0 {
        -1
    } else {
        let r = first_free_match(obs.drop_last(), claimed, h);
        if r >= 0 {
            r
        } else if !claimed[obs.len() - 1] && same_hash(obs.last().hash, h) {
            obs.len() - 1
        } else {
            -1
        }
    }
}

proof fn lemma_first_free_match(obs: Seq<ObservedFile>, claimed: Seq<bool>, h: HashValue)
    ensures
        -1 <= first_free_match(obs, claimed, h) < obs.len(),
        first_free_match(obs, claimed, h) >= 0 ==> !claimed[first_free_match(obs, claimed, h)]
            && same_hash(obs[first_free_match(obs, claimed, h)].hash, h),
        forall|j: int| 0 <= j < obs.len() && (first_free_match(obs, claimed, h) < 0 || j < first_free_match(obs, claimed, h))
            ==> !(!claimed[j] && same_hash((#[trigger] obs[j]).hash, h)),
    decreases obs.len(),
{
    if obs.len() > 0 {
        lemma_first_free_match(obs.drop_last(), claimed, h);
        assert forall|j: int| 0 <= j < obs.len() - 1 implies #[trigger] obs[j] == obs.drop_last()[j] by {}
    }
}

/// Second pass, over the pending listed files in order: each takes the first found
/// file that is still free and has its hash (moved), or is missing.
pub open spec fn second_pass(es: Seq<ManifestEntry>, obs: Seq<ObservedFile>, pending: Seq<int>, claimed: Seq<bool>) -> (Seq<(int, int)>, Seq<int>, Seq<bool>)
    decreases pending.len(),
{
    if pending.len() == 0 {
        (Seq::empty(), Seq::empty(), claimed)
    } else {
        let (moved, missing, cl) = second_pass(es, obs, pending.drop_last(), claimed);
        let e = es[pending.last()];
        let j = first_free_match(obs, cl, e.source_hash);
        if j >= 0 {
            (moved.push((pending.last(), j)), missing, cl.update(j, true))
        } else {
            (moved, missing.push(pending.last()), cl)
        }
    }
}

/// The found files nothing claimed, in order.
pub open spec fn unclaimed(claimed: Seq<bool>, n: int) -> Seq<int>
    decreases n,
{
    if n <= 0 {
        Seq::empty()
    } else {
        let r = unclaimed(claimed, n - 1);
        if !claimed[n - 1] { r.push(n - 1) } else { r }
    }
}

/// How many listed files were not verified at copy time.
pub open spec fn unverified_count(es: Seq<ManifestEntry>) -> nat
    decreases es.len(),
{
    if es.len() == 0 { 0 } else { unverified_count(es.drop_last()) + if es.last().verify is Verified { 0nat } else { 1nat } }
}

/// How many flags are set.
pub open spec fn trues(c: Seq<bool>) -> nat
    decreases c.len(),
{
    if c.len() == 0 { 0 } else { trues(c.drop_last()) + if c.last() { 1nat } else { 0nat } }
}

/// No two listed files share a path.
pub open spec fn distinct_paths(es: Seq<ManifestEntry>) -> bool {
    forall|a: int, b: int| 0 <= a < b < es.len() ==> (#[trigger] es[a]).relative_path@ != (#[trigger] es[b]).relative_path@
}

/// `v` holds the indices `idx`, one for one.
pub open spec fn index_rows(v: Seq<usize>, idx: Seq<int>) -> bool {
    &&& v.len() == idx.len()
    &&& forall|t: int| 0 <= t < idx.len() ==> #[trigger] v[t] as int == idx[t]
}

/// The intact rows for the listed files at `idx`.
pub open spec fn intact_rows(items: Seq<IntactItem>, es: Seq<ManifestEntry>, idx: Seq<int>) -> bool {
    &&& items.len() == idx.len()
    &&& forall|t: int| 0 <= t < idx.len() ==> (#[trigger] items[t]).relative_path@ == es[idx[t]].relative_path@
        && items[t].size == es[idx[t]].size
}

/// The moved rows for the pairs (listed file, found file).
pub open spec fn moved_rows(items: Seq<MovedItem>, es: Seq<ManifestEntry>, obs: Seq<ObservedFile>, pairs: Seq<(int, int)>) -> bool {
    &&& items.len() == pairs.len()
    &&& forall|t: int| 0 <= t < pairs.len() ==> (#[trigger] items[t]).from@ == es[pairs[t].0].relative_path@
        && items[t].to@ == obs[pairs[t].1].relative_path@ && items[t].size == es[pairs[t].0].size
}

/// The missing rows for the listed files at `idx`.
pub open spec fn missing_rows(items: Seq<MissingItem>, es: Seq<ManifestEntry>, idx: Seq<int>) -> bool {
    &&& items.len() == idx.len()
    &&& forall|t: int| 0 <= t < idx.len() ==> (#[trigger] items[t]).relative_path@ == es[idx[t]].relative_path@
        && items[t].size == es[idx[t]].size
        && items[t].expected_hash@ == hash_hex(es[idx[t]].source_hash)
        && items[t].was_verified_at_copy == (es[idx[t]].verify is Verified)
}

/// The added rows for the found files at `idx`.
pub open spec fn added_rows(items: Seq<AddedItem>, obs: Seq<ObservedFile>, idx: Seq<int>) -> bool {
    &&& items.len() == idx.len()
    &&& forall|t: int| 0 <= t < idx.len() ==> (#[trigger] items[t]).relative_path@ == obs[idx[t]].relative_path@
        && items[t].size == obs[idx[t]].size && items[t].hash@ == hash_hex(obs[idx[t]].hash)
}

/// The report `audit` gives.
pub open spec fn audit_matches(m: Manifest, obs: Seq<ObservedFile>, complete: bool, r: AuditReport) -> bool {
    let es = m.entries@;
    let fp = first_pass(es, obs);
    let sp = second_pass(es, obs, fp.1, fp.2);
    &&& r.algorithm == m.algorithm
    &&& r.complete == complete
    &&& r.unverified_at_copy == unverified_count(es)
    &&& intact_rows(r.intact@, es, fp.0)
    &&& moved_rows(r.moved@, es, obs, sp.0)
    &&& missing_rows(r.missing@, es, sp.1)
    &&& added_rows(r.added@, obs, unclaimed(sp.2, obs.len() as int))
}

proof fn lemma_first_pass(es: Seq<ManifestEntry>, obs: Seq<ObservedFile>)
    ensures
        first_pass(es, obs).2.len() == obs.len(),
        first_pass(es, obs).0.len() + first_pass(es, obs).1.len() == es.len(),
        forall|t: int| 0 <= t < first_pass(es, obs).1.len() ==> 0 <= #[trigger] first_pass(es, obs).1[t] < es.len(),
    decreases es.len(),
{
    if es.len() > 0 {
        lemma_first_pass(es.drop_last(), obs);
        lemma_last_at(obs, es.last().relative_path@);
    }
}

proof fn lemma_trues_update(c: Seq<bool>, j: int)
    requires
        0 <= j < c.len(),
        !c[j],
    ensures
        trues(c.update(j, true)) == trues(c) + 1,
    decreases c.len(),
{
    if j < c.len() - 1 {
        assert(c.update(j, true).drop_last() =~= c.drop_last().update(j, true));
        lemma_trues_update(c.drop_last(), j);
    } else {
        assert(c.update(j, true).drop_last() =~= c.drop_last());
    }
}

proof fn lemma_second_pass(es: Seq<ManifestEntry>, obs: Seq<ObservedFile>, pending: Seq<int>, claimed: Seq<bool>)
    requires
        claimed.len() == obs.len(),
    ensures
        second_pass(es, obs, pending, claimed).2.len() == obs.len(),
        second_pass(es, obs, pending, claimed).0.len() + second_pass(es, obs, pending, claimed).1.len() == pending.len(),
        trues(second_pass(es, obs, pending, claimed).2) == trues(claimed) + second_pass(es, obs, pending, claimed).0.len(),
    decreases pending.len(),
{
    if pending.len() > 0 {
        lemma_second_pass(es, obs, pending.drop_last(), claimed);
        let cl = second_pass(es, obs, pending.drop_last(), claimed).2;
        let h = es[pending.last()].source_hash;
        lemma_first_free_match(obs, cl, h);
        let j = first_free_match(obs, cl, h);
        if j >= 0 {
            lemma_trues_update(cl, j);
        }
    }
}

proof fn lemma_unclaimed_len(c: Seq<bool>, n: int)
    requires
        0 <= n <= c.len(),
    ensures
        unclaimed(c, n).len() + trues(c.take(n)) == n,
    decreases n,
{
    if n > 0 {
        lemma_unclaimed_len(c, n - 1);
        assert(c.take(n).drop_last() =~= c.take(n - 1));
    }
}

proof fn lemma_first_pass_claims(es: Seq<ManifestEntry>, obs: Seq<ObservedFile>)
    requires
        distinct_paths(es),
    ensures
        trues(first_pass(es, obs).2) == first_pass(es, obs).0.len(),
        forall|j: int| 0 <= j < obs.len() && #[trigger] first_pass(es, obs).2[j] ==>
            exists|k: int| 0 <= k < es.len() && (#[trigger] es[k]).relative_path@ == obs[j].relative_path@,
    decreases es.len(),
{
    lemma_first_pass(es, obs);
    if es.len() == 0 {
        let c = Seq::new(obs.len(), |i: int| false);
        assert forall|n: int| 0 <= n <= c.len() implies trues(#[trigger] c.take(n)) == 0 by {
            lemma_trues_none(c, n);
        }
        assert(c.take(c.len() as int) =~= c);
    } else {
        let es0 = es.drop_last();
        assert forall|a: int, b: int| 0 <= a < b < es0.len() implies (#[trigger] es0[a]).relative_path@ != (#[trigger] es0[b]).relative_path@ by {
            assert(es0[a] == es[a] && es0[b] == es[b]);
        }
        lemma_first_pass_claims(es0, obs);
        lemma_first_pass(es0, obs);
        let claimed = first_pass(es0, obs).2;
        let last = es.len() - 1;
        let p = es[last].relative_path@;
        lemma_last_at(obs, p);
        let j = last_at(obs, p);
        if j >= 0 && same_hash(obs[j].hash, es[last].source_hash) {
            if claimed[j] {
                let k = choose|k: int| 0 <= k < es0.len() && (#[trigger] es0[k]).relative_path@ == obs[j].relative_path@;
                assert(es[k] == es0[k]);
                assert(false);
            }
            lemma_trues_update(claimed, j);
            assert forall|i: int| 0 <= i < obs.len() && #[trigger] first_pass(es, obs).2[i] implies
                exists|k: int| 0 <= k < es.len() && (#[trigger] es[k]).relative_path@ == obs[i].relative_path@ by {
                if i == j {
                    assert(es[last].relative_path@ == obs[i].relative_path@);
                } else {
                    assert(claimed[i]);
                    let k = choose|k: int| 0 <= k < es0.len() && (#[trigger] es0[k]).relative_path@ == obs[i].relative_path@;
                    assert(es[k] == es0[k]);
                }
            }
        } else {
            assert forall|i: int| 0 <= i < obs.len() && #[trigger] first_pass(es, obs).2[i] implies
                exists|k: int| 0 <= k < es.len() && (#[trigger] es[k]).relative_path@ == obs[i].relative_path@ by {
                assert(claimed[i]);
                let k = choose|k: int| 0 <= k < es0.len() && (#[trigger] es0[k]).relative_path@ == obs[i].relative_path@;
                assert(es[k] == es0[k]);
            }
        }
    }
}

proof fn lemma_trues_none(c: Seq<bool>, n: int)
    requires
        0 <= n <= c.len(),
        forall|i: int| 0 <= i < c.len() ==> !c[i],
    ensures
        trues(c.take(n)) == 0,
    decreases n,
{
    if n > 0 {
        assert(c.take(n).drop_last() =~= c.take(n - 1));
        lemma_trues_none(c, n - 1);
    }
}

/// Every listed file is reported exactly once: intact, moved or missing.
pub proof fn lemma_audit_classifies_each_entry_once(m: Manifest, obs: Seq<ObservedFile>, complete: bool, r: AuditReport)
    requires
        audit_matches(m, obs, complete, r),
    ensures
        r.intact@.len() + r.moved@.len() + r.missing@.len() == m.entries@.len(),
{
    let es = m.entries@;
    lemma_first_pass(es, obs);
    let fp = first_pass(es, obs);
    lemma_second_pass(es, obs, fp.1, fp.2);
}

/// Where no two listed files share a path, every found file is claimed exactly once:
/// as intact, as the new place of a moved file, or as added.
pub proof fn lemma_audit_claims_each_found_file_once(m: Manifest, obs: Seq<ObservedFile>, complete: bool, r: AuditReport)
    requires
        audit_matches(m, obs, complete, r),
        distinct_paths(m.entries@),
    ensures
        r.intact@.len() + r.moved@.len() + r.added@.len() == obs.len(),
{
    let es = m.entries@;
    lemma_first_pass(es, obs);
    lemma_first_pass_claims(es, obs);
    let fp = first_pass(es, obs);
    lemma_second_pass(es, obs, fp.1, fp.2);
    let c = second_pass(es, obs, fp.1, fp.2).2;
    lemma_unclaimed_len(c, obs.len() as int);
    assert(c.take(obs.len() as int) =~= c);
}

/// The last found file at `path`, if any.
fn find_last_at(observed: &[ObservedFile], path: &str) -> (r: Option<usize>)
    ensures
        match r {
            Some(j) => j < observed@.len() && j as int == last_at(observed@, path@),
            None => last_at(observed@, path@) < 0,
        },
{
    let mut i: usize = observed.len();
    while i > 0
        invariant
            i <= observed@.len(),
            forall|j: int| i <= j < observed@.len() ==> (#[trigger] observed@[j]).relative_path@ != path@,
        decreases i,
    {
        i = i - 1;
        if str_eq(observed[i].relative_path.as_str(), path) {
            proof {
                lemma_last_at(observed@, path@);
            }
            return Some(i);
        }
    }
    proof {
        lemma_last_at(observed@, path@);
    }
    None
}

/// The first found file that is not claimed yet and has hash `h`, if any.
fn find_free(observed: &[ObservedFile], claimed: &Vec<bool>, h: &HashValue) -> (r: Option<usize>)
    requires
        claimed@.len() == observed@.len(),
    ensures
        match r {
            Some(j) => j < observed@.len() && j as int == first_free_match(observed@, claimed@, *h),
            None => first_free_match(observed@, claimed@, *h) < 0,
        },
{
    let mut i: usize = 0;
    while i < observed.len()
        invariant
            i <= observed@.len(),
            claimed@.len() == observed@.len(),
            forall|j: int| 0 <= j < i ==> !(!claimed@[j] && same_hash((#[trigger] observed@[j]).hash, *h)),
        decreases observed@.len() - i,
    {
        if !claimed[i] && observed[i].hash.matches(h) {
            proof {
                lemma_first_free_match(observed@, claimed@, *h);
            }
            return Some(i);
        }
        i = i + 1;
    }
    proof {
        lemma_first_free_match(observed@, claimed@, *h);
    }
    None
}

/// Audits a destination against its manifest. Listed files found at their path
/// with their hash are intact; the others take, in order, the first unclaimed found
/// file with their hash (moved) or are missing; found files nobody claimed are added.
/// A found file is claimed at most once, so duplicate content is not counted twice.
pub fn audit(manifest: &Manifest, observed: &[ObservedFile], complete: bool) -> (r: AuditReport)
    ensures
        audit_matches(*manifest, observed@, complete, r),
{
    let ghost es = manifest.entries@;
    let ghost obs = observed@;
    let mut claimed: Vec<bool> = Vec::new();
    let mut i: usize = 0;
    while i < observed.len()
        invariant
            i <= observed@.len(),
            claimed@ =~= Seq::new(i as nat, |x: int| false),
        decreases observed@.len() - i,
    {
        claimed.push(false);
        i = i + 1;
    }
    proof {
        assert(es.take(0) =~= Seq::<ManifestEntry>::empty());
    }
    let mut intact: Vec<IntactItem> = Vec::new();
    let mut pending: Vec<usize> = Vec::new();
    let mut k: usize = 0;
    while k < manifest.entries.len()
        invariant
            k <= es.len(),
            es == manifest.entries@,
            obs == observed@,
            claimed@ == first_pass(es.take(k as int), obs).2,
            intact_rows(intact@, es, first_pass(es.take(k as int), obs).0),
            index_rows(pending@, first_pass(es.take(k as int), obs).1),
        decreases es.len() - k,
    {
        proof {
            assert(es.take(k + 1).drop_last() =~= es.take(k as int));
            assert(es.take(k + 1).last() == es[k as int]);
            lemma_first_pass(es.take(k as int), obs);
        }
        let e = &manifest.entries[k];
        let mut hit = false;
        match find_last_at(observed, e.relative_path.as_str()) {
            Some(j) => {
                if observed[j].hash.matches(&e.source_hash) {
                    claimed.set(j, true);
                    intact.push(IntactItem { relative_path: e.relative_path.clone(), size: e.size });
                    hit = true;
                }
            },
            None => {},
        }
        if !hit {
            pending.push(k);
        }
        k = k + 1;
    }
    let ghost fp = first_pass(es, obs);
    proof {
        assert(es.take(es.len() as int) =~= es);
        lemma_first_pass(es, obs);
        assert(fp.1.take(0) =~= Seq::<int>::empty());
    }
    let mut moved: Vec<MovedItem> = Vec::new();
    let mut missing: Vec<MissingItem> = Vec::new();
    let mut p: usize = 0;
    while p < pending.len()
        invariant
            p <= pending@.len(),
            es == manifest.entries@,
            obs == observed@,
            fp.2.len() == obs.len(),
            index_rows(pending@, fp.1),
            forall|t: int| 0 <= t < fp.1.len() ==> 0 <= #[trigger] fp.1[t] < es.len(),
            claimed@ == second_pass(es, obs, fp.1.take(p as int), fp.2).2,
            claimed@.len() == obs.len(),
            moved_rows(moved@, es, obs, second_pass(es, obs, fp.1.take(p as int), fp.2).0),
            missing_rows(missing@, es, second_pass(es, obs, fp.1.take(p as int), fp.2).1),
        decreases pending@.len() - p,
    {
        proof {
            assert(fp.1.take(p + 1).drop_last() =~= fp.1.take(p as int));
            assert(fp.1.take(p + 1).last() == fp.1[p as int]);
        }
        let ei = pending[p];
        let e = &manifest.entries[ei];
        match find_free(observed, &claimed, &e.source_hash) {
            Some(j) => {
                claimed.set(j, true);
                moved.push(MovedItem {
                    from: e.relative_path.clone(),
                    to: observed[j].relative_path.clone(),
                    size: e.size,
                });
            },
            None => {
                missing.push(MissingItem {
                    relative_path: e.relative_path.clone(),
                    size: e.size,
                    expected_hash: e.source_hash.to_hex(),
                    was_verified_at_copy: e.counts_as_done(),
                });
            },
        }
        p = p + 1;
    }
    proof {
        assert(fp.1.take(fp.1.len() as int) =~= fp.1);
    }
    let mut added: Vec<AddedItem> = Vec::new();
    let mut i: usize = 0;
    while i < observed.len()
        invariant
            i <= obs.len(),
            obs == observed@,
            claimed@.len() == obs.len(),
            added_rows(added@, obs, unclaimed(claimed@, i as int)),
        decreases obs.len() - i,
    {
        if !claimed[i] {
            added.push(AddedItem {
                relative_path: observed[i].relative_path.clone(),
                size: observed[i].size,
                hash: observed[i].hash.to_hex(),
            });
        }
        i = i + 1;
    }
    let mut unverified: usize = 0;
    let mut k: usize = 0;
    while k < manifest.entries.len()
        invariant
            k <= es.len(),
            es == manifest.entries@,
            unverified == unverified_count(es.take(k as int)),
            unverified <= k,
        decreases es.len() - k,
    {
        proof {
            assert(es.take(k + 1).drop_last() =~= es.take(k as int));
        }
        if !manifest.entries[k].counts_as_done() {
            unverified = unverified + 1;
        }
        k = k + 1;
    }
    proof {
        assert(es.take(es.len() as int) =~= es);
    }
    AuditReport {
        algorithm: manifest.algorithm,
        intact,
        moved,
        missing,
        added,
        complete,
        unverified_at_copy: unverified,
    }
}

} // verus!
