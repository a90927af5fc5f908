//! The manifest model: one file per destination and task, listing every copied file
//! with its source hash and, when verified, the hash read back from the destination.

use vstd::prelude::*;
use crate::engine::hasher::{HashAlgorithm, HashValue};
use crate::manifest::store::Moment;
use crate::organize::{segments, split_segments};
use crate::text::{join, join_seq, owned, str_eq, views};

verus! {

/// The manifest format's version.
pub const MANIFEST_FORMAT_VERSION: u32 = 1;

/// The program's name and version, written into each manifest.
pub const GENERATOR_NAME: &'static str = "steadcopy";
pub const GENERATOR_VERSION: &'static str = "0.1.0";

/// Which program wrote a manifest.
#[derive(Debug, Clone, PartialEq, Eq)]
pub struct Generator {
    pub name: String,
    pub version: String,
}

impl Default for Generator {
    /// This program.
    fn default() -> (r: Generator)
        ensures
            r.name@ == GENERATOR_NAME@,
            r.version@ == GENERATOR_VERSION@,
    {
        Generator { name: owned(GENERATOR_NAME), version: owned(GENERATOR_VERSION) }
    }
}

/// The source device of a task.
#[derive(Debug, Clone, PartialEq, Eq)]
pub struct SourceRef {
    pub id: String,
    pub display_name: String,
}

/// Whether a file was read back from the destination and matched.
#[derive(Debug, Clone, Copy, PartialEq, Eq)]
pub enum VerifyState {
    NotVerified,
    Verified { destination_hash: HashValue },
}

impl VerifyState {
    /// Whether the file was verified.
    pub fn is_verified(&self) -> (r: bool)
        ensures
            r == (*self is Verified),
    {
        match self {
            VerifyState::Verified { .. } => true,
            VerifyState::NotVerified => false,
        }
    }

    /// The hash read back from the destination, when verified.
    pub fn destination_hash(&self) -> (r: Option<&HashValue>)
        ensures
            match *self {
                VerifyState::Verified { destination_hash } => r == Some(&destination_hash),
                VerifyState::NotVerified => r is None,
            },
    {
        match self {
            VerifyState::Verified { destination_hash } => Some(destination_hash),
            VerifyState::NotVerified => None,
        }
    }
}

/// One copied file.
#[derive(Debug, Clone, PartialEq, Eq)]
pub struct ManifestEntry {
    /// Relative to the destination root, with `/` separators.
    pub relative_path: String,
    pub size: u64,
    pub source_hash: HashValue,
    pub verify: VerifyState,
    pub source_modified_at: Option<Moment>,
    pub completed_at: Moment,
    pub retries: u32,
}

impl ManifestEntry {
    /// Whether the entry counts as done: only a verified file does.
    pub fn counts_as_done(&self) -> (r: bool)
        ensures
            r == (self.verify is Verified),
    {
        self.verify.is_verified()
    }
}

/// The manifest of one task at one destination.
#[derive(Debug, Clone, PartialEq, Eq)]
pub struct Manifest {
    pub format_version: u32,
    pub generator: Generator,
    pub created_at: Moment,
    pub source: SourceRef,
    pub project: String,
    pub destination_root: String,
    pub algorithm: HashAlgorithm,
    pub entries: Vec<ManifestEntry>,
}

/// The sum of the entries' sizes.
pub open spec fn size_sum(es: Seq<ManifestEntry>) -> nat
    decreases es.len(),
{
    if es.len() == 0 { 0 } else { size_sum(es.drop_last()) + es.last().size as nat }
}

/// How many entries count as done.
pub open spec fn done_count(es: Seq<ManifestEntry>) -> nat
    decreases es.len(),
{
    if es.len() == 0 { 0 } else { done_count(es.drop_last()) + if es.last().verify is Verified { 1nat } else { 0nat } }
}

/// A relative path in its one normal form: the non-empty pieces between `/` or `\`,
/// joined with `/`.
pub open spec fn normal_relative(path: Seq<char>) -> Seq<char> {
    join_seq(segments(path), '/')
}

/// Index of the first entry whose path is `key`, or -1.
pub open spec fn entry_idx(es: Seq<ManifestEntry>, key: Seq<char>) -> int
    decreases es.len(),
{
    if es.len() == 0 {
        -1
    } else {
        let r = entry_idx(es.drop_last(), key);
        if r >= 0 { r } else if es.last().relative_path@ == key { es.len() - 1 } else { -1 }
    }
}

proof fn lemma_entry_idx(es: Seq<ManifestEntry>, key: Seq<char>)
    ensures
        -1 <= entry_idx(es, key) < es.len(),
        entry_idx(es, key) >= 0 ==> es[entry_idx(es, key)].relative_path@ == key,
        forall|j: int| 0 <= j < entry_idx(es, key) ==> (#[trigger] es[j]).relative_path@ != key,
        entry_idx(es, key) < 0 ==> forall|j: int| 0 <= j < es.len() ==> (#[trigger] es[j]).relative_path@ != key,
    decreases es.len(),
{
    if es.len() > 0 {
        lemma_entry_idx(es.drop_last(), key);
        assert forall|j: int| 0 <= j < es.len() - 1 implies #[trigger] es[j] == es.drop_last()[j] by {}
    }
}

impl Manifest {
    /// An empty manifest of this program and format.
    pub fn new(source: SourceRef, project: &str, destination_root: &str, algorithm: HashAlgorithm, created_at: Moment) -> (r: Manifest)
        ensures
            r.format_version == MANIFEST_FORMAT_VERSION,
            r.generator.name@ == GENERATOR_NAME@,
            r.generator.version@ == GENERATOR_VERSION@,
            r.created_at == created_at,
            r.source == source,
            r.project@ == project@,
            r.destination_root@ == destination_root@,
            r.algorithm == algorithm,
            r.entries@.len() == 0,
    {
        Manifest {
            format_version: MANIFEST_FORMAT_VERSION,
            generator: Generator::default(),
            created_at,
            source,
            project: owned(project),
            destination_root: owned(destination_root),
            algorithm,
            entries: Vec::new(),
        }
    }

    /// The total size of all entries, in bytes.
    pub fn total_bytes(&self) -> (r: u64)
        requires
            size_sum(self.entries@) <= u64::MAX,
        ensures
            r == size_sum(self.entries@),
    {
        let mut t: u64 = 0;
        let mut i: usize = 0;
        while i < self.entries.len()
            invariant
                i <= self.entries@.len(),
                t == size_sum(self.entries@.take(i as int)),
                size_sum(self.entries@) <= u64::MAX,
            decreases self.entries@.len() - i,
        {
            proof {
                assert(self.entries@.take(i + 1).drop_last() =~= self.entries@.take(i as int));
                lemma_size_sum_prefix(self.entries@, i + 1);
            }
            t = t + self.entries[i].size;
            i = i + 1;
        }
        proof {
            assert(self.entries@.take(self.entries@.len() as int) =~= self.entries@);
        }
        t
    }

    /// How many entries count as done (verified).
    pub fn verified_count(&self) -> (r: usize)
        ensures
            r == done_count(self.entries@),
    {
        let mut c: usize = 0;
        let mut i: usize = 0;
        while i < self.entries.len()
            invariant
                i <= self.entries@.len(),
                c == done_count(self.entries@.take(i as int)),
                c <= i,
            decreases self.entries@.len() - i,
        {
            proof {
                assert(self.entries@.take(i + 1).drop_last() =~= self.entries@.take(i as int));
            }
            if self.entries[i].counts_as_done() {
                c = c + 1;
            }
            i = i + 1;
        }
        proof {
            assert(self.entries@.take(self.entries@.len() as int) =~= self.entries@);
        }
        c
    }

    /// The entry for a relative path, written with either separator.
    pub fn entry(&self, relative_path: &str) -> (r: Option<&ManifestEntry>)
        ensures
            match r {
                Some(e) => entry_idx(self.entries@, normal_relative(relative_path@)) >= 0
                    && *e == self.entries@[entry_idx(self.entries@, normal_relative(relative_path@))],
                None => entry_idx(self.entries@, normal_relative(relative_path@)) < 0,
            },
    {
        let key = normalize_relative(relative_path);
        let ghost k = key@;
        let mut i: usize = 0;
        while i < self.entries.len()
            invariant
                i <= self.entries@.len(),
                k == key@,
                k == normal_relative(relative_path@),
                forall|j: int| 0 <= j < i ==> (#[trigger] self.entries@[j]).relative_path@ != k,
            decreases self.entries@.len() - i,
        {
            if str_eq(self.entries[i].relative_path.as_str(), key.as_str()) {
                proof {
                    lemma_entry_idx(self.entries@, k);
                    let r = entry_idx(self.entries@, k);
                    if r >= 0 && r < i {
                        assert(self.entries@[r].relative_path@ != k);
                    }
                    if r < 0 {
                        assert(self.entries@[i as int].relative_path@ != k);
                    }
                }
                return Some(&self.entries[i]);
            }
            i = i + 1;
        }
        proof {
            lemma_entry_idx(self.entries@, k);
            let r = entry_idx(self.entries@, k);
            if r >= 0 {
                assert(self.entries@[r].relative_path@ != k);
            }
        }
        None
    }
}

proof fn lemma_size_sum_prefix(es: Seq<ManifestEntry>, i: int)
    requires
        0 <= i <= es.len(),
    ensures
        size_sum(es.take(i)) <= size_sum(es),
    decreases es.len() - i,
{
    if i < es.len() {
        lemma_size_sum_prefix(es, i + 1);
        assert(es.take(i + 1).drop_last() =~= es.take(i));
    } else {
        assert(es.take(i) =~= es);
    }
}

/// A relative path in normal form: `\` or `/` separators, empty pieces dropped,
/// joined with `/`.
pub fn normalize_relative(path: &str) -> (r: String)
    ensures
        r@ == normal_relative(path@),
{
    let segs = split_segments(path);
    proof {
        assert(views(segs@) =~= segments(path@));
    }
    join(segs.as_slice(), '/')
}

/// `full` relative to `base`, in normal form, when the pieces of `base` begin the
/// pieces of `full`.
pub open spec fn relative_spec(base: Seq<char>, full: Seq<char>) -> Option<Seq<char>> {
    let b = segments(base);
    let f = segments(full);
    if b.len() <= f.len() && f.take(b.len() as int) == b {
        Some(join_seq(f.skip(b.len() as int), '/'))
    } else {
        None
    }
}

/// The path of `full` relative to `base` in normal form; `None` when `full` is not
/// under `base` (no odd path is made up silently). Paths are compared piece by piece,
/// `/` and `\` both separating.
pub fn relative_of(base: &str, full: &str) -> (r: Option<String>)
    ensures
        match r {
            Some(s) => relative_spec(base@, full@) == Some(s@),
            None => relative_spec(base@, full@) is None,
        },
{
    let b = split_segments(base);
    let f = split_segments(full);
    proof {
        assert(views(b@) =~= segments(base@));
        assert(views(f@) =~= segments(full@));
    }
    if b.len() > f.len() {
        return None;
    }
    let mut i: usize = 0;
    while i < b.len()
        invariant
            i <= b@.len() <= f@.len(),
            views(b@) == segments(base@),
            views(f@) == segments(full@),
            forall|k: int| 0 <= k < i ==> b@[k]@ == f@[k]@,
        decreases b@.len() - i,
    {
        if !str_eq(b[i].as_str(), f[i].as_str()) {
            proof {
                assert(views(f@).take(b@.len() as int)[i as int] != views(b@)[i as int]);
            }
            return None;
        }
        i = i + 1;
    }
    proof {
        assert(views(f@).take(b@.len() as int) =~= views(b@));
    }
    let mut rest: Vec<String> = Vec::new();
    let mut j: usize = b.len();
    while j < f.len()
        invariant
            b@.len() <= j <= f@.len(),
            views(rest@) == views(f@).subrange(b@.len() as int, j as int),
        decreases f@.len() - j,
    {
        let ghost o = rest@;
        rest.push(f[j].clone());
        j = j + 1;
        proof {
            assert(views(rest@) =~= views(o).push(f@[j - 1]@));
            assert(views(rest@) =~= views(f@).subrange(b@.len() as int, j as int));
        }
    }
    proof {
        assert(views(f@).skip(b@.len() as int) =~= views(f@).subrange(b@.len() as int, f@.len() as int));
    }
    Some(join(rest.as_slice(), '/'))
}

} // verus!
