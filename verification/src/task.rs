//! What a copy task reports when it ends: the fate of each file, the manifests it
//! wrote and whether it was cancelled.

use vstd::prelude::*;

verus! {

/// What became of one source file.
#[derive(Debug, Clone, PartialEq, Eq)]
pub enum FileStatus {
    /// Copied (and verified, when the task verifies).
    Copied,
    /// Already copied and verified by an earlier run.
    Skipped,
    /// Failed for good, with the reason in words.
    Failed(String),
}

/// One destination of one file.
#[derive(Debug, Clone, PartialEq, Eq)]
pub struct DestinationResult {
    pub path: String,
    /// Read back and found equal to the source.
    pub verified: bool,
}

/// One file of a task.
#[derive(Debug, Clone, PartialEq, Eq)]
pub struct FileOutcome {
    pub relative_path: String,
    pub size: u64,
    pub status: FileStatus,
    pub retries: u32,
    pub destinations: Vec<DestinationResult>,
}

/// The end of a task.
#[derive(Debug, Clone, PartialEq, Eq)]
pub struct TaskReport {
    pub files: Vec<FileOutcome>,
    /// The manifests the task wrote.
    pub manifests: Vec<String>,
    pub cancelled: bool,
    /// Things the user should know (a degraded ledger and the like).
    pub notices: Vec<String>,
    pub bytes_copied: u64,
}

/// How many files were copied.
pub open spec fn count_copied(fs: Seq<FileOutcome>) -> nat
    decreases fs.len(),
{
    if fs.len() == 0 { 0 } else { count_copied(fs.drop_last()) + if fs.last().status is Copied { 1nat } else { 0nat } }
}

/// How many files were skipped.
pub open spec fn count_skipped(fs: Seq<FileOutcome>) -> nat
    decreases fs.len(),
{
    if fs.len() == 0 { 0 } else { count_skipped(fs.drop_last()) + if fs.last().status is Skipped { 1nat } else { 0nat } }
}

/// How many files failed.
pub open spec fn count_failed(fs: Seq<FileOutcome>) -> nat
    decreases fs.len(),
{
    if fs.len() == 0 { 0 } else { count_failed(fs.drop_last()) + if fs.last().status is Failed { 1nat } else { 0nat } }
}

/// Whether a file failed.
pub open spec fn is_failed(f: FileOutcome) -> bool {
    f.status is Failed
}

proof fn lemma_counts_fit(fs: Seq<FileOutcome>)
    ensures
        count_copied(fs) <= fs.len(),
        count_skipped(fs) <= fs.len(),
        count_failed(fs) <= fs.len(),
        count_failed(fs) == fs.filter(|f: FileOutcome| is_failed(f)).len(),
    decreases fs.len(),
{
    reveal(Seq::filter);
    if fs.len() > 0 {
        lemma_counts_fit(fs.drop_last());
    }
}

impl TaskReport {
    /// How many files were copied.
    pub fn copied_count(&self) -> (r: usize)
        ensures
            r == count_copied(self.files@),
    {
        let mut n: usize = 0;
        let mut i: usize = 0;
        while i < self.files.len()
            invariant
                i <= self.files@.len(),
                n == count_copied(self.files@.take(i as int)),
            decreases self.files@.len() - i,
        {
            proof {
                assert(self.files@.take(i + 1).drop_last() =~= self.files@.take(i as int));
                lemma_counts_fit(self.files@.take(i as int));
            }
            if matches!(self.files[i].status, FileStatus::Copied) {
                n = n + 1;
            }
            i = i + 1;
        }
        proof {
            assert(self.files@.take(self.files@.len() as int) =~= self.files@);
        }
        n
    }

    /// How many files were skipped.
    pub fn skipped_count(&self) -> (r: usize)
        ensures
            r == count_skipped(self.files@),
    {
        let mut n: usize = 0;
        let mut i: usize = 0;
        while i < self.files.len()
            invariant
                i <= self.files@.len(),
                n == count_skipped(self.files@.take(i as int)),
            decreases self.files@.len() - i,
        {
            proof {
                assert(self.files@.take(i + 1).drop_last() =~= self.files@.take(i as int));
                lemma_counts_fit(self.files@.take(i as int));
            }
            if matches!(self.files[i].status, FileStatus::Skipped) {
                n = n + 1;
            }
            i = i + 1;
        }
        proof {
            assert(self.files@.take(self.files@.len() as int) =~= self.files@);
        }
        n
    }

    /// The files that failed, in order.
    pub fn failed_files(&self) -> (r: Vec<&FileOutcome>)
        ensures
            r@.len() == count_failed(self.files@),
            r@.len() == self.files@.filter(|f: FileOutcome| is_failed(f)).len(),
            forall|k: int| 0 <= k < r@.len() ==> *(#[trigger] r@[k]) == self.files@.filter(|f: FileOutcome| is_failed(f))[k],
    {
        let ghost fs = self.files@;
        let mut out: Vec<&FileOutcome> = Vec::new();
        let mut i: usize = 0;
        while i < self.files.len()
            invariant
                fs == self.files@,
                i <= fs.len(),
                out@.len() == fs.take(i as int).filter(|f: FileOutcome| is_failed(f)).len(),
                forall|k: int| 0 <= k < out@.len() ==> *(#[trigger] out@[k]) == fs.take(i as int).filter(|f: FileOutcome| is_failed(f))[k],
            decreases fs.len() - i,
        {
            proof {
                assert(fs.take(i + 1).drop_last() =~= fs.take(i as int));
                reveal(Seq::filter);
                assert(fs.take(i + 1).last() == fs[i as int]);
            }
            if matches!(self.files[i].status, FileStatus::Failed(_)) {
                out.push(&self.files[i]);
            }
            i = i + 1;
        }
        proof {
            assert(fs.take(fs.len() as int) =~= fs);
            lemma_counts_fit(fs);
        }
        out
    }
}

} // verus!
