//! A finished task, as the ledger records it: the ledger records facts only, and the
//! status is read off the report. Any failure means the task is not "all done".

use vstd::prelude::*;
use crate::engine::hasher::HashAlgorithm;
use crate::ledger::db::{FileRecord, TaskRecord, TaskStatus};
use crate::task::{count_copied, count_failed, count_skipped, FileOutcome, FileStatus, TaskReport};
use crate::text::owned;

verus! {

/// The status of a task: a cancelled task is cancelled whatever else happened; with no
/// failure it succeeded; with failures it failed when nothing was copied, and is
/// partial otherwise.
pub open spec fn status_spec(cancelled: bool, failed: nat, copied: nat) -> TaskStatus {
    if cancelled {
        TaskStatus::Cancelled
    } else if failed == 0 {
        TaskStatus::Succeeded
    } else if copied == 0 {
        TaskStatus::Failed
    } else {
        TaskStatus::Partial
    }
}

/// The final status of a task, read off its report.
pub fn status_of(report: &TaskReport) -> (r: TaskStatus)
    ensures
        r == status_spec(report.cancelled, count_failed(report.files@), count_copied(report.files@)),
        count_failed(report.files@) > 0 ==> r != TaskStatus::Succeeded,
{
    if report.cancelled {
        return TaskStatus::Cancelled;
    }
    let failed = report.failed_files().len();
    if failed == 0 {
        TaskStatus::Succeeded
    } else if report.copied_count() == 0 {
        TaskStatus::Failed
    } else {
        TaskStatus::Partial
    }
}

/// The status word a file is recorded with.
pub open spec fn file_status_text(s: FileStatus) -> Seq<char> {
    match s {
        FileStatus::Copied => "copied"@,
        FileStatus::Skipped => "skipped"@,
        FileStatus::Failed(_) => "failed"@,
    }
}

/// Whether some destination of a file was read back and found equal.
pub open spec fn any_verified(f: FileOutcome) -> bool {
    exists|k: int| 0 <= k < f.destinations@.len() && (#[trigger] f.destinations@[k]).verified
}

/// What the ledger keeps of one file. The hash itself stays in the manifest; the
/// ledger only marks a file read back equal somewhere.
pub open spec fn file_record_matches(f: FileOutcome, r: FileRecord) -> bool {
    &&& r.relative_path@ == f.relative_path@
    &&& r.size == f.size
    &&& r.hash@ == if any_verified(f) { "verified"@ } else { Seq::<char>::empty() }
    &&& r.status@ == file_status_text(f.status)
    &&& match f.status {
        FileStatus::Failed(why) => r.reason matches Some(x) && x@ == why@,
        _ => r.reason is None,
    }
    &&& r.retries == f.retries
}

/// The ledger's record of one file.
pub fn file_record(f: &FileOutcome) -> (r: FileRecord)
    ensures
        file_record_matches(*f, r),
{
    let mut verified = false;
    let mut i: usize = 0;
    while i < f.destinations.len()
        invariant
            i <= f.destinations@.len(),
            verified <==> exists|k: int| 0 <= k < i && (#[trigger] f.destinations@[k]).verified,
        decreases f.destinations@.len() - i,
    {
        if f.destinations[i].verified {
            verified = true;
        }
        i = i + 1;
    }
    let (status, reason) = match &f.status {
        FileStatus::Copied => (owned("copied"), None),
        FileStatus::Skipped => (owned("skipped"), None),
        FileStatus::Failed(why) => (owned("failed"), Some(owned(why.as_str()))),
    };
    FileRecord {
        relative_path: owned(f.relative_path.as_str()),
        size: f.size,
        hash: if verified { owned("verified") } else { String::new() },
        status,
        reason,
        retries: f.retries,
    }
}

/// The ledger's records of every file of a report, in order.
pub fn file_records(report: &TaskReport) -> (r: Vec<FileRecord>)
    ensures
        r@.len() == report.files@.len(),
        forall|k: int| 0 <= k < r@.len() ==> file_record_matches(report.files@[k], #[trigger] r@[k]),
{
    let mut out: Vec<FileRecord> = Vec::new();
    let mut i: usize = 0;
    while i < report.files.len()
        invariant
            i <= report.files@.len(),
            out@.len() == i,
            forall|k: int| 0 <= k < i ==> file_record_matches(report.files@[k], #[trigger] out@[k]),
        decreases report.files@.len() - i,
    {
        let rec = file_record(&report.files[i]);
        out.push(rec);
        i = i + 1;
    }
    out
}

/// The ledger's record of a task: who, what and where from the task's settings, the
/// counts and status from its report, the times as given.
pub fn run_record(
    id: &str,
    source_id: &str,
    source_name: &str,
    project: &str,
    algorithm: HashAlgorithm,
    verify: bool,
    report: &TaskReport,
    started_at: &str,
    finished_at: &str,
    elapsed_secs: u64,
) -> (r: TaskRecord)
    ensures
        r.id@ == id@,
        r.started_at@ == started_at@,
        r.finished_at@ == finished_at@,
        r.source_id@ == source_id@,
        r.source_name@ == source_name@,
        r.project@ == project@,
        r.algorithm@ == (match algorithm { HashAlgorithm::Xxh64 => "xxh64"@, HashAlgorithm::Md5 => "md5"@ }),
        r.verified == verify,
        r.total_files == report.files@.len(),
        r.total_bytes == report.bytes_copied,
        r.copied == count_copied(report.files@),
        r.skipped == count_skipped(report.files@),
        r.failed == count_failed(report.files@),
        r.status == status_spec(report.cancelled, count_failed(report.files@), count_copied(report.files@)),
        r.elapsed_secs == elapsed_secs,
        crate::text::views(r.manifests@) == crate::text::views(report.manifests@),
{
    let mut manifests: Vec<String> = Vec::new();
    let mut i: usize = 0;
    while i < report.manifests.len()
        invariant
            i <= report.manifests@.len(),
            crate::text::views(manifests@) == crate::text::views(report.manifests@.take(i as int)),
        decreases report.manifests@.len() - i,
    {
        let ghost before = manifests@;
        manifests.push(owned(report.manifests[i].as_str()));
        proof {
            assert(crate::text::views(manifests@) =~= crate::text::views(before).push(report.manifests@[i as int]@));
            assert(report.manifests@.take(i + 1) =~= report.manifests@.take(i as int).push(report.manifests@[i as int]));
            assert(crate::text::views(report.manifests@.take(i + 1)) =~= crate::text::views(report.manifests@.take(i as int)).push(report.manifests@[i as int]@));
        }
        i = i + 1;
    }
    proof {
        assert(report.manifests@.take(report.manifests@.len() as int) =~= report.manifests@);
    }
    let failed = report.failed_files().len();
    TaskRecord {
        id: owned(id),
        started_at: owned(started_at),
        finished_at: owned(finished_at),
        source_id: owned(source_id),
        source_name: owned(source_name),
        project: owned(project),
        algorithm: owned(algorithm.id()),
        verified: verify,
        total_files: report.files.len() as u64,
        total_bytes: report.bytes_copied,
        copied: report.copied_count() as u64,
        skipped: report.skipped_count() as u64,
        failed: failed as u64,
        status: status_of(report),
        elapsed_secs,
        manifests,
    }
}

/// A file counts as verified as soon as any one of its destinations, whatever its
/// position, was read back and found equal; and only then.
pub proof fn lemma_verified_anywhere(f: FileOutcome, k: int)
    requires
        0 <= k < f.destinations@.len(),
    ensures
        f.destinations@[k].verified ==> any_verified(f),
        any_verified(f) ==> exists|j: int| 0 <= j < f.destinations@.len() && (#[trigger] f.destinations@[j]).verified,
{
}

} // verus!
