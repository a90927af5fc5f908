//! The command line's exit codes, a contract with the scripts that call it.

use vstd::prelude::*;
use crate::manifest::audit::AuditReport;
use crate::task::{count_failed, TaskReport};

verus! {

/// How a command ended.
#[derive(Debug, Clone, Copy, PartialEq, Eq, Structural)]
pub enum ExitKind {
    /// Done.
    Success,
    /// A final outcome: running again gives the same (no media, no space, bad
    /// configuration, data missing at an audit).
    Terminal,
    /// Worth retrying: a copy or verification failed, a device went away.
    Retryable,
    Cancelled,
    /// The command was used wrongly.
    Usage,
}

impl ExitKind {
    /// The process exit code: 0 to 4 in the order above.
    pub fn code(self) -> (r: u8)
        ensures
            r == (match self {
                ExitKind::Success => 0u8,
                ExitKind::Terminal => 1u8,
                ExitKind::Retryable => 2u8,
                ExitKind::Cancelled => 3u8,
                ExitKind::Usage => 4u8,
            }),
    {
        match self {
            ExitKind::Success => 0,
            ExitKind::Terminal => 1,
            ExitKind::Retryable => 2,
            ExitKind::Cancelled => 3,
            ExitKind::Usage => 4,
        }
    }
}

/// The exit of an audit: success when no file is missing (an added file is no
/// failure); otherwise terminal, since auditing the same data again gives the same
/// answer.
pub fn audit_exit(r: &AuditReport) -> (e: ExitKind)
    ensures
        e == (if r.missing@.len() == 0 { ExitKind::Success } else { ExitKind::Terminal }),
{
    if r.is_data_intact() {
        ExitKind::Success
    } else {
        ExitKind::Terminal
    }
}

/// The exit of a copy run: cancelled when it was stopped; worth retrying when any file
/// failed, since a partial failure must never end as success; otherwise success.
pub fn copy_exit(report: &TaskReport) -> (e: ExitKind)
    ensures
        e == (if report.cancelled {
            ExitKind::Cancelled
        } else if count_failed(report.files@) > 0 {
            ExitKind::Retryable
        } else {
            ExitKind::Success
        }),
{
    if report.cancelled {
        ExitKind::Cancelled
    } else if report.failed_files().len() > 0 {
        ExitKind::Retryable
    } else {
        ExitKind::Success
    }
}

} // verus!
