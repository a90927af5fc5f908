//! The task ledger's records: one row per run and one per file, kept for good, and
//! the queries over them. The SQLite file itself is the application's part; the
//! records, the statuses, the schema decision and the history query are here.

use vstd::prelude::*;
use crate::text::{dec, push_dec, push_str, str_eq};
use crate::manifest::store::{time_text, Moment};

verus! {

/// The ledger's schema version. An upgrade keeps every record.
pub const SCHEMA_VERSION: i64 = 1;

/// The ledger's file name in the user data folder.
pub const DB_NAME: &'static str = "ledger.db";

/// What can go wrong with the ledger.
#[derive(Debug, Clone, PartialEq, Eq)]
pub enum LedgerError {
    /// The database cannot be opened or is damaged; it is never silently rebuilt.
    Open { path: String, reason: String },
    Query(String),
    /// A newer program made the schema.
    FutureSchema { found: i64, supported: i64 },
}

/// A signed number in decimal.
pub open spec fn idec(n: int) -> Seq<char> {
    if n < 0 { seq!['-'] + dec((-n) as nat) } else { dec(n as nat) }
}

fn push_idec(s: &mut String, n: i64)
    ensures
        final(s)@ == old(s)@ + idec(n as int),
{
    if n < 0 {
        let ghost before = s@;
        push_str(s, "-");
        proof {
            reveal_strlit("-");
        }
        let m: i128 = 0 - (n as i128);
        push_dec(s, m as u64);
        proof {
            assert(s@ =~= before + idec(n as int));
        }
    } else {
        push_dec(s, n as u64);
    }
}

/// The words for a ledger error.
pub open spec fn ledger_error_text(e: LedgerError) -> Seq<char> {
    match e {
        LedgerError::Open { path, reason } => "任务台账打不开（"@ + path@ + "）："@ + reason@
            + "。请确认文件未被占用；若确已损坏，把它改名备份后本程序会新建一份，但**旧的历史不会自动恢复**，请先留好备份"@,
        LedgerError::Query(e) => "台账查询失败："@ + e@,
        LedgerError::FutureSchema { found, supported } => "任务台账由更新版本的程序建立（结构版本 "@ + idec(found as int)
            + "，本程序支持到 "@ + idec(supported as int) + "），请升级后再打开"@,
    }
}

impl LedgerError {
    /// The error in words, for the user.
    pub fn describe(&self) -> (r: String)
        ensures
            r@ == ledger_error_text(*self),
    {
        let mut s = String::new();
        match self {
            LedgerError::Open { path, reason } => {
                push_str(&mut s, "任务台账打不开（");
                push_str(&mut s, path.as_str());
                push_str(&mut s, "）：");
                push_str(&mut s, reason.as_str());
                push_str(&mut s, "。请确认文件未被占用；若确已损坏，把它改名备份后本程序会新建一份，但**旧的历史不会自动恢复**，请先留好备份");
            },
            LedgerError::Query(e) => {
                push_str(&mut s, "台账查询失败：");
                push_str(&mut s, e.as_str());
            },
            LedgerError::FutureSchema { found, supported } => {
                push_str(&mut s, "任务台账由更新版本的程序建立（结构版本 ");
                push_idec(&mut s, *found);
                push_str(&mut s, "，本程序支持到 ");
                push_idec(&mut s, *supported);
                push_str(&mut s, "），请升级后再打开");
            },
        }
        proof {
            assert(s@ =~= ledger_error_text(*self));
        }
        s
    }
}

/// What opening a ledger of schema version `found` calls for: refusal when a newer
/// program made it; otherwise whether the tables are still to be created (version 0).
pub fn schema_step(found: i64, path: &str) -> (r: Result<bool, LedgerError>)
    ensures
        found > SCHEMA_VERSION ==> r == Err::<bool, LedgerError>(LedgerError::FutureSchema { found, supported: SCHEMA_VERSION }),
        found <= SCHEMA_VERSION ==> r == Ok::<bool, LedgerError>(found < 1),
{
    if found > SCHEMA_VERSION {
        Err(LedgerError::FutureSchema { found, supported: SCHEMA_VERSION })
    } else {
        Ok(found < 1)
    }
}

/// How a run ended.
#[derive(Debug, Clone, Copy, PartialEq, Eq, Structural)]
pub enum TaskStatus {
    /// Everything succeeded.
    Succeeded,
    /// Some files failed; never shown as done.
    Partial,
    Cancelled,
    /// Nothing succeeded.
    Failed,
}

/// The stored form of a status.
pub open spec fn status_text(s: TaskStatus) -> Seq<char> {
    match s {
        TaskStatus::Succeeded => "ok"@,
        TaskStatus::Partial => "partial"@,
        TaskStatus::Cancelled => "cancelled"@,
        TaskStatus::Failed => "failed"@,
    }
}

/// The status a stored text stands for; anything unknown reads as partial, the
/// cautious reading.
pub open spec fn status_of_text(t: Seq<char>) -> TaskStatus {
    if t == "ok"@ {
        TaskStatus::Succeeded
    } else if t == "cancelled"@ {
        TaskStatus::Cancelled
    } else if t == "failed"@ {
        TaskStatus::Failed
    } else {
        TaskStatus::Partial
    }
}

impl TaskStatus {
    /// The status for people.
    pub fn label(self) -> (r: &'static str)
        ensures
            r@ == (match self {
                TaskStatus::Succeeded => "全部通过"@,
                TaskStatus::Partial => "部分失败"@,
                TaskStatus::Cancelled => "已取消"@,
                TaskStatus::Failed => "失败"@,
            }),
    {
        match self {
            TaskStatus::Succeeded => "全部通过",
            TaskStatus::Partial => "部分失败",
            TaskStatus::Cancelled => "已取消",
            TaskStatus::Failed => "失败",
        }
    }

    /// The stored form.
    pub fn as_str(self) -> (r: &'static str)
        ensures
            r@ == status_text(self),
    {
        match self {
            TaskStatus::Succeeded => "ok",
            TaskStatus::Partial => "partial",
            TaskStatus::Cancelled => "cancelled",
            TaskStatus::Failed => "failed",
        }
    }

    /// The status a stored text stands for.
    pub fn parse(s: &str) -> (r: TaskStatus)
        ensures
            r == status_of_text(s@),
    {
        if str_eq(s, "ok") {
            TaskStatus::Succeeded
        } else if str_eq(s, "cancelled") {
            TaskStatus::Cancelled
        } else if str_eq(s, "failed") {
            TaskStatus::Failed
        } else {
            TaskStatus::Partial
        }
    }
}

/// Every status reads back as itself from its stored form.
pub proof fn lemma_status_roundtrip(s: TaskStatus)
    ensures
        status_of_text(status_text(s)) == s,
{
    reveal_strlit("ok");
    reveal_strlit("partial");
    reveal_strlit("cancelled");
    reveal_strlit("failed");
    assert("ok"@.len() == 2 && "partial"@.len() == 7 && "cancelled"@.len() == 9 && "failed"@.len() == 6);
    assert("partial"@ != "ok"@ && "partial"@ != "cancelled"@ && "partial"@ != "failed"@);
    assert("cancelled"@ != "ok"@ && "failed"@ != "ok"@ && "failed"@ != "cancelled"@);
}

/// One run.
#[derive(Debug, Clone, PartialEq, Eq)]
pub struct TaskRecord {
    pub id: String,
    pub started_at: String,
    pub finished_at: String,
    pub source_id: String,
    pub source_name: String,
    pub project: String,
    pub algorithm: String,
    pub verified: bool,
    pub total_files: u64,
    pub total_bytes: u64,
    pub copied: u64,
    pub skipped: u64,
    pub failed: u64,
    pub status: TaskStatus,
    pub elapsed_secs: u64,
    /// The manifests this run wrote.
    pub manifests: Vec<String>,
}

/// One file of a run.
#[derive(Debug, Clone, PartialEq, Eq)]
pub struct FileRecord {
    pub relative_path: String,
    pub size: u64,
    pub hash: String,
    /// `copied`, `skipped` or `failed`.
    pub status: String,
    pub reason: Option<String>,
    pub retries: u32,
}

/// One attempt to format a card, kept for good.
#[derive(Debug, Clone, PartialEq, Eq)]
pub struct FormatAttempt {
    pub id: String,
    pub at: String,
    pub device_id: String,
    pub device_name: String,
    pub trigger: String,
    pub checks: String,
    pub backup_task_id: Option<String>,
    pub result: String,
    pub reason: Option<String>,
}

/// Which runs to list.
#[derive(Debug, Clone, Default)]
pub struct HistoryQuery {
    pub source_id: Option<String>,
    pub project: Option<String>,
    /// Only runs with failures.
    pub only_failed: bool,
    pub since: Option<Moment>,
    pub limit: Option<u32>,
}

/// The start of the history query.
pub const HISTORY_SELECT: &'static str = "SELECT id, started_at, finished_at, source_id, source_name, project, algorithm,
                    verified, total_files, total_bytes, copied, skipped, failed, status,
                    elapsed_secs, manifests FROM tasks WHERE 1=1";

/// The history query for `q`, with `since` written as text, newest first.
pub open spec fn history_sql_text(q: HistoryQuery, since: Option<Seq<char>>) -> Seq<char> {
    HISTORY_SELECT@ + (if q.source_id is Some { " AND source_id = ?"@ } else { Seq::empty() })
        + (if q.project is Some { " AND project = ?"@ } else { Seq::empty() })
        + (if q.only_failed { " AND status IN ('partial','failed')"@ } else { Seq::empty() })
        + (if since is Some { " AND finished_at >= ?"@ } else { Seq::empty() })
        + " ORDER BY finished_at DESC"@
        + (match q.limit {
            Some(n) => " LIMIT "@ + dec(n as nat),
            None => Seq::empty(),
        })
}

/// The values bound to the query's placeholders, in order.
pub open spec fn history_args(q: HistoryQuery, since: Option<Seq<char>>) -> Seq<Seq<char>> {
    (match q.source_id {
        Some(s) => seq![s@],
        None => Seq::empty(),
    }) + (match q.project {
        Some(p) => seq![p@],
        None => Seq::empty(),
    }) + (match since {
        Some(t) => seq![t],
        None => Seq::empty(),
    })
}

/// A query and the values for its placeholders.
#[derive(Debug, Clone, PartialEq, Eq)]
pub struct HistorySql {
    pub sql: String,
    pub args: Vec<String>,
}

/// The history query for `q`, the `since` bound already written as text.
pub fn history_sql_with(q: &HistoryQuery, since: Option<&str>) -> (r: HistorySql)
    requires
        since is Some <==> q.since is Some,
    ensures
        r.sql@ == history_sql_text(*q, match since { Some(t) => Some(t@), None => None }),
        r.args@.len() == history_args(*q, match since { Some(t) => Some(t@), None => None }).len(),
        forall|i: int| 0 <= i < r.args@.len() ==> (#[trigger] r.args@[i])@ == history_args(*q, match since { Some(t) => Some(t@), None => None })[i],
{
    let ghost st: Option<Seq<char>> = match since { Some(t) => Some(t@), None => None };
    let mut sql = String::new();
    let mut args: Vec<String> = Vec::new();
    push_str(&mut sql, HISTORY_SELECT);
    let ghost a0 = sql@;
    match &q.source_id {
        Some(s) => {
            push_str(&mut sql, " AND source_id = ?");
            args.push(s.clone());
        },
        None => {},
    }
    let ghost a1 = sql@;
    match &q.project {
        Some(p) => {
            push_str(&mut sql, " AND project = ?");
            args.push(p.clone());
        },
        None => {},
    }
    let ghost a2 = sql@;
    if q.only_failed {
        push_str(&mut sql, " AND status IN ('partial','failed')");
    }
    let ghost a3 = sql@;
    match since {
        Some(t) => {
            push_str(&mut sql, " AND finished_at >= ?");
            args.push(crate::text::owned(t));
        },
        None => {},
    }
    let ghost a4 = sql@;
    push_str(&mut sql, " ORDER BY finished_at DESC");
    match q.limit {
        Some(n) => {
            push_str(&mut sql, " LIMIT ");
            push_dec(&mut sql, n as u64);
        },
        None => {},
    }
    proof {
        assert(sql@ =~= history_sql_text(*q, st));
        let h = history_args(*q, st);
        assert forall|i: int| 0 <= i < args@.len() implies (#[trigger] args@[i])@ == h[i] by {}
    }
    HistorySql { sql, args }
}

/// The `since` bound of a history query as text: RFC 3339, `-` where the `time` crate
/// cannot write it.
pub open spec fn since_text(q: HistoryQuery) -> Option<Seq<char>> {
    match q.since {
        Some(t) => Some(time_text(t)),
        None => None,
    }
}

/// The history query for `q`, its `since` bound written in RFC 3339.
pub fn history_sql(q: &HistoryQuery) -> (r: HistorySql)
    ensures
        r.sql@ == history_sql_text(*q, since_text(*q)),
        r.args@.len() == history_args(*q, since_text(*q)).len(),
        forall|i: int| 0 <= i < r.args@.len() ==> (#[trigger] r.args@[i])@ == history_args(*q, since_text(*q))[i],
{
    match &q.since {
        Some(t) => {
            let text = crate::manifest::store::format_time(t);
            history_sql_with(q, Some(text.as_str()))
        },
        None => history_sql_with(q, None),
    }
}

} // verus!
