use steadcopy::exit::{copy_exit, ExitKind};
use steadcopy::engine::hasher::HashAlgorithm;
use steadcopy::ledger::record::{file_records, run_record, status_of};
use steadcopy::task::{DestinationResult, FileOutcome, FileStatus, TaskReport};
use steadcopy::ledger::db::{history_sql, history_sql_with, schema_step, HistoryQuery, LedgerError, TaskStatus, SCHEMA_VERSION};
use steadcopy::manifest::store::Moment;

fn to_moment(t: time::OffsetDateTime) -> Moment {
    Moment::from_parts(t.unix_timestamp(), t.nanosecond(), t.offset().whole_seconds()).expect("moment")
}

#[test]
fn task_status_round_trips_through_its_stored_form() {
    for s in [TaskStatus::Succeeded, TaskStatus::Partial, TaskStatus::Cancelled, TaskStatus::Failed] {
        assert_eq!(TaskStatus::parse(s.as_str()), s);
    }
    assert_eq!(TaskStatus::parse("???"), TaskStatus::Partial);
    assert_eq!(TaskStatus::Succeeded.label(), "全部通过");
    assert_eq!(TaskStatus::Partial.label(), "部分失败");
}

#[test]
fn future_schema_is_refused_and_new_ledger_is_created() {
    assert_eq!(schema_step(0, "x.db"), Ok(true));
    assert_eq!(schema_step(SCHEMA_VERSION, "x.db"), Ok(false));
    let e = schema_step(SCHEMA_VERSION + 1, "x.db").unwrap_err();
    assert_eq!(e, LedgerError::FutureSchema { found: 2, supported: 1 });
    assert!(e.describe().contains("请升级后再打开"));
    assert!(LedgerError::Open { path: "l.db".into(), reason: "锁住了".into() }.describe().contains("l.db"));
}

#[test]
fn history_query_filters_in_order() {
    let q = HistoryQuery {
        source_id: Some("vol:1".into()),
        project: None,
        only_failed: true,
        since: None,
        limit: Some(20),
    };
    let s = history_sql(&q);
    assert!(s.sql.ends_with(" AND source_id = ? AND status IN ('partial','failed') ORDER BY finished_at DESC LIMIT 20"));
    assert_eq!(s.args, vec!["vol:1".to_string()]);
    let q2 = HistoryQuery { project: Some("婚礼".into()), since: Some(to_moment(time::OffsetDateTime::UNIX_EPOCH)), ..q };
    let s2 = history_sql_with(&q2, Some("1970-01-01T00:00:00Z"));
    assert_eq!(s2.args, vec!["vol:1".to_string(), "婚礼".to_string(), "1970-01-01T00:00:00Z".to_string()]);
    assert!(s2.sql.contains(" AND project = ? AND status IN ('partial','failed') AND finished_at >= ?"));
    assert_eq!(history_sql(&q2).args[2], "1970-01-01T00:00:00Z");
}

fn outcome(path: &str, status: FileStatus) -> FileOutcome {
    FileOutcome { relative_path: path.into(), size: 100, status, retries: 0, destinations: Vec::new() }
}

fn run_report(files: Vec<FileOutcome>, cancelled: bool) -> TaskReport {
    TaskReport {
        files,
        manifests: vec![r"D:\素材\steadcopy\m.json".to_string()],
        cancelled,
        notices: Vec::new(),
        bytes_copied: 200,
    }
}

#[test]
fn scenario_task_ledger_status_derivation() {
    assert_eq!(status_of(&run_report(vec![outcome("a", FileStatus::Copied)], false)), TaskStatus::Succeeded);
    assert_eq!(
        status_of(&run_report(
            vec![outcome("a", FileStatus::Copied), outcome("b", FileStatus::Failed("坏了".into()))],
            false
        )),
        TaskStatus::Partial,
        "有失败就不是「全部通过」"
    );
    assert_eq!(
        status_of(&run_report(vec![outcome("a", FileStatus::Failed("坏了".into()))], false)),
        TaskStatus::Failed
    );
    assert_eq!(
        status_of(&run_report(vec![outcome("a", FileStatus::Copied)], true)),
        TaskStatus::Cancelled,
        "取消优先于其他判定"
    );
}

#[test]
fn run_record_counts_and_file_rows() {
    let mut verified = outcome("A001.MP4", FileStatus::Copied);
    verified.destinations.push(DestinationResult { path: r"D:\素材\A001.MP4".into(), verified: true });
    let r = run_report(
        vec![
            verified,
            outcome("A002.MP4", FileStatus::Skipped),
            outcome("A003.MP4", FileStatus::Failed("校验不一致".into())),
        ],
        false,
    );
    let t = run_record(
        "task-1", "vol:1", "A7M4主卡", "婚礼", HashAlgorithm::Xxh64, true, &r,
        "2026-08-10T09:00:00Z", "2026-08-10T09:02:05Z", 125,
    );
    assert_eq!(t.status, TaskStatus::Partial);
    assert_eq!((t.copied, t.skipped, t.failed, t.total_files), (1, 1, 1, 3));
    assert_eq!(t.elapsed_secs, 125);
    assert_eq!(t.algorithm, "xxh64");
    assert_eq!(t.source_name, "A7M4主卡");
    assert_eq!(t.manifests, vec![r"D:\素材\steadcopy\m.json".to_string()]);
    assert_eq!(r.failed_files().len(), 1);
    assert_eq!(r.failed_files()[0].relative_path, "A003.MP4");

    let rows = file_records(&r);
    assert_eq!(rows.len(), 3);
    assert_eq!(rows[0].hash, "verified");
    assert_eq!(rows[1].hash, "");
    assert_eq!(rows[1].status, "skipped");
    assert_eq!(rows[2].status, "failed");
    assert_eq!(rows[2].reason.as_deref(), Some("校验不一致"));
}

#[test]
fn a_copy_run_exits_by_its_outcome() {
    let ok = TaskReport { files: vec![], manifests: vec![], cancelled: false, notices: vec![], bytes_copied: 0 };
    assert_eq!(copy_exit(&ok), ExitKind::Success);
    let failed = TaskReport {
        files: vec![FileOutcome { relative_path: "a".into(), size: 1, status: FileStatus::Failed("x".into()), retries: 0, destinations: vec![] }],
        ..ok.clone()
    };
    assert_eq!(copy_exit(&failed), ExitKind::Retryable);
    let stopped = TaskReport { cancelled: true, ..failed.clone() };
    assert_eq!(copy_exit(&stopped), ExitKind::Cancelled);
}
