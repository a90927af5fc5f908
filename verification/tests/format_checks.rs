use steadcopy::device::format::{check_safety, counts_as_backup, merge_backup_evidence, removability, BackupEvidence, RemovabilityError};
use steadcopy::ledger::db::{TaskRecord, TaskStatus};
use steadcopy::device::volume::{BusType, Volume, VolumeState};
use steadcopy::engine::hasher::{hash_bytes, HashAlgorithm};
use steadcopy::i18n::Locale;
use steadcopy::manifest::model::{Manifest, ManifestEntry, SourceRef, VerifyState};
use steadcopy::manifest::store::Moment;

fn to_moment(t: time::OffsetDateTime) -> Moment {
    Moment::from_parts(t.unix_timestamp(), t.nanosecond(), t.offset().whole_seconds()).expect("moment")
}

fn vol(bus: BusType, system: bool) -> Volume {
    Volume {
        guid_path: r"\\?\Volume{1111}\".into(),
        drive_letter: Some("E:".into()),
        label: "A7M4".into(),
        serial: Some(1),
        file_system: "exFAT".into(),
        total_bytes: 128,
        free_bytes: 30,
        bus_type: bus,
        is_system: system,
        state: VolumeState::Online,
        fingerprints: vec![],
    }
}

fn evidence(files: &[&str], verified: bool) -> BackupEvidence {
    let at = to_moment(time::Date::from_calendar_date(2026, time::Month::August, 10)
        .unwrap()
        .with_hms(9, 0, 0)
        .unwrap()
        .assume_utc());
    let mut m = Manifest::new(
        SourceRef { id: "vol:1".into(), display_name: "A7M4".into() },
        "婚礼",
        r"D:\素材",
        HashAlgorithm::Xxh64,
        at,
    );
    for f in files {
        let h = hash_bytes(HashAlgorithm::Xxh64, f.as_bytes());
        m.entries.push(ManifestEntry {
            relative_path: (*f).into(),
            size: 1,
            source_hash: h,
            verify: if verified { VerifyState::Verified { destination_hash: h } } else { VerifyState::NotVerified },
            source_modified_at: None,
            completed_at: at,
            retries: 0,
        });
    }
    BackupEvidence { task_id: "task-1".into(), manifest: m }
}

#[test]
fn scenario_format_card_query_failure_is_rejected() {
    let v = vol(BusType::Unknown, false);
    assert!(
        matches!(removability(&v), Err(RemovabilityError::QueryFailed)),
        "查不到总线类型 MUST 是 Err，不能被折叠成「可移动」"
    );
    let r = check_safety(&v, &[], false, None, &[], Locale::Zh);
    let g1 = &r.checks[0];
    assert!(!g1.passed, "查询失败 MUST 判定为拒绝");
    assert!(g1.detail.contains("无法确认"), "{}", g1.detail);
    assert!(!r.passed());
}

#[test]
fn scenario_format_card_indeterminate_is_rejected() {
    for bus in [BusType::Other, BusType::Network] {
        let v = vol(bus, false);
        assert!(matches!(removability(&v), Err(RemovabilityError::Indeterminate)));
        assert!(!check_safety(&v, &[], false, None, &[], Locale::Zh).checks[0].passed);
    }
}

#[test]
fn scenario_format_card_system_disk_rejected() {
    let r = check_safety(&vol(BusType::Usb, true), &[], false, None, &[], Locale::Zh);
    assert!(!r.checks[0].passed);
    assert!(r.checks[0].detail.contains("系统盘"));
}

#[test]
fn scenario_format_card_internal_disk_rejected() {
    for bus in [BusType::Nvme, BusType::Sata, BusType::Scsi] {
        let r = check_safety(&vol(bus, false), &[], false, None, &[], Locale::Zh);
        assert!(!r.checks[0].passed, "{} 总线应被拒", bus.label());
        assert!(r.checks[0].detail.contains("固定盘"));
    }
}

#[test]
fn scenario_format_card_destination_volume_rejected() {
    let v = vol(BusType::Usb, false);
    let dests = vec![r"E:\素材\备份".to_string()];
    let r = check_safety(&v, &dests, false, Some(&evidence(&[], true)), &[], Locale::Zh);
    let g2 = r.checks.iter().find(|c| c.id == "G2").expect("G2");
    assert!(!g2.passed);
    assert!(g2.detail.contains("目的地"));
    assert_eq!(r.first_failure().map(|c| c.id.as_str()), Some("G2"));
}

#[test]
fn scenario_format_card_busy_device_rejected() {
    let r = check_safety(&vol(BusType::Usb, false), &[], true, Some(&evidence(&[], true)), &[], Locale::Zh);
    let g3 = r.checks.iter().find(|c| c.id == "G3").expect("G3");
    assert!(!g3.passed);
    assert!(g3.detail.contains("任务"));
}

#[test]
fn scenario_format_card_backup_must_cover_current_content() {
    let v = vol(BusType::Usb, false);
    let ev = evidence(&["A001.MP4", "A002.MP4"], true);
    let ok = check_safety(&v, &[], false, Some(&ev), &["A001.MP4".into(), "A002.MP4".into()], Locale::Zh);
    assert!(ok.passed(), "{:?}", ok.first_failure());
    assert_eq!(ok.backup_task_id.as_deref(), Some("task-1"));

    let stale = check_safety(
        &v,
        &[],
        false,
        Some(&ev),
        &["A001.MP4".into(), "A002.MP4".into(), "A003.MP4".into()],
        Locale::Zh,
    );
    assert!(!stale.passed());
    let g4 = stale.checks.iter().find(|c| c.id == "G4").expect("G4");
    assert!(g4.detail.contains("A003.MP4"), "{}", g4.detail);
    assert!(stale.backup_task_id.is_none());
}

#[test]
fn scenario_format_card_unverified_backup_does_not_count() {
    let v = vol(BusType::Usb, false);
    let ev = evidence(&["A001.MP4"], false);
    let r = check_safety(&v, &[], false, Some(&ev), &["A001.MP4".into()], Locale::Zh);
    assert!(!r.passed(), "未校验的备份 MUST NOT 作为格式化依据");
}

#[test]
fn scenario_format_card_no_backup_rejected() {
    let r = check_safety(&vol(BusType::Usb, false), &[], false, None, &["A001.MP4".into()], Locale::Zh);
    let g4 = r.checks.iter().find(|c| c.id == "G4").expect("G4");
    assert!(!g4.passed);
    assert!(g4.detail.contains("备份"));
}

#[test]
fn scenario_format_card_checks_run_in_order_and_report_which_failed() {
    let report = check_safety(&vol(BusType::Usb, false), &[], false, None, &[], Locale::Zh);
    let ids: Vec<&str> = report.checks.iter().map(|c| c.id.as_str()).collect();
    assert_eq!(ids, vec!["G1", "G2", "G3", "G4"], "检查应按序全跑并各自留结论");
}

#[test]
fn scenario_format_card_compact_trace_for_audit() {
    let r = check_safety(&vol(BusType::Unknown, false), &[], false, None, &[], Locale::Zh);
    let c = r.compact();
    assert!(c.contains("G1=fail"), "{c}");
    assert!(c.contains("G2=ok"), "{c}");
}

fn record(status: TaskStatus, verified: bool) -> TaskRecord {
    TaskRecord {
        id: "task-9".into(),
        started_at: "s".into(),
        finished_at: "f".into(),
        source_id: "vol:1".into(),
        source_name: "A7M4".into(),
        project: "婚礼".into(),
        algorithm: "xxh64".into(),
        verified,
        total_files: 1,
        total_bytes: 1,
        copied: 1,
        skipped: 0,
        failed: 0,
        status,
        elapsed_secs: 1,
        manifests: vec![],
    }
}

#[test]
fn only_fully_passed_verified_runs_count_as_backup() {
    assert!(counts_as_backup(&record(TaskStatus::Succeeded, true)));
    assert!(!counts_as_backup(&record(TaskStatus::Succeeded, false)));
    assert!(!counts_as_backup(&record(TaskStatus::Partial, true)));
    assert!(!counts_as_backup(&record(TaskStatus::Cancelled, true)));
}

#[test]
fn backup_evidence_merges_the_devices_manifests_in_order() {
    let a = evidence(&["A001.MP4"], true).manifest;
    let mut other = evidence(&["X.MP4"], true).manifest;
    other.source.id = "vol:2".into();
    let b = evidence(&["A002.MP4", "A003.MP4"], true).manifest;
    let ev = merge_backup_evidence("task-9", vec![other.clone(), a, b], "vol:1").expect("证据");
    assert_eq!(ev.task_id, "task-9");
    let names: Vec<&str> = ev.manifest.entries.iter().map(|e| e.relative_path.as_str()).collect();
    assert_eq!(names, vec!["A001.MP4", "A002.MP4", "A003.MP4"]);
    assert!(merge_backup_evidence("task-9", vec![other], "vol:1").is_none());
    let v = vol(BusType::Usb, false);
    let r = check_safety(&v, &[], false, Some(&ev), &["A001.MP4".into(), "A003.MP4".into()], Locale::Zh);
    assert!(r.passed());
}

#[test]
fn safety_verdicts_are_the_same_in_every_language() {
    let ev = evidence(&["A001.MP4"], true);
    let files: Vec<String> = vec!["A001.MP4".into(), "A002.MP4".into()];
    for bus in [BusType::Usb, BusType::Sata, BusType::Unknown] {
        for ev in [None, Some(&ev)] {
            let zh = check_safety(&vol(bus, false), &[], false, ev, &files, Locale::Zh);
            let en = check_safety(&vol(bus, false), &[], false, ev, &files, Locale::En);
            let z: Vec<bool> = zh.checks.iter().map(|c| c.passed).collect();
            let e: Vec<bool> = en.checks.iter().map(|c| c.passed).collect();
            assert_eq!(z, e);
            assert_eq!(zh.backup_task_id, en.backup_task_id);
            assert_ne!(zh.checks[0].detail, en.checks[0].detail);
        }
    }
}
