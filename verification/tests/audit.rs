use steadcopy::engine::hasher::{hash_bytes, HashAlgorithm, HashValue};
use steadcopy::manifest::audit::{audit, AuditCounts, ObservedFile};
use steadcopy::manifest::model::{Manifest, ManifestEntry, SourceRef, VerifyState};
use steadcopy::manifest::store::Moment;

fn to_moment(t: time::OffsetDateTime) -> Moment {
    Moment::from_parts(t.unix_timestamp(), t.nanosecond(), t.offset().whole_seconds()).expect("moment")
}

fn at() -> Moment {
    to_moment(time::Date::from_calendar_date(2026, time::Month::August, 8)
        .unwrap()
        .with_hms(9, 30, 0)
        .unwrap()
        .assume_utc())
}

fn h(content: &str) -> HashValue {
    hash_bytes(HashAlgorithm::Xxh64, content.as_bytes())
}

fn entry(path: &str, content: &str, verified: bool) -> ManifestEntry {
    let hv = h(content);
    ManifestEntry {
        relative_path: path.into(),
        size: content.len() as u64,
        source_hash: hv,
        verify: if verified {
            VerifyState::Verified { destination_hash: hv }
        } else {
            VerifyState::NotVerified
        },
        source_modified_at: None,
        completed_at: at(),
        retries: 0,
    }
}

fn manifest_with(entries: Vec<ManifestEntry>) -> Manifest {
    let mut m = Manifest::new(
        SourceRef { id: "vol-1".into(), display_name: "A7M4主卡".into() },
        "婚礼",
        r"D:\素材\婚礼",
        HashAlgorithm::Xxh64,
        at(),
    );
    m.entries = entries;
    m
}

fn observed(path: &str, content: &str) -> ObservedFile {
    ObservedFile::new(path, content.len() as u64, h(content))
}

#[test]
fn scenario_verify_manifest_audit_all_intact() {
    let m = manifest_with(vec![entry("A001.MP4", "aaa", true), entry("A002.MP4", "bbb", true)]);
    let obs = vec![observed("A001.MP4", "aaa"), observed("A002.MP4", "bbb")];
    let r = audit(&m, &obs, true);
    assert_eq!(r.counts(), AuditCounts { intact: 2, moved: 0, missing: 0, added: 0 });
    assert!(r.is_data_intact());
}

#[test]
fn scenario_verify_manifest_audit_renamed_is_moved() {
    let m = manifest_with(vec![entry("A001.MP4", "aaa", true)]);
    let obs = vec![observed("归档/A001-final.MP4", "aaa")];
    let r = audit(&m, &obs, true);
    assert_eq!(r.counts(), AuditCounts { intact: 0, moved: 1, missing: 0, added: 0 });
    assert_eq!(r.moved[0].from, "A001.MP4");
    assert_eq!(r.moved[0].to, "归档/A001-final.MP4");
    assert!(r.is_data_intact(), "内容还在，只是位置变了，不算失败");
}

#[test]
fn scenario_verify_manifest_audit_tampered_is_missing_and_added() {
    let m = manifest_with(vec![entry("A001.MP4", "aaa", true)]);
    let obs = vec![observed("A001.MP4", "xxx")];
    let r = audit(&m, &obs, true);
    assert_eq!(r.counts(), AuditCounts { intact: 0, moved: 0, missing: 1, added: 1 });
    assert_eq!(r.missing[0].relative_path, "A001.MP4");
    assert_eq!(r.added[0].relative_path, "A001.MP4");
    assert!(!r.is_data_intact());
}

#[test]
fn scenario_verify_manifest_audit_deleted_is_missing() {
    let m = manifest_with(vec![entry("A001.MP4", "aaa", true), entry("A002.MP4", "bbb", true)]);
    let obs = vec![observed("A001.MP4", "aaa")];
    let r = audit(&m, &obs, true);
    assert_eq!(r.counts(), AuditCounts { intact: 1, moved: 0, missing: 1, added: 0 });
    assert_eq!(r.missing[0].relative_path, "A002.MP4");
    assert!(!r.is_data_intact());
}

#[test]
fn scenario_verify_manifest_audit_extra_file_is_added_not_failure() {
    let m = manifest_with(vec![entry("A001.MP4", "aaa", true)]);
    let obs = vec![observed("A001.MP4", "aaa"), observed("我的笔记.txt", "note")];
    let r = audit(&m, &obs, true);
    assert_eq!(r.counts(), AuditCounts { intact: 1, moved: 0, missing: 0, added: 1 });
    assert!(r.is_data_intact(), "仅有新增 MUST NOT 判定为失败——多出文件不是错误");
}

#[test]
fn scenario_verify_manifest_audit_duplicate_content_not_double_claimed() {
    let m = manifest_with(vec![entry("A001.MP4", "same", true), entry("A002.MP4", "same", true)]);
    let obs = vec![observed("A001.MP4", "same")];
    let r = audit(&m, &obs, true);
    assert_eq!(r.counts(), AuditCounts { intact: 1, moved: 0, missing: 1, added: 0 });
    assert_eq!(r.missing[0].relative_path, "A002.MP4");
}

#[test]
fn scenario_verify_manifest_audit_swapped_paths() {
    let m = manifest_with(vec![entry("A.MP4", "aaa", true), entry("B.MP4", "bbb", true)]);
    let obs = vec![observed("A.MP4", "bbb"), observed("B.MP4", "aaa")];
    let r = audit(&m, &obs, true);
    assert_eq!(r.counts(), AuditCounts { intact: 0, moved: 2, missing: 0, added: 0 });
    assert!(r.is_data_intact());
}

#[test]
fn scenario_verify_manifest_audit_reports_unverified_at_copy() {
    let m = manifest_with(vec![entry("A001.MP4", "aaa", true), entry("A002.MP4", "bbb", false)]);
    let obs = vec![observed("A001.MP4", "aaa")];
    let r = audit(&m, &obs, true);
    assert_eq!(r.unverified_at_copy, 1);
    assert_eq!(r.missing.len(), 1);
    assert!(!r.missing[0].was_verified_at_copy);
}

#[test]
fn scenario_verify_manifest_audit_incomplete_is_marked() {
    let m = manifest_with(vec![entry("A001.MP4", "aaa", true)]);
    let r = audit(&m, &[], false);
    assert!(!r.complete, "取消后的结果 MUST 标注不完整");
}

#[test]
fn scenario_verify_manifest_audit_path_separators_are_normalized() {
    let m = manifest_with(vec![entry("DCIM/A001.MP4", "aaa", true)]);
    let obs = vec![observed(r"DCIM\A001.MP4", "aaa")];
    let r = audit(&m, &obs, true);
    assert_eq!(r.counts().intact, 1);
}

#[test]
fn scenario_verify_manifest_audit_empty_manifest_all_added() {
    let m = manifest_with(vec![]);
    let obs = vec![observed("x.mp4", "aaa")];
    let r = audit(&m, &obs, true);
    assert_eq!(r.counts(), AuditCounts { intact: 0, moved: 0, missing: 0, added: 1 });
    assert!(r.is_data_intact());
}

#[test]
fn audit_missing_row_carries_expected_hash_text() {
    let m = manifest_with(vec![entry("A001.MP4", "aaa", true)]);
    let r = audit(&m, &[], true);
    assert_eq!(r.missing[0].expected_hash, h("aaa").to_hex());
    assert_eq!(r.missing[0].expected_hash.len(), 16);
    assert!(r.missing[0].was_verified_at_copy);
    assert_eq!(r.missing[0].size, 3);
}

#[test]
fn audit_every_listed_and_found_file_is_counted_once() {
    // intact, moved, tampered and extra files together
    let m = manifest_with(vec![
        entry("A.MP4", "aaa", true),
        entry("B.MP4", "bbb", true),
        entry("C.MP4", "ccc", false),
    ]);
    let obs = vec![
        observed("A.MP4", "aaa"),
        observed("moved/B.MP4", "bbb"),
        observed("C.MP4", "zzz"),
        observed("extra.txt", "e"),
    ];
    let r = audit(&m, &obs, true);
    let c = r.counts();
    assert_eq!(c, AuditCounts { intact: 1, moved: 1, missing: 1, added: 2 });
    assert_eq!(c.intact + c.moved + c.missing, m.entries.len());
    assert_eq!(c.intact + c.moved + c.added, obs.len());
    assert_eq!(r.algorithm, HashAlgorithm::Xxh64);
    assert_eq!(r.unverified_at_copy, 1);
}

#[test]
fn audit_later_found_file_at_same_path_wins() {
    let m = manifest_with(vec![entry("A.MP4", "aaa", true)]);
    let obs = vec![observed("A.MP4", "old"), observed("A.MP4", "aaa")];
    let r = audit(&m, &obs, true);
    assert_eq!(r.counts(), AuditCounts { intact: 1, moved: 0, missing: 0, added: 1 });
    assert_eq!(r.added[0].hash, h("old").to_hex());
}
