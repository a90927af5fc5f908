use steadcopy::engine::hasher::{hash_bytes, HashAlgorithm};
use steadcopy::manifest::ledger_account::{LoadedManifests, ResumeLedger};
use steadcopy::manifest::model::{normalize_relative, Manifest, ManifestEntry, SourceRef, VerifyState};
use steadcopy::manifest::store::ManifestReadIssue;
use steadcopy::manifest::store::Moment;

fn to_moment(t: time::OffsetDateTime) -> Moment {
    Moment::from_parts(t.unix_timestamp(), t.nanosecond(), t.offset().whole_seconds()).expect("moment")
}

fn at(h: u8) -> Moment {
    to_moment(time::Date::from_calendar_date(2026, time::Month::August, 8)
        .unwrap()
        .with_hms(h, 30, 0)
        .unwrap()
        .assume_utc())
}

fn manifest_for(source_id: &str, project: &str, files: &[(&str, u64, bool)]) -> Manifest {
    let mut m = Manifest::new(
        SourceRef { id: source_id.into(), display_name: "A7M4主卡".into() },
        project,
        r"D:\素材",
        HashAlgorithm::Xxh64,
        at(9),
    );
    for (name, size, verified) in files {
        let h = hash_bytes(HashAlgorithm::Xxh64, name.as_bytes());
        m.entries.push(ManifestEntry {
            relative_path: (*name).into(),
            size: *size,
            source_hash: h,
            verify: if *verified { VerifyState::Verified { destination_hash: h } } else { VerifyState::NotVerified },
            source_modified_at: None,
            completed_at: at(9),
            retries: 0,
        });
    }
    m
}

/// The files now in the landing directory, by normalized path, and their sizes.
struct Landing(Vec<(String, u64)>);

impl Landing {
    fn size_at(&self, rel: &str) -> Option<u64> {
        let key = normalize_relative(rel);
        self.0.iter().find(|(p, _)| *p == key).map(|(_, n)| *n)
    }
}

fn loaded(ms: Vec<Manifest>) -> LoadedManifests {
    LoadedManifests {
        manifests: ms.into_iter().enumerate().map(|(i, m)| (format!("m{i}.json"), m)).collect(),
        issues: Vec::new(),
    }
}

fn done(ledger: &ResumeLedger, landing: &Landing, rel: &str, size: u64) -> bool {
    ledger.is_done(rel, size, landing.size_at(rel))
}

#[test]
fn scenario_verify_manifest_resume_skips_completed() {
    let l = loaded(vec![manifest_for("vol-1", "婚礼", &[("A001.MP4", 100, true)])]);
    let landing = Landing(vec![("A001.MP4".into(), 100)]);
    let ledger = ResumeLedger::load("/land", &l, "vol-1");
    assert!(!ledger.is_degraded());
    assert!(done(&ledger, &landing, "A001.MP4", 100), "已完成的文件应被跳过");
    assert!(!done(&ledger, &landing, "A002.MP4", 100), "没拷过的不该被跳过");
}

#[test]
fn scenario_verify_manifest_resume_recopies_when_destination_file_deleted() {
    let l = loaded(vec![manifest_for("vol-1", "婚礼", &[("A001.MP4", 100, true)])]);
    let landing = Landing(vec![]);
    let ledger = ResumeLedger::load("/land", &l, "vol-1");
    assert!(!done(&ledger, &landing, "A001.MP4", 100), "账本有记录但文件不在，MUST 重拷");
}

#[test]
fn scenario_verify_manifest_resume_recopies_when_size_mismatch() {
    let l = loaded(vec![manifest_for("vol-1", "婚礼", &[("A001.MP4", 100, true)])]);
    let landing = Landing(vec![("A001.MP4".into(), 40)]);
    let ledger = ResumeLedger::load("/land", &l, "vol-1");
    assert!(!done(&ledger, &landing, "A001.MP4", 100), "大小不符 MUST 重拷");
}

#[test]
fn scenario_verify_manifest_resume_ignores_unverified_entries() {
    let l = loaded(vec![manifest_for("vol-1", "婚礼", &[("A001.MP4", 100, false)])]);
    let landing = Landing(vec![("A001.MP4".into(), 100)]);
    let ledger = ResumeLedger::load("/land", &l, "vol-1");
    assert!(!done(&ledger, &landing, "A001.MP4", 100), "拷贝时没校验过的条目 MUST NOT 作为已完成依据");
}

#[test]
fn scenario_verify_manifest_resume_scope_is_per_source_card() {
    let l = loaded(vec![manifest_for("vol-OTHER", "别的项目", &[("A001.MP4", 100, true)])]);
    let landing = Landing(vec![("A001.MP4".into(), 100)]);
    let ledger = ResumeLedger::load("/land", &l, "vol-1");
    assert!(!done(&ledger, &landing, "A001.MP4", 100), "别的卡拷过 MUST NOT 让本张卡被判已完成");
    assert_eq!(ledger.len(), 0);
}

#[test]
fn scenario_verify_manifest_resume_merges_multiple_manifests() {
    let first = manifest_for("vol-1", "婚礼", &[("A001.MP4", 10, true)]);
    let mut second = manifest_for("vol-1", "婚礼", &[("A002.MP4", 20, true)]);
    second.created_at = at(14);
    let l = loaded(vec![first, second]);
    let landing = Landing(vec![("A001.MP4".into(), 10), ("A002.MP4".into(), 20)]);
    let ledger = ResumeLedger::load("/land", &l, "vol-1");
    assert_eq!(ledger.len(), 2);
    assert!(done(&ledger, &landing, "A001.MP4", 10));
    assert!(done(&ledger, &landing, "A002.MP4", 20));
}

#[test]
fn scenario_verify_manifest_resume_degrades_to_full_on_broken_manifest() {
    let mut l = loaded(vec![manifest_for("vol-1", "婚礼", &[("A001.MP4", 100, true)])]);
    l.issues.push(("broken.json".into(), ManifestReadIssue::Malformed("expected value".into())));
    let landing = Landing(vec![("A001.MP4".into(), 100)]);
    let ledger = ResumeLedger::load("/land", &l, "vol-1");
    assert!(ledger.is_degraded(), "有坏清单时 MUST 标记降级");
    assert!(!done(&ledger, &landing, "A001.MP4", 100), "降级后应全量拷贝，MUST NOT 沿用可能不完整的账本");
    assert!(!ledger.degraded_reasons.is_empty());
    assert!(ledger.degraded_reasons[0].contains("broken.json"), "降级原因应指明是哪个文件：{:?}", ledger.degraded_reasons);
    assert_eq!(ledger.degraded_reasons[0], "broken.json：清单文件内容损坏或不完整：expected value");
}

#[test]
fn scenario_verify_manifest_resume_no_history_is_empty_not_degraded() {
    let ledger = ResumeLedger::load("/land", &loaded(vec![]), "vol-1");
    assert!(ledger.is_empty());
    assert!(!ledger.is_degraded(), "第一次拷不算降级");
}

#[test]
fn scenario_verify_manifest_resume_handles_nested_paths() {
    let l = loaded(vec![manifest_for("vol-1", "婚礼", &[("DCIM/100MSDCF/A001.MP4", 50, true)])]);
    let landing = Landing(vec![("DCIM/100MSDCF/A001.MP4".into(), 50)]);
    let ledger = ResumeLedger::load("/land", &l, "vol-1");
    assert!(done(&ledger, &landing, "DCIM/100MSDCF/A001.MP4", 50));
    assert!(done(&ledger, &landing, r"DCIM\100MSDCF\A001.MP4", 50));
}

#[test]
fn scenario_verify_manifest_resume_does_not_use_mtime() {
    let l = loaded(vec![manifest_for("vol-1", "婚礼", &[("A001.MP4", 100, true)])]);
    let landing = Landing(vec![("A001.MP4".into(), 100)]);
    let ledger = ResumeLedger::load("/land", &l, "vol-1");
    assert!(done(&ledger, &landing, "A001.MP4", 100));
}

#[test]
fn resume_later_record_of_a_path_replaces_earlier() {
    let first = manifest_for("vol-1", "婚礼", &[("A001.MP4", 10, true)]);
    let second = manifest_for("vol-1", "婚礼", &[("A001.MP4", 20, true)]);
    let ledger = ResumeLedger::load("/land", &loaded(vec![first, second]), "vol-1");
    assert_eq!(ledger.len(), 1);
    assert!(ledger.is_done("A001.MP4", 20, Some(20)));
    assert!(!ledger.is_done("A001.MP4", 10, Some(10)));
    assert_eq!(ResumeLedger::empty("/land").landing_dir(), "/land");
}
