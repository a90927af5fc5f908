use steadcopy::engine::hasher::{hash_bytes, HashAlgorithm};
use steadcopy::manifest::model::{normalize_relative, relative_of, Manifest, ManifestEntry, SourceRef, VerifyState};
use steadcopy::manifest::store::{check_format_version, format_time_human, manifest_stem, manifest_stem_at, timestamp_slug, DateParts, ManifestReadIssue, MANIFEST_DIR};
use steadcopy::manifest::store::{is_manifest_path, manifest_dir, Moment};

fn to_moment(t: time::OffsetDateTime) -> Moment {
    Moment::from_parts(t.unix_timestamp(), t.nanosecond(), t.offset().whole_seconds()).expect("moment")
}

fn t(h: u8, m: u8, s: u8) -> Moment {
    to_moment(time::Date::from_calendar_date(2026, time::Month::August, 8)
        .unwrap()
        .with_hms(h, m, s)
        .unwrap()
        .assume_utc())
}

fn src() -> SourceRef {
    SourceRef { id: "vol-guid-1234".into(), display_name: "A7M4主卡".into() }
}

fn entry(name: &str, verified: bool) -> ManifestEntry {
    let h = hash_bytes(HashAlgorithm::Xxh64, name.as_bytes());
    ManifestEntry {
        relative_path: name.into(),
        size: 1024,
        source_hash: h,
        verify: if verified { VerifyState::Verified { destination_hash: h } } else { VerifyState::NotVerified },
        source_modified_at: Some(t(9, 0, 0)),
        completed_at: t(9, 30, 0),
        retries: 0,
    }
}

fn manifest() -> Manifest {
    let mut m = Manifest::new(src(), "婚礼", r"D:\素材\婚礼", HashAlgorithm::Xxh64, t(9, 30, 0));
    m.entries.push(entry("A001.MP4", true));
    m.entries.push(entry("A002.MP4", true));
    m
}

#[test]
fn scenario_verify_manifest_unverified_does_not_count_as_done() {
    assert!(entry("A001.MP4", true).counts_as_done());
    assert!(!entry("A002.MP4", false).counts_as_done());
    let mut m = manifest();
    m.entries.push(entry("A003.MP4", false));
    assert_eq!(m.entries.len(), 3);
    assert_eq!(m.verified_count(), 2);
}

#[test]
fn scenario_verify_manifest_source_hash_is_not_reused_as_destination() {
    let e = entry("A004.MP4", false);
    assert!(e.verify.destination_hash().is_none());
    assert!(matches!(e.verify, VerifyState::NotVerified));
}

#[test]
fn scenario_verify_manifest_entry_lookup_is_separator_agnostic() {
    let mut m = manifest();
    m.entries.push(ManifestEntry { relative_path: "DCIM/100MSDCF/A003.MP4".into(), ..entry("A003.MP4", true) });
    assert!(m.entry(r"DCIM\100MSDCF\A003.MP4").is_some());
    assert!(m.entry("DCIM/100MSDCF/A003.MP4").is_some());
    assert!(m.entry("不存在.MP4").is_none());
}

#[test]
fn scenario_verify_manifest_totals() {
    let m = manifest();
    assert_eq!(m.total_bytes(), 2048);
}

#[test]
fn scenario_verify_manifest_stem_carries_time_and_source() {
    let mut m = manifest();
    m.source.id = "vol-guid-abcdef123".into();
    m.created_at = t(14, 5, 9);
    let stem = manifest_stem(&m);
    assert!(stem.starts_with("20260808-140509"), "文件名应含时间戳：{stem}");
    assert!(stem.contains("vol"), "文件名应含源设备片段：{stem}");
    assert_eq!(stem, "20260808-140509-volguida");
}

#[test]
fn manifest_stem_falls_back_to_src_and_pads_fields() {
    let mut m = manifest();
    m.source.id = "::--::".into();
    let p = DateParts { year: 987, month: 1, day: 2, hour: 3, minute: 4, second: 5 };
    assert_eq!(manifest_stem_at(&m, p), "09870102-030405-src");
    assert_eq!(timestamp_slug(DateParts { year: -5, ..p }), "-0050102-030405");
}

#[test]
fn human_time_has_no_iso_markers() {
    assert_eq!(format_time_human(&t(9, 30, 0)), "2026-08-08 09:30:00");
}

#[test]
fn manifest_version_check_refuses_newer_formats() {
    assert!(check_format_version(1).is_ok());
    assert!(check_format_version(0).is_ok());
    let e = check_format_version(6).unwrap_err();
    assert_eq!(e, ManifestReadIssue::FutureVersion { found: 6, supported: 1 });
    assert!(e.describe().contains("升级"));
    assert_eq!(MANIFEST_DIR, "steadcopy");
}

#[test]
fn scenario_verify_manifest_relative_paths_are_normalized() {
    assert_eq!(normalize_relative(r"\DCIM\100MSDCF\A001.MP4"), "DCIM/100MSDCF/A001.MP4");
    assert_eq!(normalize_relative("/a//b/"), "a/b");
    assert_eq!(normalize_relative("a/b"), "a/b");
    assert_eq!(normalize_relative(""), "");
}

#[test]
fn scenario_verify_manifest_relative_of_base() {
    let base = r"D:\素材\婚礼";
    let full = r"D:\素材\婚礼\DCIM\A001.MP4";
    assert_eq!(relative_of(base, full).as_deref(), Some("DCIM/A001.MP4"));
    assert_eq!(relative_of(base, r"E:\别处\x.mp4"), None);
}

#[test]
fn moments_are_written_in_rfc3339() {
    let d = time::Date::from_calendar_date(2026, time::Month::August, 10).unwrap();
    let utc = d.with_hms(9, 30, 0).unwrap().assume_utc();
    assert_eq!(steadcopy::manifest::store::format_time(&to_moment(utc)), "2026-08-10T09:30:00Z");
    let east = d
        .with_hms_nano(9, 30, 5, 500_000_000)
        .unwrap()
        .assume_offset(time::UtcOffset::from_hms(8, 0, 0).unwrap());
    assert_eq!(steadcopy::manifest::store::format_time(&to_moment(east)), "2026-08-10T09:30:05.5+08:00");
    let odd = d.with_hms(9, 30, 0).unwrap().assume_offset(time::UtcOffset::from_hms(1, 2, 3).unwrap());
    assert_eq!(steadcopy::manifest::store::format_time(&to_moment(odd)), "-");
}

#[test]
fn manifest_folder_paths_are_recognised_by_component() {
    assert_eq!(manifest_dir("D:/素材"), "D:/素材/steadcopy");
    assert_eq!(manifest_dir("D:\\素材\\"), "D:\\素材\\steadcopy");
    assert_eq!(manifest_dir(""), MANIFEST_DIR);
    assert!(is_manifest_path("D:/素材", "D:/素材/steadcopy/20260808-093000-vol1.json"));
    assert!(is_manifest_path("D:\\素材", "D:/素材//steadcopy"));
    assert!(!is_manifest_path("D:/素材", "D:/素材/A001.MP4"));
    assert!(!is_manifest_path("D:/素材", "D:/素材/steadcopy2/x.json"));
    assert!(!is_manifest_path("D:/素材", "D:/其他/steadcopy/x.json"));
}

#[test]
fn moments_read_their_own_calendar_and_offset() {
    let d = time::Date::from_calendar_date(2026, time::Month::August, 8).unwrap();
    let east = d.with_hms(1, 30, 0).unwrap().assume_offset(time::UtcOffset::from_hms(8, 0, 0).unwrap());
    let m = to_moment(east);
    assert_eq!(m.offset_seconds(), 8 * 3600);
    assert_eq!(m.unix_seconds(), east.unix_timestamp());
    assert_eq!(format_time_human(&m), "2026-08-08 01:30:00");
    let same_instant_utc = to_moment(east.to_offset(time::UtcOffset::UTC));
    assert_eq!(format_time_human(&same_instant_utc), "2026-08-07 17:30:00");
    assert!(Moment::from_parts(0, 1_000_000_000, 0).is_none());
    assert!(Moment::from_parts(i64::MAX, 0, 0).is_none());
    let epoch = Moment::from_parts(0, 0, 0).expect("the epoch");
    assert_eq!(steadcopy::manifest::store::format_time(&epoch), "1970-01-01T00:00:00Z");
}
