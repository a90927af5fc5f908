use steadcopy::engine::hasher::{hash_bytes, HashAlgorithm};
use steadcopy::i18n::Locale;
use steadcopy::ledger::report::{human_bytes, human_duration, render_report, ReportInput};
use steadcopy::manifest::audit::audit;
use steadcopy::manifest::model::{Manifest, ManifestEntry, SourceRef, VerifyState};
use steadcopy::manifest::store::Moment;

fn to_moment(t: time::OffsetDateTime) -> Moment {
    Moment::from_parts(t.unix_timestamp(), t.nanosecond(), t.offset().whole_seconds()).expect("moment")
}

fn at(h: u8, m: u8, s: u8) -> Moment {
    to_moment(time::Date::from_calendar_date(2026, time::Month::August, 8)
        .unwrap()
        .with_hms(h, m, s)
        .unwrap()
        .assume_utc())
}

fn manifest(verified: bool, n: usize) -> Manifest {
    let t = at(9, 30, 0);
    let mut m = Manifest::new(
        SourceRef { id: "vol-1".into(), display_name: "A7M4主卡".into() },
        "婚礼<张先生>",
        r"D:\素材\婚礼",
        HashAlgorithm::Xxh64,
        t,
    );
    for i in 0..n {
        let name = format!("A{i:04}.MP4");
        let h = hash_bytes(HashAlgorithm::Xxh64, name.as_bytes());
        m.entries.push(ManifestEntry {
            relative_path: name,
            size: 1024 * 1024,
            source_hash: h,
            verify: if verified { VerifyState::Verified { destination_hash: h } } else { VerifyState::NotVerified },
            source_modified_at: None,
            completed_at: t,
            retries: 0,
        });
    }
    m
}

fn input<'a>(m: &'a Manifest, failures: &'a [(String, String, u32)]) -> ReportInput<'a> {
    ReportInput {
        lang: Locale::Zh,
        manifest: m,
        failures,
        skipped: 0,
        notices: &[],
        elapsed_secs: Some(125),
        generated_at: at(9, 32, 5),
        audit: None,
    }
}

#[test]
fn scenario_task_ledger_report_is_self_contained() {
    let m = manifest(true, 3);
    let html = render_report(&input(&m, &[]));
    for forbidden in ["<link", "<script", "src=\"http", "@import", "url(http"] {
        assert!(!html.contains(forbidden), "报告 MUST NOT 依赖外部资源，发现 {forbidden}");
    }
    assert!(html.starts_with("<!DOCTYPE html>"));
    assert!(html.contains("<style>"), "样式必须内联");
    assert!(html.trim_end().ends_with("</html>"));
}

#[test]
fn scenario_task_ledger_report_states_verification_verdict() {
    let m = manifest(true, 3);
    let html = render_report(&input(&m, &[]));
    assert!(html.contains("全部 3 个文件校验通过"), "显著位置应给出中文校验结论");
    assert!(html.contains("xxh64"), "应注明算法");
}

#[test]
fn scenario_task_ledger_report_marks_unverified_clearly() {
    let m = manifest(false, 2);
    let html = render_report(&input(&m, &[]));
    assert!(html.contains("未开启校验"), "未校验时必须明说");
    assert!(html.contains("无法确认写入是否完好"));
    assert!(!html.contains("全部 2 个文件校验通过"));
}

#[test]
fn scenario_task_ledger_report_failures_are_prominent() {
    let m = manifest(true, 2);
    let failures = vec![("A0003.MP4".to_string(), "校验不一致：期望 abc，实际 def".to_string(), 2u32)];
    let html = render_report(&input(&m, &failures));
    assert!(html.contains("失败清单"));
    assert!(html.contains("A0003.MP4"));
    assert!(html.contains("校验不一致"));
    assert!(html.contains("部分失败"));
    assert!(!html.contains("全部 2 个文件校验通过"));
    assert!(!html.contains("<details"));
}

#[test]
fn scenario_task_ledger_report_has_print_styles() {
    let html = render_report(&input(&manifest(true, 1), &[]));
    assert!(html.contains("@media print"), "应含打印样式");
    assert!(html.contains("break-inside"), "应避免表格行被打印截断");
    assert!(html.contains("打印为 PDF"), "应告知用户可打印成 PDF");
}

#[test]
fn scenario_task_ledger_report_escapes_html_in_user_content() {
    let m = manifest(true, 1);
    let html = render_report(&input(&m, &[]));
    assert!(html.contains("婚礼&lt;张先生&gt;"));
    assert!(!html.contains("婚礼<张先生>"));
}

#[test]
fn scenario_task_ledger_report_includes_audit_when_present() {
    let m = manifest(true, 2);
    let observed = vec![];
    let a = audit(&m, &observed, true);
    let mut i = input(&m, &[]);
    i.audit = Some(&a);
    let html = render_report(&i);
    assert!(html.contains("复验结果"));
    assert!(html.contains("丢失"));
    assert!(html.contains("A0000.MP4"), "丢失清单应列出文件");
}

#[test]
fn scenario_task_ledger_report_time_is_human_readable() {
    let m = manifest(true, 1);
    let html = render_report(&input(&m, &[]));
    assert!(html.contains("2026-08-08 09:30:00"), "时间应为人读格式");
    assert!(!html.contains("09:30:00Z"), "报告里不该出现裸 RFC3339");
    assert!(!html.contains("T09:30"), "报告里不该出现 ISO 的 T 分隔符");
}

#[test]
fn scenario_task_ledger_report_sub_second_duration() {
    let m = manifest(true, 1);
    let mut i = input(&m, &[]);
    i.elapsed_secs = Some(0);
    let html = render_report(&i);
    assert!(html.contains("不到 1 秒"), "0 秒应说人话");
}

#[test]
fn scenario_task_ledger_report_empty_manifest() {
    let m = manifest(true, 0);
    let html = render_report(&input(&m, &[]));
    assert!(html.contains("本次没有拷贝任何文件"));
}

#[test]
fn report_in_english_reads_english() {
    let m = manifest(true, 2);
    let mut i = input(&m, &[]);
    i.lang = Locale::En;
    let html = render_report(&i);
    assert!(html.contains("<html lang=\"en\">"));
    assert!(html.contains("All 2 file(s) verified · 2.00 MB total"));
    assert!(html.contains("Generated 2026-08-08 09:32:05"));
    assert!(html.contains("2m 5s"));
    assert!(html.contains("prints to PDF"));
}

#[test]
fn report_summary_cells_and_speed() {
    let m = manifest(true, 2);
    let html = render_report(&input(&m, &[]));
    assert!(html.contains("<div class=\"k\">总大小</div><div class=\"v\">2.00 MB</div>"));
    assert!(html.contains("<div class=\"k\">耗时</div><div class=\"v\">2 分 5 秒</div>"));
    // 2 MiB over 125 s
    assert!(html.contains("<div class=\"k\">平均速度</div><div class=\"v\">16.38 KB/s</div>"));
    assert!(html.contains("<div class=\"k\">校验</div><div class=\"v\">已校验 · xxh64</div>"));
    assert!(html.contains("<div class=\"k\">完成时间</div><div class=\"v\">2026-08-08 09:30:00</div>"));
}

#[test]
fn report_notices_are_escaped_and_shown() {
    let m = manifest(true, 1);
    let notices = vec!["清单 <x> 损坏".to_string()];
    let mut i = input(&m, &[]);
    i.notices = &notices;
    let html = render_report(&i);
    assert!(html.contains("<div class=\"notice\">清单 &lt;x&gt; 损坏</div>"));
}

#[test]
fn human_duration_buckets() {
    assert_eq!(human_duration(0, Locale::Zh), "不到 1 秒");
    assert_eq!(human_duration(0, Locale::En), "under 1s");
    assert_eq!(human_duration(59, Locale::Zh), "59 秒");
    assert_eq!(human_duration(60, Locale::En), "1m 0s");
    assert_eq!(human_duration(3599, Locale::Zh), "59 分 59 秒");
    assert_eq!(human_duration(3600, Locale::Zh), "1 小时 0 分");
    assert_eq!(human_duration(7325, Locale::En), "2h 2m");
}

#[test]
fn human_bytes_formats() {
    assert_eq!(human_bytes(0), "0 B");
    assert_eq!(human_bytes(1023), "1023 B");
    assert_eq!(human_bytes(1024), "1.00 KB");
    assert_eq!(human_bytes(1024 * 1024), "1.00 MB");
    assert_eq!(human_bytes(1536), "1.50 KB");
    assert_eq!(human_bytes(5 * 1024 * 1024 * 1024 * 1024 * 1024), "5120.00 TB");
}

fn float_reference(n: u64) -> String {
    const UNITS: [&str; 5] = ["B", "KB", "MB", "GB", "TB"];
    let mut v = n as f64;
    let mut i = 0;
    while v >= 1024.0 && i < UNITS.len() - 1 {
        v /= 1024.0;
        i += 1;
    }
    if i == 0 { format!("{n} B") } else { format!("{v:.2} {}", UNITS[i]) }
}

#[test]
fn human_bytes_agrees_with_float_formatting() {
    let mut n: u64 = 0;
    while n < 3_000_000 {
        assert_eq!(human_bytes(n), float_reference(n), "n = {n}");
        n += 7;
    }
    for k in 1..=45u32 {
        let base = 1u64 << k;
        for d in [0u64, 1, 5, 10, 41, 1000] {
            for m in [base.saturating_sub(d), base + d, base * 3 / 2 + d] {
                assert_eq!(human_bytes(m), float_reference(m), "n = {m}");
            }
        }
    }
}
