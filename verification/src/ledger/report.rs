//! The copy report for people: one self-contained HTML file that opens offline and
//! prints to PDF from any browser. It leads with the verdict, never hides failures,
//! and escapes everything the user typed.

use vstd::prelude::*;
use crate::device::volume::{pow1024, round_half_even, unit_name, unit_of};
use crate::engine::hasher::{hash_hex, HashAlgorithm};
use crate::i18n::Locale;
use crate::manifest::audit::{AuditReport, MissingItem};
use crate::manifest::model::{done_count, size_sum, Manifest, ManifestEntry};
use crate::manifest::store::{date_parts, human_time, parts_in_range, parts_of, push_human_time, DateParts, Moment};
use crate::text::{dec, dec_pad, markup_escape, push_dec, push_dec_pad, push_escaped, push_str};

verus! {

/// The report's styles, inline: the file needs nothing from anywhere else, and the
/// print rules keep table rows and the verdict whole on paper.
pub const REPORT_STYLE: &'static str = r#"
:root{--fg:#1a1d21;--muted:#6b7280;--line:#e5e7eb;--ok:#15803d;--okbg:#f0fdf4;
--warn:#b45309;--warnbg:#fffbeb;--bad:#b91c1c;--badbg:#fef2f2;--accent:#1f2937}
*{box-sizing:border-box}
body{margin:0;padding:32px;font:14px/1.7 -apple-system,"Segoe UI","Microsoft YaHei",sans-serif;
color:var(--fg);background:#fff;max-width:1000px;margin-inline:auto}
h1{font-size:22px;margin:0 0 4px}
h2{font-size:15px;margin:28px 0 10px;padding-bottom:6px;border-bottom:1px solid var(--line)}
.sub{color:var(--muted);font-size:12px;margin-bottom:20px}
.verdict{padding:14px 16px;border-radius:8px;border:1px solid;font-size:15px;font-weight:600;margin:16px 0}
.v-ok{color:var(--ok);background:var(--okbg);border-color:#bbf7d0}
.v-warn{color:var(--warn);background:var(--warnbg);border-color:#fde68a}
.v-bad{color:var(--bad);background:var(--badbg);border-color:#fecaca}
.grid{display:grid;grid-template-columns:repeat(auto-fit,minmax(180px,1fr));gap:10px;margin:14px 0}
.cell{border:1px solid var(--line);border-radius:8px;padding:10px 12px}
.cell .k{color:var(--muted);font-size:12px}
.cell .v{font-size:15px;font-weight:600;margin-top:2px;word-break:break-all}
table{width:100%;border-collapse:collapse;font-size:12.5px}
th,td{text-align:left;padding:7px 8px;border-bottom:1px solid var(--line);vertical-align:top}
th{color:var(--muted);font-weight:600;background:#fafafa}
td.mono,.mono{font-family:ui-monospace,"Cascadia Mono",Consolas,monospace;font-size:11.5px;color:var(--muted)}
td.num{text-align:right;white-space:nowrap}
.tag{display:inline-block;padding:1px 7px;border-radius:99px;font-size:11px;font-weight:600}
.t-ok{color:var(--ok);background:var(--okbg)}
.t-warn{color:var(--warn);background:var(--warnbg)}
.t-bad{color:var(--bad);background:var(--badbg)}
.notice{background:var(--warnbg);border-left:3px solid #fbbf24;padding:8px 12px;margin:8px 0;font-size:13px}
footer{margin-top:32px;padding-top:12px;border-top:1px solid var(--line);color:var(--muted);font-size:11.5px}
@media print{body{padding:0;max-width:none}h2{break-after:avoid}tr{break-inside:avoid}
.verdict{break-inside:avoid}thead{display:table-header-group}}
"#;

/// What a report is made from: a finished task, or a manifest alone.
#[derive(Debug, Clone)]
pub struct ReportInput<'a> {
    pub manifest: &'a Manifest,
    /// Files that failed for good: path, reason, retries.
    pub failures: &'a [(String, String, u32)],
    /// Files skipped because an earlier run copied and verified them.
    pub skipped: usize,
    /// Notes to show (a degraded resume, for instance).
    pub notices: &'a [String],
    /// How long the task took, in seconds; `None` for a report made from a manifest.
    pub elapsed_secs: Option<u64>,
    pub generated_at: Moment,
    /// The audit made alongside, if any.
    pub audit: Option<&'a AuditReport>,
    /// The language of the report, the same setting as the interface.
    pub lang: Locale,
}

/// The sentence for the report's language.
pub open spec fn tr(lang: Locale, zh: Seq<char>, en: Seq<char>) -> Seq<char> {
    match lang {
        Locale::Zh => zh,
        Locale::En => en,
    }
}

/// Text escaped for HTML.
pub open spec fn esc(s: Seq<char>) -> Seq<char> {
    markup_escape(s, false)
}

/// A size for people with two decimals (`1.00 MB`), plain bytes below 1 KB (`512 B`).
pub open spec fn size_text(n: nat) -> Seq<char> {
    let i = unit_of(n);
    if i == 0 {
        dec(n) + " B"@
    } else {
        let c = round_half_even(n * 100, pow1024(i));
        dec(c / 100) + "."@ + dec_pad(c % 100, 2) + " "@ + unit_name(i)
    }
}

/// A duration for people.
pub open spec fn duration_text(secs: nat, lang: Locale) -> Seq<char> {
    if secs == 0 {
        tr(lang, "不到 1 秒"@, "under 1s"@)
    } else if secs < 60 {
        tr(lang, dec(secs) + " 秒"@, dec(secs) + "s"@)
    } else if secs < 3600 {
        tr(lang, dec(secs / 60) + " 分 "@ + dec(secs % 60) + " 秒"@, dec(secs / 60) + "m "@ + dec(secs % 60) + "s"@)
    } else {
        tr(
            lang,
            dec(secs / 3600) + " 小时 "@ + dec((secs % 3600) / 60) + " 分"@,
            dec(secs / 3600) + "h "@ + dec((secs % 3600) / 60) + "m"@,
        )
    }
}

/// An algorithm's name as shown.
pub open spec fn algo_text(a: HashAlgorithm) -> Seq<char> {
    match a {
        HashAlgorithm::Xxh64 => "xxh64"@,
        HashAlgorithm::Md5 => "md5"@,
    }
}

/// The verdict's style: bad with any failure, good when every file is verified.
pub open spec fn verdict_class(total: nat, verified: nat, failed: nat) -> Seq<char> {
    if failed > 0 {
        "v-bad"@
    } else if verified == total && total > 0 {
        "v-ok"@
    } else {
        "v-warn"@
    }
}

/// The verdict, the first thing a reader sees.
pub open spec fn verdict_text(lang: Locale, total: nat, verified: nat, failed: nat, bytes: nat) -> Seq<char> {
    if failed > 0 {
        tr(
            lang,
            "部分失败："@ + dec(verified) + " 个文件校验通过，"@ + dec(failed) + " 个失败（详见下方失败清单）"@,
            "Partly failed: "@ + dec(verified) + " verified, "@ + dec(failed) + " failed — see the failure list below"@,
        )
    } else if verified == total && total > 0 {
        tr(
            lang,
            "全部 "@ + dec(total) + " 个文件校验通过，共 "@ + size_text(bytes),
            "All "@ + dec(total) + " file(s) verified · "@ + size_text(bytes) + " total"@,
        )
    } else if total == 0 {
        tr(lang, "本次没有拷贝任何文件"@, "Nothing was copied this time"@)
    } else {
        tr(
            lang,
            dec(total) + " 个文件已拷贝，但本次未开启校验——无法确认写入是否完好"@,
            dec(total) + " file(s) copied, but verification was off — whether they landed intact is unknown"@,
        )
    }
}

/// A report with a failure never reads as a success: its verdict is the failure one,
/// in either language, whatever else was verified.
pub proof fn lemma_failures_never_read_as_success(lang: Locale, total: nat, verified: nat, failed: nat, bytes: nat)
    requires
        failed > 0,
    ensures
        verdict_class(total, verified, failed) == "v-bad"@,
        verdict_text(lang, total, verified, failed, bytes) == tr(
            lang,
            "部分失败："@ + dec(verified) + " 个文件校验通过，"@ + dec(failed) + " 个失败（详见下方失败清单）"@,
            "Partly failed: "@ + dec(verified) + " verified, "@ + dec(failed) + " failed — see the failure list below"@,
        ),
{
}

/// The document's head.
pub open spec fn head_text(lang: Locale, m: Manifest) -> Seq<char> {
    "<!DOCTYPE html>\n<html lang=\""@ + tr(lang, "zh-CN"@, "en"@) + "\">\n<head>\n<meta charset=\"utf-8\">\n"@
        + "<title>"@ + tr(lang, "拷卡报告"@, "Copy report"@) + " · "@ + esc(m.project@) + " · "@
        + esc(m.source.display_name@) + "</title>\n<style>"@ + REPORT_STYLE@ + "</style>\n</head>\n<body>\n"@
}

/// The title and the line under it.
pub open spec fn title_text(lang: Locale, m: Manifest, generated: DateParts) -> Seq<char> {
    let sub = tr(
        lang,
        "项目「"@ + m.project@ + "」 · 来源「"@ + m.source.display_name@ + "」 · 生成于 "@ + human_time(generated),
        "Project "@ + m.project@ + " · Source "@ + m.source.display_name@ + " · Generated "@ + human_time(generated),
    );
    "<h1>"@ + tr(lang, "拷卡报告"@, "Copy report"@) + "</h1>\n<div class=\"sub\">"@ + esc(sub) + "</div>\n"@
}

/// The notices, one box each.
pub open spec fn notices_text(ns: Seq<String>) -> Seq<char>
    decreases ns.len(),
{
    if ns.len() == 0 {
        Seq::empty()
    } else {
        notices_text(ns.drop_last()) + "<div class=\"notice\">"@ + esc(ns.last()@) + "</div>\n"@
    }
}

/// One cell of a summary grid.
pub open spec fn cell_text(k: Seq<char>, v: Seq<char>) -> Seq<char> {
    "<div class=\"cell\"><div class=\"k\">"@ + esc(k) + "</div><div class=\"v\">"@ + esc(v) + "</div></div>\n"@
}

/// How verification went, in the summary.
pub open spec fn verification_text(lang: Locale, total: nat, verified: nat, a: HashAlgorithm) -> Seq<char> {
    if verified == total && total > 0 {
        tr(lang, "已校验"@, "Verified"@) + " · "@ + algo_text(a)
    } else if verified == 0 {
        tr(lang, "未开启"@, "Off"@)
    } else {
        dec(verified) + "/"@ + dec(total) + " "@ + tr(lang, "已校验"@, "verified"@) + " · "@ + algo_text(a)
    }
}

/// The first six cells of the summary.
#[verifier::opaque]
pub open spec fn summary_cells(lang: Locale, m: Manifest) -> Seq<char> {
    let total = m.entries@.len();
    cell_text(tr(lang, "项目"@, "Project"@), m.project@)
        + cell_text(tr(lang, "来源设备"@, "Source device"@), m.source.display_name@)
        + cell_text(tr(lang, "目的地"@, "Destination"@), m.destination_root@)
        + cell_text(tr(lang, "文件数"@, "Files"@), dec(total))
        + cell_text(tr(lang, "总大小"@, "Total size"@), size_text(size_sum(m.entries@)))
        + cell_text(
            tr(lang, "校验"@, "Verification"@),
            verification_text(lang, total, done_count(m.entries@), m.algorithm),
        )
}

/// The skipped files' cell, when any were skipped.
#[verifier::opaque]
pub open spec fn skipped_cell(lang: Locale, skipped: nat) -> Seq<char> {
    if skipped > 0 {
        cell_text(
            tr(lang, "已跳过"@, "Skipped"@),
            tr(lang, dec(skipped) + " 个（此前已拷并校验通过）"@, dec(skipped) + " (already copied and verified)"@),
        )
    } else {
        Seq::empty()
    }
}

/// The time taken and, when it is not zero, the average speed.
#[verifier::opaque]
pub open spec fn elapsed_cells(lang: Locale, elapsed: Option<u64>, bytes: nat) -> Seq<char> {
    match elapsed {
        Some(s) => cell_text(tr(lang, "耗时"@, "Elapsed"@), duration_text(s as nat, lang)) + (if s > 0 {
            cell_text(tr(lang, "平均速度"@, "Average speed"@), size_text(bytes / (s as nat)) + "/s"@)
        } else {
            Seq::empty()
        }),
        None => Seq::empty(),
    }
}

/// The summary grid.
pub open spec fn summary_text(lang: Locale, m: Manifest, skipped: nat, elapsed: Option<u64>, created: DateParts) -> Seq<char> {
    "<h2>"@ + tr(lang, "概要"@, "Summary"@) + "</h2>\n<div class=\"grid\">\n"@ + summary_cells(lang, m)
        + skipped_cell(lang, skipped) + elapsed_cells(lang, elapsed, size_sum(m.entries@))
        + cell_text(tr(lang, "完成时间"@, "Completed"@), human_time(created)) + "</div>\n"@
}

/// The rows of the failure list.
pub open spec fn failure_rows(fs: Seq<(String, String, u32)>) -> Seq<char>
    decreases fs.len(),
{
    if fs.len() == 0 {
        Seq::empty()
    } else {
        failure_rows(fs.drop_last()) + "<tr><td>"@ + esc(fs.last().0@) + "</td><td>"@ + esc(fs.last().1@)
            + "</td><td class=\"num\">"@ + dec(fs.last().2 as nat) + "</td></tr>\n"@
    }
}

/// The failure list, never folded away; nothing when nothing failed.
pub open spec fn failures_text(lang: Locale, fs: Seq<(String, String, u32)>) -> Seq<char> {
    if fs.len() == 0 {
        Seq::empty()
    } else {
        "<h2>"@ + tr(lang, "失败清单"@, "Failures"@) + "</h2>\n<table>\n<thead><tr><th>"@ + tr(lang, "文件"@, "File"@)
            + "</th><th>"@ + tr(lang, "原因"@, "Reason"@) + "</th><th class=\"num\">"@ + tr(lang, "重试"@, "Retries"@)
            + "</th></tr></thead>\n<tbody>\n"@ + failure_rows(fs) + "</tbody>\n</table>\n"@
    }
}

/// One count of the audit.
pub open spec fn audit_cell(k: Seq<char>, v: nat, t: Seq<char>) -> Seq<char> {
    "<div class=\"cell\"><div class=\"k\">"@ + k + "</div><div class=\"v\"><span class=\"tag "@ + t + "\">"@ + dec(v)
        + "</span></div></div>\n"@
}

/// The rows of the missing-file list.
pub open spec fn missing_rows(ms: Seq<MissingItem>) -> Seq<char>
    decreases ms.len(),
{
    if ms.len() == 0 {
        Seq::empty()
    } else {
        missing_rows(ms.drop_last()) + "<tr><td>"@ + esc(ms.last().relative_path@) + "</td><td class=\"num\">"@
            + size_text(ms.last().size as nat) + "</td><td class=\"mono\">"@ + esc(ms.last().expected_hash@)
            + "</td></tr>\n"@
    }
}

/// The audit's four counts.
pub open spec fn audit_counts_text(lang: Locale, a: AuditReport) -> Seq<char> {
    "<h2>"@ + tr(lang, "复验结果"@, "Re-verification"@) + "</h2>\n<div class=\"grid\">\n"@
        + audit_cell(tr(lang, "一致"@, "Intact"@), a.intact@.len(), "t-ok"@)
        + audit_cell(tr(lang, "已移动"@, "Moved"@), a.moved@.len(), "t-warn"@)
        + audit_cell(tr(lang, "丢失"@, "Missing"@), a.missing@.len(), "t-bad"@)
        + audit_cell(tr(lang, "新增"@, "Added"@), a.added@.len(), "t-warn"@)
        + "</div>\n"@
}

/// The note shown when the audit was cut short.
pub open spec fn audit_notice_text(lang: Locale, complete: bool) -> Seq<char> {
    if !complete {
        "<div class=\"notice\">"@ + tr(
            lang,
            "复验被中断，结果不完整。"@,
            "Re-verification was interrupted; the result is incomplete."@,
        ) + "</div>\n"@
    } else {
        Seq::empty()
    }
}

/// The table of missing files, when any are missing.
pub open spec fn missing_table_text(lang: Locale, ms: Seq<MissingItem>) -> Seq<char> {
    if ms.len() > 0 {
        "<table>\n<thead><tr><th>"@ + tr(lang, "丢失的文件"@, "Missing files"@) + "</th><th class=\"num\">"@
            + tr(lang, "大小"@, "Size"@) + "</th><th>"@ + tr(lang, "期望校验值"@, "Expected hash"@)
            + "</th></tr></thead>\n<tbody>\n"@ + missing_rows(ms) + "</tbody>\n</table>\n"@
    } else {
        Seq::empty()
    }
}

/// The audit's four counts, a note when it was cut short, and the missing files.
pub open spec fn audit_text(lang: Locale, a: AuditReport) -> Seq<char> {
    audit_counts_text(lang, a) + audit_notice_text(lang, a.complete) + missing_table_text(lang, a.missing@)
}

/// One row of the file list.
pub open spec fn file_row(lang: Locale, e: ManifestEntry) -> Seq<char> {
    let verified = e.verify is Verified;
    "<tr><td>"@ + esc(e.relative_path@) + "</td><td class=\"num\">"@ + size_text(e.size as nat)
        + "</td><td class=\"mono\">"@ + esc(hash_hex(e.source_hash)) + "</td><td><span class=\"tag "@
        + (if verified { "t-ok"@ } else { "t-warn"@ }) + "\">"@
        + (if verified { tr(lang, "已校验"@, "Verified"@) } else { tr(lang, "未校验"@, "Not verified"@) })
        + "</span></td></tr>\n"@
}

/// The rows of the file list.
pub open spec fn file_rows(lang: Locale, es: Seq<ManifestEntry>) -> Seq<char>
    decreases es.len(),
{
    if es.len() == 0 {
        Seq::empty()
    } else {
        file_rows(lang, es.drop_last()) + file_row(lang, es.last())
    }
}

/// The file list.
pub open spec fn files_text(lang: Locale, es: Seq<ManifestEntry>) -> Seq<char> {
    "<h2>"@ + tr(lang, "文件清单"@, "File list"@) + "</h2>\n<table>\n<thead><tr><th>"@ + tr(lang, "文件"@, "File"@)
        + "</th><th class=\"num\">"@ + tr(lang, "大小"@, "Size"@) + "</th><th>"@ + tr(lang, "校验值"@, "Hash"@)
        + "</th><th>"@ + tr(lang, "状态"@, "Status"@) + "</th></tr></thead>\n<tbody>\n"@ + file_rows(lang, es)
        + "</tbody>\n</table>\n"@
}

/// The footer and the end of the document.
pub open spec fn footer_text(lang: Locale, m: Manifest) -> Seq<char> {
    let f = tr(
        lang,
        "由 "@ + m.generator.name@ + " "@ + m.generator.version@ + " 生成 · 校验算法 "@ + algo_text(m.algorithm)
            + " · 本报告为单文件，可离线打开，也可用浏览器打印为 PDF"@,
        "Generated by "@ + m.generator.name@ + " "@ + m.generator.version@ + " · hash "@ + algo_text(m.algorithm)
            + " · a single self-contained file: opens offline, prints to PDF"@,
    );
    "<footer>"@ + esc(f) + "</footer>\n"@ + "</body>\n</html>\n"@
}

/// The whole report, given the reading of the generation time and of the manifest's
/// creation time.
pub open spec fn report_text(input: ReportInput, generated: DateParts, created: DateParts) -> Seq<char> {
    let lang = input.lang;
    let m = *input.manifest;
    let total = m.entries@.len();
    let verified = done_count(m.entries@);
    let failed = input.failures@.len();
    head_text(lang, m) + title_text(lang, m, generated)
        + "<div class=\"verdict "@ + verdict_class(total, verified, failed) + "\">"@
        + esc(verdict_text(lang, total, verified, failed, size_sum(m.entries@))) + "</div>\n"@
        + notices_text(input.notices@)
        + summary_text(lang, m, input.skipped as nat, input.elapsed_secs, created)
        + failures_text(lang, input.failures@)
        + (match input.audit {
            Some(a) => audit_text(lang, *a),
            None => Seq::empty(),
        })
        + files_text(lang, m.entries@)
        + footer_text(lang, m)
}

fn w(lang: Locale, zh: &'static str, en: &'static str) -> (r: &'static str)
    ensures
        r@ == tr(lang, zh@, en@),
{
    lang.pick(zh, en)
}

/// A size for people with two decimals (`1.00 MB`); below 1 KB, plain bytes.
pub fn human_bytes(n: u64) -> (r: String)
    ensures
        r@ == size_text(n as nat),
{
    proof {
        assert(pow1024(0) == 1);
        assert(pow1024(1) == 1024);
        assert(pow1024(2) == 1048576);
        assert(pow1024(3) == 1073741824);
        assert(pow1024(4) == 1099511627776);
    }
    let mut s = String::new();
    if n < 1024 {
        push_dec(&mut s, n);
        push_str(&mut s, " B");
        proof {
            assert(s@ =~= size_text(n as nat));
        }
        return s;
    }
    let (d, unit): (u64, &str) = if n >= 1099511627776 {
        (1099511627776, "TB")
    } else if n >= 1073741824 {
        (1073741824, "GB")
    } else if n >= 1048576 {
        (1048576, "MB")
    } else {
        (1024, "KB")
    };
    let x: u128 = (n as u128) * 100;
    let dd: u128 = d as u128;
    let q: u128 = x / dd;
    let rem: u128 = x % dd;
    let c: u128 = if rem > dd - rem {
        q + 1
    } else if rem < dd - rem {
        q
    } else if q % 2 == 0 {
        q
    } else {
        q + 1
    };
    proof {
        assert(q <= x) by (nonlinear_arith)
            requires
                q == x / dd,
                dd >= 1,
        ;
        assert(c / 100 <= n);
    }
    let whole: u64 = (c / 100) as u64;
    let frac: u64 = (c % 100) as u64;
    push_dec(&mut s, whole);
    push_str(&mut s, ".");
    push_dec_pad(&mut s, frac, 2);
    push_str(&mut s, " ");
    push_str(&mut s, unit);
    proof {
        let i = unit_of(n as nat);
        assert(i >= 1);
        assert(d as nat == pow1024(i));
        assert(unit@ == unit_name(i));
        assert(x as nat == (n as nat) * 100);
        assert(q as nat == ((n as nat) * 100) / (d as nat));
        assert(rem as nat == ((n as nat) * 100) % (d as nat));
        assert(c as nat == round_half_even((n as nat) * 100, pow1024(i)));
        assert(whole as nat == (c as nat) / 100);
        assert(frac as nat == (c as nat) % 100);
        assert(s@ =~= size_text(n as nat));
    }
    s
}

/// A duration for people: `不到 1 秒`, `45 秒`, `2 分 5 秒`, `1 小时 3 分` (or in English).
pub fn human_duration(secs: u64, lang: Locale) -> (r: String)
    ensures
        r@ == duration_text(secs as nat, lang),
{
    let mut s = String::new();
    if secs == 0 {
        push_str(&mut s, w(lang, "不到 1 秒", "under 1s"));
    } else if secs < 60 {
        push_dec(&mut s, secs);
        push_str(&mut s, w(lang, " 秒", "s"));
    } else if secs < 3600 {
        push_dec(&mut s, secs / 60);
        push_str(&mut s, w(lang, " 分 ", "m "));
        push_dec(&mut s, secs % 60);
        push_str(&mut s, w(lang, " 秒", "s"));
    } else {
        push_dec(&mut s, secs / 3600);
        push_str(&mut s, w(lang, " 小时 ", "h "));
        push_dec(&mut s, (secs % 3600) / 60);
        push_str(&mut s, w(lang, " 分", "m"));
    }
    proof {
        assert(s@ =~= duration_text(secs as nat, lang));
    }
    s
}

fn push_cell(h: &mut String, k: &str, v: &str)
    ensures
        final(h)@ == old(h)@ + cell_text(k@, v@),
{
    let ghost before = h@;
    push_str(h, "<div class=\"cell\"><div class=\"k\">");
    push_escaped(h, k, false);
    push_str(h, "</div><div class=\"v\">");
    push_escaped(h, v, false);
    push_str(h, "</div></div>\n");
    proof {
        assert(h@ =~= before + cell_text(k@, v@));
    }
}

fn algo_name(a: HashAlgorithm) -> (r: &'static str)
    ensures
        r@ == algo_text(a),
{
    a.id()
}

fn push_head(h: &mut String, lang: Locale, m: &Manifest)
    ensures
        final(h)@ == old(h)@ + head_text(lang, *m),
{
    let ghost before = h@;
    push_str(h, "<!DOCTYPE html>\n<html lang=\"");
    push_str(h, w(lang, "zh-CN", "en"));
    push_str(h, "\">\n<head>\n<meta charset=\"utf-8\">\n");
    push_str(h, "<title>");
    push_str(h, w(lang, "拷卡报告", "Copy report"));
    push_str(h, " · ");
    push_escaped(h, m.project.as_str(), false);
    push_str(h, " · ");
    push_escaped(h, m.source.display_name.as_str(), false);
    push_str(h, "</title>\n<style>");
    push_str(h, REPORT_STYLE);
    push_str(h, "</style>\n</head>\n<body>\n");
    proof {
        assert(h@ =~= before + head_text(lang, *m));
    }
}

fn push_title(h: &mut String, lang: Locale, m: &Manifest, generated: DateParts)
    ensures
        final(h)@ == old(h)@ + title_text(lang, *m, generated),
{
    let ghost before = h@;
    let mut sub = String::new();
    match lang {
        Locale::Zh => {
            push_str(&mut sub, "项目「");
            push_str(&mut sub, m.project.as_str());
            push_str(&mut sub, "」 · 来源「");
            push_str(&mut sub, m.source.display_name.as_str());
            push_str(&mut sub, "」 · 生成于 ");
        },
        Locale::En => {
            push_str(&mut sub, "Project ");
            push_str(&mut sub, m.project.as_str());
            push_str(&mut sub, " · Source ");
            push_str(&mut sub, m.source.display_name.as_str());
            push_str(&mut sub, " · Generated ");
        },
    }
    push_human_time(&mut sub, generated);
    proof {
        assert(sub@ =~= tr(
            lang,
            "项目「"@ + m.project@ + "」 · 来源「"@ + m.source.display_name@ + "」 · 生成于 "@ + human_time(generated),
            "Project "@ + m.project@ + " · Source "@ + m.source.display_name@ + " · Generated "@ + human_time(generated),
        ));
    }
    push_str(h, "<h1>");
    push_str(h, w(lang, "拷卡报告", "Copy report"));
    push_str(h, "</h1>\n<div class=\"sub\">");
    push_escaped(h, sub.as_str(), false);
    push_str(h, "</div>\n");
    proof {
        assert(h@ =~= before + title_text(lang, *m, generated));
    }
}

fn verdict(lang: Locale, total: u64, verified: u64, failed: u64, bytes: u64) -> (r: (&'static str, String))
    ensures
        r.0@ == verdict_class(total as nat, verified as nat, failed as nat),
        r.1@ == verdict_text(lang, total as nat, verified as nat, failed as nat, bytes as nat),
{
    let mut s = String::new();
    if failed > 0 {
        match lang {
            Locale::Zh => {
                push_str(&mut s, "部分失败：");
                push_dec(&mut s, verified);
                push_str(&mut s, " 个文件校验通过，");
                push_dec(&mut s, failed);
                push_str(&mut s, " 个失败（详见下方失败清单）");
            },
            Locale::En => {
                push_str(&mut s, "Partly failed: ");
                push_dec(&mut s, verified);
                push_str(&mut s, " verified, ");
                push_dec(&mut s, failed);
                push_str(&mut s, " failed — see the failure list below");
            },
        }
        proof {
            assert(s@ =~= verdict_text(lang, total as nat, verified as nat, failed as nat, bytes as nat));
        }
        ("v-bad", s)
    } else if verified == total && total > 0 {
        let size = human_bytes(bytes);
        match lang {
            Locale::Zh => {
                push_str(&mut s, "全部 ");
                push_dec(&mut s, total);
                push_str(&mut s, " 个文件校验通过，共 ");
                push_str(&mut s, size.as_str());
            },
            Locale::En => {
                push_str(&mut s, "All ");
                push_dec(&mut s, total);
                push_str(&mut s, " file(s) verified · ");
                push_str(&mut s, size.as_str());
                push_str(&mut s, " total");
            },
        }
        proof {
            assert(s@ =~= verdict_text(lang, total as nat, verified as nat, failed as nat, bytes as nat));
        }
        ("v-ok", s)
    } else if total == 0 {
        push_str(&mut s, w(lang, "本次没有拷贝任何文件", "Nothing was copied this time"));
        proof {
            assert(s@ =~= verdict_text(lang, total as nat, verified as nat, failed as nat, bytes as nat));
        }
        ("v-warn", s)
    } else {
        push_dec(&mut s, total);
        push_str(&mut s, w(
            lang,
            " 个文件已拷贝，但本次未开启校验——无法确认写入是否完好",
            " file(s) copied, but verification was off — whether they landed intact is unknown",
        ));
        proof {
            assert(s@ =~= verdict_text(lang, total as nat, verified as nat, failed as nat, bytes as nat));
        }
        ("v-warn", s)
    }
}

fn push_notices(h: &mut String, ns: &[String])
    ensures
        final(h)@ == old(h)@ + notices_text(ns@),
{
    let ghost before = h@;
    let mut i: usize = 0;
    while i < ns.len()
        invariant
            i <= ns@.len(),
            h@ == before + notices_text(ns@.take(i as int)),
        decreases ns@.len() - i,
    {
        proof {
            assert(ns@.take(i + 1).drop_last() =~= ns@.take(i as int));
        }
        push_str(h, "<div class=\"notice\">");
        push_escaped(h, ns[i].as_str(), false);
        push_str(h, "</div>\n");
        proof {
            assert(h@ =~= before + notices_text(ns@.take(i + 1)));
        }
        i = i + 1;
    }
    proof {
        assert(ns@.take(ns@.len() as int) =~= ns@);
    }
}

fn verification_label(lang: Locale, total: u64, verified: u64, a: HashAlgorithm) -> (r: String)
    ensures
        r@ == verification_text(lang, total as nat, verified as nat, a),
{
    let mut s = String::new();
    if verified == total && total > 0 {
        push_str(&mut s, w(lang, "已校验", "Verified"));
        push_str(&mut s, " · ");
        push_str(&mut s, algo_name(a));
    } else if verified == 0 {
        push_str(&mut s, w(lang, "未开启", "Off"));
    } else {
        push_dec(&mut s, verified);
        push_str(&mut s, "/");
        push_dec(&mut s, total);
        push_str(&mut s, " ");
        push_str(&mut s, w(lang, "已校验", "verified"));
        push_str(&mut s, " · ");
        push_str(&mut s, algo_name(a));
    }
    proof {
        assert(s@ =~= verification_text(lang, total as nat, verified as nat, a));
    }
    s
}

#[verifier::spinoff_prover]
fn push_summary_cells(h: &mut String, lang: Locale, m: &Manifest)
    requires
        size_sum(m.entries@) <= u64::MAX,
    ensures
        final(h)@ == old(h)@ + summary_cells(lang, *m),
{
    reveal(summary_cells);
    let ghost before = h@;
    let total: u64 = m.entries.len() as u64;
    let verified: u64 = m.verified_count() as u64;
    let bytes: u64 = m.total_bytes();
    push_cell(h, w(lang, "项目", "Project"), m.project.as_str());
    push_cell(h, w(lang, "来源设备", "Source device"), m.source.display_name.as_str());
    push_cell(h, w(lang, "目的地", "Destination"), m.destination_root.as_str());
    let count = crate::text::decimal(total);
    push_cell(h, w(lang, "文件数", "Files"), count.as_str());
    let size = human_bytes(bytes);
    push_cell(h, w(lang, "总大小", "Total size"), size.as_str());
    let vlabel = verification_label(lang, total, verified, m.algorithm);
    push_cell(h, w(lang, "校验", "Verification"), vlabel.as_str());
    proof {
        assert(h@ =~= before + summary_cells(lang, *m));
    }
}

fn push_skipped_cell(h: &mut String, lang: Locale, skipped: usize)
    ensures
        final(h)@ == old(h)@ + skipped_cell(lang, skipped as nat),
{
    reveal(skipped_cell);
    if skipped > 0 {
        let mut t = String::new();
        push_dec(&mut t, skipped as u64);
        push_str(&mut t, w(lang, " 个（此前已拷并校验通过）", " (already copied and verified)"));
        proof {
            assert(t@ =~= tr(lang, dec(skipped as nat) + " 个（此前已拷并校验通过）"@, dec(skipped as nat) + " (already copied and verified)"@));
        }
        push_cell(h, w(lang, "已跳过", "Skipped"), t.as_str());
    } else {
        proof {
            assert(h@ =~= h@ + skipped_cell(lang, skipped as nat));
        }
    }
}

fn push_elapsed_cells(h: &mut String, lang: Locale, elapsed: Option<u64>, bytes: u64)
    ensures
        final(h)@ == old(h)@ + elapsed_cells(lang, elapsed, bytes as nat),
{
    reveal(elapsed_cells);
    let ghost before = h@;
    match elapsed {
        Some(s) => {
            let d = human_duration(s, lang);
            push_cell(h, w(lang, "耗时", "Elapsed"), d.as_str());
            if s > 0 {
                let mut sp = human_bytes(bytes / s);
                push_str(&mut sp, "/s");
                push_cell(h, w(lang, "平均速度", "Average speed"), sp.as_str());
            }
        },
        None => {},
    }
    proof {
        assert(h@ =~= before + elapsed_cells(lang, elapsed, bytes as nat));
    }
}

fn push_summary(h: &mut String, lang: Locale, m: &Manifest, skipped: usize, elapsed: Option<u64>, created: DateParts)
    requires
        size_sum(m.entries@) <= u64::MAX,
    ensures
        final(h)@ == old(h)@ + summary_text(lang, *m, skipped as nat, elapsed, created),
{
    let ghost before = h@;
    let mut when = String::new();
    push_human_time(&mut when, created);
    let bytes = m.total_bytes();
    let mut body = String::new();
    push_summary_cells(&mut body, lang, m);
    push_skipped_cell(&mut body, lang, skipped);
    push_elapsed_cells(&mut body, lang, elapsed, bytes);
    push_cell(&mut body, w(lang, "完成时间", "Completed"), when.as_str());
    proof {
        assert(when@ =~= human_time(created));
        assert(body@ =~= summary_cells(lang, *m) + skipped_cell(lang, skipped as nat)
            + elapsed_cells(lang, elapsed, size_sum(m.entries@))
            + cell_text(tr(lang, "完成时间"@, "Completed"@), human_time(created)));
    }
    push_str(h, "<h2>");
    push_str(h, w(lang, "概要", "Summary"));
    push_str(h, "</h2>\n<div class=\"grid\">\n");
    push_str(h, body.as_str());
    push_str(h, "</div>\n");
    proof {
        assert(h@ =~= before + summary_text(lang, *m, skipped as nat, elapsed, created));
    }
}

fn push_failures(h: &mut String, lang: Locale, fs: &[(String, String, u32)])
    ensures
        final(h)@ == old(h)@ + failures_text(lang, fs@),
{
    if fs.len() == 0 {
        proof {
            assert(h@ =~= h@ + failures_text(lang, fs@));
        }
        return;
    }
    let ghost before = h@;
    push_str(h, "<h2>");
    push_str(h, w(lang, "失败清单", "Failures"));
    push_str(h, "</h2>\n<table>\n<thead><tr><th>");
    push_str(h, w(lang, "文件", "File"));
    push_str(h, "</th><th>");
    push_str(h, w(lang, "原因", "Reason"));
    push_str(h, "</th><th class=\"num\">");
    push_str(h, w(lang, "重试", "Retries"));
    push_str(h, "</th></tr></thead>\n<tbody>\n");
    let ghost mid = h@;
    let mut i: usize = 0;
    while i < fs.len()
        invariant
            i <= fs@.len(),
            h@ == mid + failure_rows(fs@.take(i as int)),
        decreases fs@.len() - i,
    {
        proof {
            assert(fs@.take(i + 1).drop_last() =~= fs@.take(i as int));
        }
        push_str(h, "<tr><td>");
        push_escaped(h, fs[i].0.as_str(), false);
        push_str(h, "</td><td>");
        push_escaped(h, fs[i].1.as_str(), false);
        push_str(h, "</td><td class=\"num\">");
        push_dec(h, fs[i].2 as u64);
        push_str(h, "</td></tr>\n");
        proof {
            assert(h@ =~= mid + failure_rows(fs@.take(i + 1)));
        }
        i = i + 1;
    }
    proof {
        assert(fs@.take(fs@.len() as int) =~= fs@);
    }
    push_str(h, "</tbody>\n</table>\n");
    proof {
        assert(h@ =~= before + failures_text(lang, fs@));
    }
}

fn push_audit_cell(h: &mut String, k: &str, v: usize, t: &str)
    ensures
        final(h)@ == old(h)@ + audit_cell(k@, v as nat, t@),
{
    let ghost before = h@;
    push_str(h, "<div class=\"cell\"><div class=\"k\">");
    push_str(h, k);
    push_str(h, "</div><div class=\"v\"><span class=\"tag ");
    push_str(h, t);
    push_str(h, "\">");
    push_dec(h, v as u64);
    push_str(h, "</span></div></div>\n");
    proof {
        assert(h@ =~= before + audit_cell(k@, v as nat, t@));
    }
}

fn push_missing_rows(h: &mut String, ms: &Vec<MissingItem>)
    ensures
        final(h)@ == old(h)@ + missing_rows(ms@),
{
    let ghost before = h@;
    let mut i: usize = 0;
    while i < ms.len()
        invariant
            i <= ms@.len(),
            h@ == before + missing_rows(ms@.take(i as int)),
        decreases ms@.len() - i,
    {
        proof {
            assert(ms@.take(i + 1).drop_last() =~= ms@.take(i as int));
        }
        let x = &ms[i];
        push_str(h, "<tr><td>");
        push_escaped(h, x.relative_path.as_str(), false);
        push_str(h, "</td><td class=\"num\">");
        let size = human_bytes(x.size);
        push_str(h, size.as_str());
        push_str(h, "</td><td class=\"mono\">");
        push_escaped(h, x.expected_hash.as_str(), false);
        push_str(h, "</td></tr>\n");
        proof {
            assert(h@ =~= before + missing_rows(ms@.take(i + 1)));
        }
        i = i + 1;
    }
    proof {
        assert(ms@.take(ms@.len() as int) =~= ms@);
    }
}

fn push_audit_counts(h: &mut String, lang: Locale, a: &AuditReport)
    ensures
        final(h)@ == old(h)@ + audit_counts_text(lang, *a),
{
    let ghost before = h@;
    let c = a.counts();
    push_str(h, "<h2>");
    push_str(h, w(lang, "复验结果", "Re-verification"));
    push_str(h, "</h2>\n<div class=\"grid\">\n");
    push_audit_cell(h, w(lang, "一致", "Intact"), c.intact, "t-ok");
    push_audit_cell(h, w(lang, "已移动", "Moved"), c.moved, "t-warn");
    push_audit_cell(h, w(lang, "丢失", "Missing"), c.missing, "t-bad");
    push_audit_cell(h, w(lang, "新增", "Added"), c.added, "t-warn");
    push_str(h, "</div>\n");
    proof {
        assert(h@ =~= before + audit_counts_text(lang, *a));
    }
}

fn push_audit_notice(h: &mut String, lang: Locale, complete: bool)
    ensures
        final(h)@ == old(h)@ + audit_notice_text(lang, complete),
{
    let ghost before = h@;
    if !complete {
        push_str(h, "<div class=\"notice\">");
        push_str(h, w(lang, "复验被中断，结果不完整。", "Re-verification was interrupted; the result is incomplete."));
        push_str(h, "</div>\n");
    }
    proof {
        assert(h@ =~= before + audit_notice_text(lang, complete));
    }
}

fn push_missing_table(h: &mut String, lang: Locale, ms: &Vec<MissingItem>)
    ensures
        final(h)@ == old(h)@ + missing_table_text(lang, ms@),
{
    let ghost before = h@;
    if ms.len() > 0 {
        push_str(h, "<table>\n<thead><tr><th>");
        push_str(h, w(lang, "丢失的文件", "Missing files"));
        push_str(h, "</th><th class=\"num\">");
        push_str(h, w(lang, "大小", "Size"));
        push_str(h, "</th><th>");
        push_str(h, w(lang, "期望校验值", "Expected hash"));
        push_str(h, "</th></tr></thead>\n<tbody>\n");
        push_missing_rows(h, ms);
        push_str(h, "</tbody>\n</table>\n");
    }
    proof {
        assert(h@ =~= before + missing_table_text(lang, ms@));
    }
}

fn push_audit(h: &mut String, lang: Locale, a: &AuditReport)
    ensures
        final(h)@ == old(h)@ + audit_text(lang, *a),
{
    let ghost before = h@;
    push_audit_counts(h, lang, a);
    push_audit_notice(h, lang, a.complete);
    push_missing_table(h, lang, &a.missing);
    proof {
        assert(h@ =~= before + audit_text(lang, *a));
    }
}

fn push_file_row(h: &mut String, lang: Locale, e: &ManifestEntry)
    ensures
        final(h)@ == old(h)@ + file_row(lang, *e),
{
    let ghost before = h@;
    let (tag, label): (&str, &str) = if e.verify.is_verified() {
        ("t-ok", w(lang, "已校验", "Verified"))
    } else {
        ("t-warn", w(lang, "未校验", "Not verified"))
    };
    push_str(h, "<tr><td>");
    push_escaped(h, e.relative_path.as_str(), false);
    push_str(h, "</td><td class=\"num\">");
    let size = human_bytes(e.size);
    push_str(h, size.as_str());
    push_str(h, "</td><td class=\"mono\">");
    let hx = e.source_hash.to_hex();
    push_escaped(h, hx.as_str(), false);
    push_str(h, "</td><td><span class=\"tag ");
    push_str(h, tag);
    push_str(h, "\">");
    push_str(h, label);
    push_str(h, "</span></td></tr>\n");
    proof {
        assert(h@ =~= before + file_row(lang, *e));
    }
}

fn push_files(h: &mut String, lang: Locale, es: &Vec<ManifestEntry>)
    ensures
        final(h)@ == old(h)@ + files_text(lang, es@),
{
    let ghost before = h@;
    push_str(h, "<h2>");
    push_str(h, w(lang, "文件清单", "File list"));
    push_str(h, "</h2>\n<table>\n<thead><tr><th>");
    push_str(h, w(lang, "文件", "File"));
    push_str(h, "</th><th class=\"num\">");
    push_str(h, w(lang, "大小", "Size"));
    push_str(h, "</th><th>");
    push_str(h, w(lang, "校验值", "Hash"));
    push_str(h, "</th><th>");
    push_str(h, w(lang, "状态", "Status"));
    push_str(h, "</th></tr></thead>\n<tbody>\n");
    let ghost mid = h@;
    let mut i: usize = 0;
    while i < es.len()
        invariant
            i <= es@.len(),
            h@ == mid + file_rows(lang, es@.take(i as int)),
        decreases es@.len() - i,
    {
        proof {
            assert(es@.take(i + 1).drop_last() =~= es@.take(i as int));
        }
        push_file_row(h, lang, &es[i]);
        proof {
            assert(h@ =~= mid + file_rows(lang, es@.take(i + 1)));
        }
        i = i + 1;
    }
    proof {
        assert(es@.take(es@.len() as int) =~= es@);
    }
    push_str(h, "</tbody>\n</table>\n");
    proof {
        assert(h@ =~= before + files_text(lang, es@));
    }
}

fn push_footer(h: &mut String, lang: Locale, m: &Manifest)
    ensures
        final(h)@ == old(h)@ + footer_text(lang, *m),
{
    let ghost before = h@;
    let mut f = String::new();
    match lang {
        Locale::Zh => {
            push_str(&mut f, "由 ");
            push_str(&mut f, m.generator.name.as_str());
            push_str(&mut f, " ");
            push_str(&mut f, m.generator.version.as_str());
            push_str(&mut f, " 生成 · 校验算法 ");
            push_str(&mut f, algo_name(m.algorithm));
            push_str(&mut f, " · 本报告为单文件，可离线打开，也可用浏览器打印为 PDF");
        },
        Locale::En => {
            push_str(&mut f, "Generated by ");
            push_str(&mut f, m.generator.name.as_str());
            push_str(&mut f, " ");
            push_str(&mut f, m.generator.version.as_str());
            push_str(&mut f, " · hash ");
            push_str(&mut f, algo_name(m.algorithm));
            push_str(&mut f, " · a single self-contained file: opens offline, prints to PDF");
        },
    }
    push_str(h, "<footer>");
    push_escaped(h, f.as_str(), false);
    push_str(h, "</footer>\n");
    push_str(h, "</body>\n</html>\n");
    proof {
        assert(h@ =~= before + footer_text(lang, *m));
    }
}

/// The report, given how the generation time and the manifest's creation time read.
pub fn render_report_at(input: &ReportInput, generated: DateParts, created: DateParts) -> (r: String)
    requires
        size_sum(input.manifest.entries@) <= u64::MAX,
    ensures
        r@ == report_text(*input, generated, created),
{
    let lang = input.lang;
    let m = input.manifest;
    let total: u64 = m.entries.len() as u64;
    let verified: u64 = m.verified_count() as u64;
    let failed: u64 = input.failures.len() as u64;
    let mut h = String::new();
    push_head(&mut h, lang, m);
    push_title(&mut h, lang, m, generated);
    let (cls, v) = verdict(lang, total, verified, failed, m.total_bytes());
    push_str(&mut h, "<div class=\"verdict ");
    push_str(&mut h, cls);
    push_str(&mut h, "\">");
    push_escaped(&mut h, v.as_str(), false);
    push_str(&mut h, "</div>\n");
    push_notices(&mut h, input.notices);
    push_summary(&mut h, lang, m, input.skipped, input.elapsed_secs, created);
    push_failures(&mut h, lang, input.failures);
    match input.audit {
        Some(a) => push_audit(&mut h, lang, a),
        None => {},
    }
    push_files(&mut h, lang, &m.entries);
    push_footer(&mut h, lang, m);
    proof {
        assert(h@ =~= report_text(*input, generated, created));
    }
    h
}

/// The self-contained HTML report. The times are read from the input's generation
/// time and the manifest's creation time; whatever they read, the text is
/// `report_text` of those readings.
pub fn render_report(input: &ReportInput) -> (r: String)
    requires
        size_sum(input.manifest.entries@) <= u64::MAX,
    ensures
        r@ == report_text(*input, parts_of(input.generated_at), parts_of(input.manifest.created_at)),
{
    let g = date_parts(&input.generated_at);
    let c = date_parts(&input.manifest.created_at);
    render_report_at(input, g, c)
}

} // verus!
