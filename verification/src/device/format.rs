//! Formatting a card: the safety checks that come first, and the rules around them.
//!
//! This feature is built to be hard to misuse rather than convenient: whenever the
//! two pull apart, safety wins. Removability is proved positively; when nothing can
//! be proved, the answer is no. Every check's verdict is computed without looking at
//! the language; the language only chooses the words of its detail.

use vstd::prelude::*;
use crate::device::volume::{bus_label, external_bus, on_any_destination, BusType, Volume};
use crate::i18n::Locale;
use crate::ledger::db::{TaskRecord, TaskStatus};
use crate::manifest::model::{Manifest, ManifestEntry};
use crate::text::{dec, join_seq, owned, push_dec, push_str, str_eq, trim, trim_seq, views};

verus! {

/// What can be proved of a volume's removability.
#[derive(Debug, Clone, Copy, PartialEq, Eq, Structural)]
pub enum Removability {
    /// Proved removable (an external bus).
    Provable,
    /// Proved not removable (an internal disk).
    ProvablyFixed,
}

/// Why removability could not be decided. Every one of them means no.
#[derive(Debug, Clone, Copy, PartialEq, Eq, Structural)]
pub enum RemovabilityError {
    /// The bus type could not be found.
    QueryFailed,
    /// The answer gave nothing to decide by.
    Indeterminate,
}

/// The reason given for each undecidable case.
pub open spec fn removability_error_text(e: RemovabilityError, lang: Locale) -> Seq<char> {
    match (e, lang) {
        (RemovabilityError::QueryFailed, Locale::Zh) => "无法确认这是不是可移除介质（查不到总线类型），出于安全拒绝"@,
        (RemovabilityError::QueryFailed, Locale::En) => "Could not confirm this is removable media (bus type unavailable) — refusing, to be safe"@,
        (RemovabilityError::Indeterminate, Locale::Zh) => "无法确认这是不是可移除介质，出于安全拒绝"@,
        (RemovabilityError::Indeterminate, Locale::En) => "Could not confirm this is removable media — refusing, to be safe"@,
    }
}

impl RemovabilityError {
    /// The reason for refusing, in the chosen language.
    pub fn describe(self, lang: Locale) -> (r: &'static str)
        ensures
            r@ == removability_error_text(self, lang),
    {
        match self {
            RemovabilityError::QueryFailed => lang.pick(
                "无法确认这是不是可移除介质（查不到总线类型），出于安全拒绝",
                "Could not confirm this is removable media (bus type unavailable) — refusing, to be safe",
            ),
            RemovabilityError::Indeterminate => lang.pick(
                "无法确认这是不是可移除介质，出于安全拒绝",
                "Could not confirm this is removable media — refusing, to be safe",
            ),
        }
    }
}

/// Removability by the bus: external buses prove it, internal ones disprove it, an
/// unknown bus is a failed query and anything else is undecidable.
pub open spec fn removability_spec(b: BusType) -> Result<Removability, RemovabilityError> {
    if external_bus(b) {
        Ok(Removability::Provable)
    } else if b is Nvme || b is Sata || b is Scsi {
        Ok(Removability::ProvablyFixed)
    } else if b is Unknown {
        Err(RemovabilityError::QueryFailed)
    } else {
        Err(RemovabilityError::Indeterminate)
    }
}

/// Proves positively whether a volume is removable. Never "not on the list of fixed
/// disks, so removable": a failed or empty answer is an error, and callers refuse.
pub fn removability(vol: &Volume) -> (r: Result<Removability, RemovabilityError>)
    ensures
        r == removability_spec(vol.bus_type),
{
    if vol.bus_type.is_external() {
        return Ok(Removability::Provable);
    }
    match vol.bus_type {
        BusType::Nvme | BusType::Sata | BusType::Scsi => Ok(Removability::ProvablyFixed),
        BusType::Unknown => Err(RemovabilityError::QueryFailed),
        _ => Err(RemovabilityError::Indeterminate),
    }
}

/// One safety check: its id, its verdict and the detail shown.
#[derive(Debug, Clone, PartialEq, Eq)]
pub struct CheckResult {
    pub id: String,
    pub passed: bool,
    pub detail: String,
}

/// All safety checks, in order.
#[derive(Debug, Clone, PartialEq, Eq)]
pub struct SafetyReport {
    pub checks: Vec<CheckResult>,
    /// The task whose backup covers the card, when the backup check passed.
    pub backup_task_id: Option<String>,
}

/// Index of the first failed check, or -1.
pub open spec fn first_failed(cs: Seq<CheckResult>) -> int
    decreases cs.len(),
{
    if cs.len() == 0 {
        -1
    } else {
        let r = first_failed(cs.drop_last());
        if r >= 0 { r } else if !cs.last().passed { cs.len() - 1 } else { -1 }
    }
}

proof fn lemma_first_failed(cs: Seq<CheckResult>)
    ensures
        -1 <= first_failed(cs) < cs.len(),
        first_failed(cs) >= 0 ==> !cs[first_failed(cs)].passed,
        forall|j: int| 0 <= j < first_failed(cs) ==> (#[trigger] cs[j]).passed,
        first_failed(cs) < 0 ==> forall|j: int| 0 <= j < cs.len() ==> (#[trigger] cs[j]).passed,
    decreases cs.len(),
{
    if cs.len() > 0 {
        lemma_first_failed(cs.drop_last());
        assert forall|j: int| 0 <= j < cs.len() - 1 implies #[trigger] cs[j] == cs.drop_last()[j] by {}
    }
}

/// The trace of one check: `{id}=ok` or `{id}=fail`.
pub open spec fn check_trace(c: CheckResult) -> Seq<char> {
    c.id@ + "="@ + if c.passed { "ok"@ } else { "fail"@ }
}

impl SafetyReport {
    /// Whether every check passed.
    pub fn passed(&self) -> (r: bool)
        ensures
            r == forall|k: int| 0 <= k < self.checks@.len() ==> (#[trigger] self.checks@[k]).passed,
    {
        let mut i: usize = 0;
        while i < self.checks.len()
            invariant
                i <= self.checks@.len(),
                forall|k: int| 0 <= k < i ==> (#[trigger] self.checks@[k]).passed,
            decreases self.checks@.len() - i,
        {
            if !self.checks[i].passed {
                return false;
            }
            i = i + 1;
        }
        true
    }

    /// The first check that failed: where the user is stopped.
    pub fn first_failure(&self) -> (r: Option<&CheckResult>)
        ensures
            match r {
                Some(c) => first_failed(self.checks@) >= 0 && *c == self.checks@[first_failed(self.checks@)],
                None => first_failed(self.checks@) < 0,
            },
    {
        proof {
            lemma_first_failed(self.checks@);
        }
        let mut i: usize = 0;
        while i < self.checks.len()
            invariant
                i <= self.checks@.len(),
                forall|k: int| 0 <= k < i ==> (#[trigger] self.checks@[k]).passed,
                -1 <= first_failed(self.checks@) < self.checks@.len(),
                first_failed(self.checks@) >= 0 ==> !self.checks@[first_failed(self.checks@)].passed,
                forall|j: int| 0 <= j < first_failed(self.checks@) ==> (#[trigger] self.checks@[j]).passed,
                first_failed(self.checks@) < 0 ==> forall|j: int| 0 <= j < self.checks@.len() ==> (#[trigger] self.checks@[j]).passed,
            decreases self.checks@.len() - i,
        {
            if !self.checks[i].passed {
                proof {
                    let f = first_failed(self.checks@);
                    if f >= 0 && f < i {
                        assert(self.checks@[f].passed);
                    }
                }
                return Some(&self.checks[i]);
            }
            i = i + 1;
        }
        proof {
            let f = first_failed(self.checks@);
            if f >= 0 {
                assert(self.checks@[f].passed);
            }
        }
        None
    }

    /// The compact trace kept for the record: `G1=ok;G2=fail;…`.
    pub fn compact(&self) -> (r: String)
        ensures
            r@ == join_seq(self.checks@.map_values(|c: CheckResult| check_trace(c)), ';'),
    {
        let ghost all = self.checks@.map_values(|c: CheckResult| check_trace(c));
        let mut s = String::new();
        let mut i: usize = 0;
        while i < self.checks.len()
            invariant
                i <= self.checks@.len(),
                all == self.checks@.map_values(|c: CheckResult| check_trace(c)),
                s@ == join_seq(all.take(i as int), ';'),
            decreases self.checks@.len() - i,
        {
            let ghost before = s@;
            if i > 0 {
                crate::text::push_char(&mut s, ';');
            }
            push_str(&mut s, self.checks[i].id.as_str());
            push_str(&mut s, "=");
            if self.checks[i].passed {
                push_str(&mut s, "ok");
            } else {
                push_str(&mut s, "fail");
            }
            proof {
                let t = all.take(i + 1);
                assert(t.drop_last() =~= all.take(i as int));
                assert(t.last() == check_trace(self.checks@[i as int]));
                if i == 0 {
                    assert(before =~= Seq::<char>::empty());
                    assert(s@ =~= t[0]);
                } else {
                    assert(s@ =~= before.push(';') + t.last());
                }
            }
            i = i + 1;
        }
        proof {
            assert(all.take(self.checks@.len() as int) =~= all);
        }
        s
    }
}

/// The evidence for the backup check: the device's latest backup that finished with
/// everything verified, and its manifest.
#[derive(Debug, Clone)]
pub struct BackupEvidence {
    pub task_id: String,
    pub manifest: Manifest,
}

/// The paths of the entries that count as done.
pub open spec fn covered_paths(es: Seq<ManifestEntry>) -> Set<Seq<char>> {
    Set::new(|p: Seq<char>| exists|k: int| 0 <= k < es.len() && (#[trigger] es[k]).verify is Verified && es[k].relative_path@ == p)
}

/// The files of `files` that `covered` does not hold, in order.
pub open spec fn uncovered(files: Seq<Seq<char>>, covered: Set<Seq<char>>) -> Seq<Seq<char>>
    decreases files.len(),
{
    if files.len() == 0 {
        Seq::empty()
    } else {
        let r = uncovered(files.drop_last(), covered);
        if covered.contains(files.last()) { r } else { r.push(files.last()) }
    }
}

/// The verdict and detail of the removability check (G1).
pub open spec fn g1_spec(vol: Volume, lang: Locale) -> (bool, Seq<char>) {
    let b = bus_label(vol.bus_type);
    match removability_spec(vol.bus_type) {
        Ok(Removability::Provable) => if !vol.is_system {
            (true, match lang {
                Locale::Zh => "已确认为可移除介质（"@ + b + " 总线）"@,
                Locale::En => "Confirmed removable media ("@ + b + " bus)"@,
            })
        } else {
            (false, match lang {
                Locale::Zh => "这是系统盘"@,
                Locale::En => "This is the system disk"@,
            })
        },
        Ok(Removability::ProvablyFixed) => (false, match lang {
            Locale::Zh => "这是本机固定盘（"@ + b + " 总线）"@,
            Locale::En => "This is an internal fixed disk ("@ + b + " bus)"@,
        }),
        Err(e) => (false, removability_error_text(e, lang)),
    }
}

/// The detail of the destination check (G2).
pub open spec fn g2_detail(is_dest: bool, lang: Locale) -> Seq<char> {
    match (is_dest, lang) {
        (true, Locale::Zh) => "这个卷是已配置的备份目的地"@,
        (true, Locale::En) => "This volume is a configured backup destination"@,
        (false, Locale::Zh) => "不是任何已配置的目的地"@,
        (false, Locale::En) => "Not one of the configured destinations"@,
    }
}

/// The detail of the idle check (G3).
pub open spec fn g3_detail(busy: bool, lang: Locale) -> Seq<char> {
    match (busy, lang) {
        (true, Locale::Zh) => "该设备上还有任务在进行"@,
        (true, Locale::En) => "A task is still running on this device"@,
        (false, Locale::Zh) => "设备空闲"@,
        (false, Locale::En) => "The device is idle"@,
    }
}

/// The verdict, detail and covering task of the backup check (G4).
pub open spec fn g4_spec(evidence: Option<BackupEvidence>, files: Seq<Seq<char>>, lang: Locale) -> (bool, Seq<char>, Option<Seq<char>>) {
    match evidence {
        None => (false, match lang {
            Locale::Zh => "找不到这张卡已完成且校验通过的备份记录"@,
            Locale::En => "No completed, verified backup of this card was found"@,
        }, None),
        Some(ev) => {
            let covered = covered_paths(ev.manifest.entries@);
            let un = uncovered(files, covered);
            if un.len() == 0 {
                let n = dec(covered.len());
                (true, match lang {
                    Locale::Zh => "已备份并校验通过（"@ + n + " 个文件，"@ + ev.task_id@ + "）"@,
                    Locale::En => "Backed up and verified ("@ + n + " files, "@ + ev.task_id@ + ")"@,
                }, Some(ev.task_id@))
            } else {
                let n = dec(un.len());
                (false, match lang {
                    Locale::Zh => "卡上有 "@ + n + " 个文件不在已校验的备份里（例如 "@ + un[0] + "）"@,
                    Locale::En => n + " file(s) on the card are not in the verified backup (e.g. "@ + un[0] + ")"@,
                }, None)
            }
        },
    }
}

/// The language changes only the words: whether each check passes, and which task
/// covers the card, are the same in every language.
pub proof fn lemma_verdicts_ignore_language(vol: Volume, evidence: Option<BackupEvidence>, files: Seq<Seq<char>>, a: Locale, b: Locale)
    ensures
        g1_spec(vol, a).0 == g1_spec(vol, b).0,
        g4_spec(evidence, files, a).0 == g4_spec(evidence, files, b).0,
        g4_spec(evidence, files, a).2 == g4_spec(evidence, files, b).2,
{
}

/// The distinct paths of the entries that count as done.
fn done_paths(es: &Vec<ManifestEntry>) -> (r: Vec<String>)
    ensures
        views(r@).no_duplicates(),
        views(r@).to_set() == covered_paths(es@),
{
    let mut out: Vec<String> = Vec::new();
    let mut i: usize = 0;
    while i < es.len()
        invariant
            i <= es@.len(),
            views(out@).no_duplicates(),
            views(out@).to_set() == covered_paths(es@.take(i as int)),
        decreases es@.len() - i,
    {
        let ghost o = views(out@);
        proof {
            assert(es@.take(i + 1).drop_last() =~= es@.take(i as int));
        }
        if es[i].counts_as_done() {
            let p = &es[i].relative_path;
            if !crate::map::edit::listed_in(&out, p.as_str()) {
                out.push(p.clone());
                proof {
                    assert(views(out@) =~= o.push(p@));
                }
            }
        }
        proof {
            let t = es@.take(i + 1);
            assert forall|x: Seq<char>| views(out@).to_set().contains(x) == covered_paths(t).contains(x) by {
                if covered_paths(t).contains(x) {
                    let k = choose|k: int| 0 <= k < t.len() && (#[trigger] t[k]).verify is Verified && t[k].relative_path@ == x;
                    if k < i {
                        assert(es@.take(i as int)[k] == t[k]);
                        assert(covered_paths(es@.take(i as int)).contains(x));
                        assert(o.to_set().contains(x));
                        let w = choose|w: int| 0 <= w < o.len() && o[w] == x;
                        assert(views(out@)[w] == x);
                    } else {
                        assert(t[k] == es@[i as int]);
                        if o.contains(x) {
                            let w = choose|w: int| 0 <= w < o.len() && o[w] == x;
                            assert(views(out@)[w] == x);
                        } else {
                            assert(views(out@)[views(out@).len() - 1] == x);
                        }
                    }
                }
                if views(out@).to_set().contains(x) {
                    let w = choose|w: int| 0 <= w < views(out@).len() && views(out@)[w] == x;
                    if w < o.len() {
                        assert(o[w] == x);
                        assert(o.to_set().contains(x));
                        let k = choose|k: int| 0 <= k < es@.take(i as int).len() && (#[trigger] es@.take(i as int)[k]).verify is Verified && es@.take(i as int)[k].relative_path@ == x;
                        assert(t[k] == es@.take(i as int)[k]);
                    } else {
                        assert(t[i as int] == es@[i as int]);
                    }
                }
            }
            assert(views(out@).to_set() =~= covered_paths(t));
        }
        i = i + 1;
    }
    proof {
        assert(es@.take(es@.len() as int) =~= es@);
    }
    out
}

/// The files not covered, in order.
fn uncovered_files(files: &[String], covered: &Vec<String>) -> (r: Vec<String>)
    ensures
        views(r@) == uncovered(views(files@), views(covered@).to_set()),
{
    let ghost cs = views(covered@).to_set();
    let mut out: Vec<String> = Vec::new();
    let mut i: usize = 0;
    while i < files.len()
        invariant
            i <= files@.len(),
            cs == views(covered@).to_set(),
            views(out@) == uncovered(views(files@).take(i as int), cs),
        decreases files@.len() - i,
    {
        let ghost o = views(out@);
        proof {
            assert(views(files@).take(i + 1).drop_last() =~= views(files@).take(i as int));
            assert(views(files@).take(i + 1).last() == files@[i as int]@);
        }
        let inside = crate::map::edit::listed_in(covered, files[i].as_str());
        proof {
            assert(inside == cs.contains(files@[i as int]@));
        }
        if !inside {
            out.push(files[i].clone());
            proof {
                assert(views(out@) =~= o.push(files@[i as int]@));
            }
        }
        i = i + 1;
    }
    proof {
        assert(views(files@).take(files@.len() as int) =~= views(files@));
    }
    out
}

/// A check result.
fn check(id: &str, passed: bool, detail: String) -> (r: CheckResult)
    ensures
        r.id@ == id@,
        r.passed == passed,
        r.detail == detail,
{
    CheckResult { id: owned(id), passed, detail }
}

/// The safety checks before a format, in order:
/// the volume is proved removable and is not the system disk; it holds no destination;
/// no task is running on the device; a finished, verified backup covers every file now
/// on the card. `current_files` are the card's relative paths as scanned now. `lang`
/// chooses only the words of each detail.
pub fn check_safety(
    vol: &Volume,
    destination_roots: &[String],
    device_busy: bool,
    evidence: Option<&BackupEvidence>,
    current_files: &[String],
    lang: Locale,
) -> (r: SafetyReport)
    ensures
        r.checks@.len() == 4,
        r.checks@[0].id@ == "G1"@,
        r.checks@[1].id@ == "G2"@,
        r.checks@[2].id@ == "G3"@,
        r.checks@[3].id@ == "G4"@,
        r.checks@[0].passed == g1_spec(*vol, lang).0,
        r.checks@[0].detail@ == g1_spec(*vol, lang).1,
        r.checks@[1].passed == !on_any_destination(*vol, destination_roots@),
        r.checks@[1].detail@ == g2_detail(on_any_destination(*vol, destination_roots@), lang),
        r.checks@[2].passed == !device_busy,
        r.checks@[2].detail@ == g3_detail(device_busy, lang),
        ({
            let ev = match evidence { Some(e) => Some(*e), None => None };
            let g4 = g4_spec(ev, views(current_files@), lang);
            &&& r.checks@[3].passed == g4.0
            &&& r.checks@[3].detail@ == g4.1
            &&& match r.backup_task_id { Some(t) => g4.2 == Some(t@), None => g4.2 is None }
        }),
{
    let mut checks: Vec<CheckResult> = Vec::new();
    // G1: removability, proved positively.
    let b = vol.bus_type.label();
    let g1 = match removability(vol) {
        Ok(Removability::Provable) => {
            if !vol.is_system {
                let mut d = String::new();
                match lang {
                    Locale::Zh => {
                        push_str(&mut d, "已确认为可移除介质（");
                        push_str(&mut d, b);
                        push_str(&mut d, " 总线）");
                    },
                    Locale::En => {
                        push_str(&mut d, "Confirmed removable media (");
                        push_str(&mut d, b);
                        push_str(&mut d, " bus)");
                    },
                }
                check("G1", true, d)
            } else {
                check("G1", false, owned(lang.pick("这是系统盘", "This is the system disk")))
            }
        },
        Ok(Removability::ProvablyFixed) => {
            let mut d = String::new();
            match lang {
                Locale::Zh => {
                    push_str(&mut d, "这是本机固定盘（");
                    push_str(&mut d, b);
                    push_str(&mut d, " 总线）");
                },
                Locale::En => {
                    push_str(&mut d, "This is an internal fixed disk (");
                    push_str(&mut d, b);
                    push_str(&mut d, " bus)");
                },
            }
            check("G1", false, d)
        },
        Err(e) => check("G1", false, owned(e.describe(lang))),
    };
    proof {
        assert(g1.detail@ =~= g1_spec(*vol, lang).1);
    }
    checks.push(g1);
    // G2: not a destination's volume.
    let is_dest = vol.is_any_destination(destination_roots);
    let d2 = if is_dest {
        lang.pick("这个卷是已配置的备份目的地", "This volume is a configured backup destination")
    } else {
        lang.pick("不是任何已配置的目的地", "Not one of the configured destinations")
    };
    checks.push(check("G2", !is_dest, owned(d2)));
    // G3: the device is idle.
    let d3 = if device_busy {
        lang.pick("该设备上还有任务在进行", "A task is still running on this device")
    } else {
        lang.pick("设备空闲", "The device is idle")
    };
    checks.push(check("G3", !device_busy, owned(d3)));
    // G4: a verified backup covers everything on the card now.
    let ghost ev = match evidence { Some(e) => Some(*e), None => None };
    let (g4_passed, g4_detail, backup_task_id): (bool, String, Option<String>) = match evidence {
        None => (false, owned(lang.pick(
            "找不到这张卡已完成且校验通过的备份记录",
            "No completed, verified backup of this card was found",
        )), None),
        Some(ev) => {
            let covered = done_paths(&ev.manifest.entries);
            let un = uncovered_files(current_files, &covered);
            proof {
                assert(views(covered@).to_set() == covered_paths(ev.manifest.entries@));
            }
            if un.len() == 0 {
                let n = covered.len();
                proof {
                    views(covered@).unique_seq_to_set();
                }
                let mut d = String::new();
                match lang {
                    Locale::Zh => {
                        push_str(&mut d, "已备份并校验通过（");
                        push_dec(&mut d, n as u64);
                        push_str(&mut d, " 个文件，");
                        push_str(&mut d, ev.task_id.as_str());
                        push_str(&mut d, "）");
                    },
                    Locale::En => {
                        push_str(&mut d, "Backed up and verified (");
                        push_dec(&mut d, n as u64);
                        push_str(&mut d, " files, ");
                        push_str(&mut d, ev.task_id.as_str());
                        push_str(&mut d, ")");
                    },
                }
                (true, d, Some(ev.task_id.clone()))
            } else {
                let n = un.len();
                let mut d = String::new();
                match lang {
                    Locale::Zh => {
                        push_str(&mut d, "卡上有 ");
                        push_dec(&mut d, n as u64);
                        push_str(&mut d, " 个文件不在已校验的备份里（例如 ");
                        push_str(&mut d, un[0].as_str());
                        push_str(&mut d, "）");
                    },
                    Locale::En => {
                        push_dec(&mut d, n as u64);
                        push_str(&mut d, " file(s) on the card are not in the verified backup (e.g. ");
                        push_str(&mut d, un[0].as_str());
                        push_str(&mut d, ")");
                    },
                }
                proof {
                    assert(views(un@)[0] == un@[0]@);
                }
                (false, d, None)
            }
        },
    };
    proof {
        let g4 = g4_spec(ev, views(current_files@), lang);
        assert(g4_detail@ =~= g4.1);
    }
    checks.push(check("G4", g4_passed, g4_detail));
    SafetyReport { checks, backup_task_id }
}

/// The default countdown before a format, in seconds.
pub const COUNTDOWN_DEFAULT_SECS: u32 = 30;
/// The shortest countdown allowed, in seconds.
pub const COUNTDOWN_MIN_SECS: u32 = 10;

/// The refusal of a too-short countdown.
pub open spec fn countdown_error(secs: u32, lang: Locale) -> Seq<char> {
    match lang {
        Locale::Zh => "倒计时不能短于 "@ + dec(COUNTDOWN_MIN_SECS as nat) + " 秒（你设的是 "@ + dec(secs as nat) + " 秒）"@,
        Locale::En => "The countdown cannot be shorter than "@ + dec(COUNTDOWN_MIN_SECS as nat) + "s (you set "@ + dec(secs as nat) + "s)"@,
    }
}

/// Checks a configured countdown: below the minimum it is refused, whatever the
/// language (which only words the refusal).
pub fn validate_countdown(secs: u32, lang: Locale) -> (r: Result<u32, String>)
    ensures
        match r {
            Ok(v) => secs >= COUNTDOWN_MIN_SECS && v == secs,
            Err(m) => secs < COUNTDOWN_MIN_SECS && m@ == countdown_error(secs, lang),
        },
{
    if secs < COUNTDOWN_MIN_SECS {
        let mut m = String::new();
        match lang {
            Locale::Zh => {
                push_str(&mut m, "倒计时不能短于 ");
                push_dec(&mut m, COUNTDOWN_MIN_SECS as u64);
                push_str(&mut m, " 秒（你设的是 ");
                push_dec(&mut m, secs as u64);
                push_str(&mut m, " 秒）");
            },
            Locale::En => {
                push_str(&mut m, "The countdown cannot be shorter than ");
                push_dec(&mut m, COUNTDOWN_MIN_SECS as u64);
                push_str(&mut m, "s (you set ");
                push_dec(&mut m, secs as u64);
                push_str(&mut m, "s)");
            },
        }
        proof {
            assert(m@ =~= countdown_error(secs, lang));
        }
        return Err(m);
    }
    Ok(secs)
}

/// The word a card without a label is confirmed with. It does not follow the
/// language: the check must not change with it.
pub const BLANK_LABEL_PHRASE: &'static str = "格式化";

/// The phrase the user must type for a card: its label without surrounding white
/// space, or [`BLANK_LABEL_PHRASE`] when that is empty.
pub open spec fn phrase_of(label: Seq<char>) -> Seq<char> {
    if trim_seq(label).len() == 0 { BLANK_LABEL_PHRASE@ } else { trim_seq(label) }
}

/// The phrase the user must type to confirm formatting this card.
pub fn confirmation_phrase(label: &str) -> (r: String)
    ensures
        r@ == phrase_of(label@),
{
    let t = trim(label);
    if crate::text::chars_of(t.as_str()).len() == 0 {
        owned(BLANK_LABEL_PHRASE)
    } else {
        t
    }
}

/// Whether the typed phrase matches: surrounding white space is ignored, case is not.
pub fn label_matches(typed: &str, actual: &str) -> (r: bool)
    ensures
        r == (trim_seq(typed@) == phrase_of(actual@)),
{
    let t = trim(typed);
    let p = confirmation_phrase(actual);
    str_eq(t.as_str(), p.as_str())
}

/// Whether to propose formatting the source card after a task, and if not, why not.
#[derive(Debug, Clone, Copy, PartialEq, Eq, Structural)]
pub enum AutoFormatDecision {
    /// The switch is off (the default).
    Disabled,
    Cancelled,
    HasFailures,
    /// The run did not verify: nothing was confirmed.
    NotVerified,
    /// A destination did not get its manifest: it did not finish.
    DestinationIncomplete,
    /// A format may be proposed; the safety checks and the countdown still apply.
    Propose,
}

/// The sentence of each decision.
pub open spec fn decision_text(d: AutoFormatDecision, lang: Locale) -> Seq<char> {
    match (d, lang) {
        (AutoFormatDecision::Disabled, Locale::Zh) => "「拷完自动格式化」未开启"@,
        (AutoFormatDecision::Disabled, Locale::En) => "\"Format after copy\" is off"@,
        (AutoFormatDecision::Cancelled, Locale::Zh) => "任务被取消，不提议格式化"@,
        (AutoFormatDecision::Cancelled, Locale::En) => "The task was cancelled, so no format is proposed"@,
        (AutoFormatDecision::HasFailures, Locale::Zh) => "有文件拷贝失败，不提议格式化"@,
        (AutoFormatDecision::HasFailures, Locale::En) => "Some files failed to copy, so no format is proposed"@,
        (AutoFormatDecision::NotVerified, Locale::Zh) => "本次未做读回校验，不提议格式化"@,
        (AutoFormatDecision::NotVerified, Locale::En) => "No read-back verification this run, so no format is proposed"@,
        (AutoFormatDecision::DestinationIncomplete, Locale::Zh) => "有目的地未落下凭证，不提议格式化"@,
        (AutoFormatDecision::DestinationIncomplete, Locale::En) => "A destination has no manifest, so no format is proposed"@,
        (AutoFormatDecision::Propose, Locale::Zh) => "全部目的地完成且全部校验通过"@,
        (AutoFormatDecision::Propose, Locale::En) => "Every destination finished and everything verified"@,
    }
}

impl AutoFormatDecision {
    /// Why a format was (not) proposed, in the chosen language.
    pub fn reason(&self, lang: Locale) -> (r: &'static str)
        ensures
            r@ == decision_text(*self, lang),
    {
        match self {
            AutoFormatDecision::Disabled => lang.pick("「拷完自动格式化」未开启", "\"Format after copy\" is off"),
            AutoFormatDecision::Cancelled => lang.pick("任务被取消，不提议格式化", "The task was cancelled, so no format is proposed"),
            AutoFormatDecision::HasFailures => lang.pick("有文件拷贝失败，不提议格式化", "Some files failed to copy, so no format is proposed"),
            AutoFormatDecision::NotVerified => lang.pick("本次未做读回校验，不提议格式化", "No read-back verification this run, so no format is proposed"),
            AutoFormatDecision::DestinationIncomplete => lang.pick("有目的地未落下凭证，不提议格式化", "A destination has no manifest, so no format is proposed"),
            AutoFormatDecision::Propose => lang.pick("全部目的地完成且全部校验通过", "Every destination finished and everything verified"),
        }
    }
}

/// The decision, from what actually happened in the run.
pub open spec fn auto_format_spec(enabled: bool, verified: bool, cancelled: bool, failed: nat, written: nat, planned: nat) -> AutoFormatDecision {
    if !enabled {
        AutoFormatDecision::Disabled
    } else if cancelled {
        AutoFormatDecision::Cancelled
    } else if failed > 0 {
        AutoFormatDecision::HasFailures
    } else if !verified {
        AutoFormatDecision::NotVerified
    } else if planned == 0 || written < planned {
        AutoFormatDecision::DestinationIncomplete
    } else {
        AutoFormatDecision::Propose
    }
}

/// Whether a format of the source card may be proposed after a run. Only what
/// happened counts: a switch that is on, but a run that skipped verification or
/// missed a destination, does not.
pub fn decide_auto_format(
    enabled: bool,
    verified_this_run: bool,
    cancelled: bool,
    failed_files: usize,
    manifests_written: usize,
    destinations_planned: usize,
) -> (r: AutoFormatDecision)
    ensures
        r == auto_format_spec(enabled, verified_this_run, cancelled, failed_files as nat, manifests_written as nat, destinations_planned as nat),
{
    if !enabled {
        return AutoFormatDecision::Disabled;
    }
    if cancelled {
        return AutoFormatDecision::Cancelled;
    }
    if failed_files > 0 {
        return AutoFormatDecision::HasFailures;
    }
    if !verified_this_run {
        return AutoFormatDecision::NotVerified;
    }
    if destinations_planned == 0 || manifests_written < destinations_planned {
        return AutoFormatDecision::DestinationIncomplete;
    }
    AutoFormatDecision::Propose
}

/// Whether a run of the ledger can stand as the backup behind a format: it finished
/// with everything passed, and it verified.
pub fn counts_as_backup(t: &TaskRecord) -> (r: bool)
    ensures
        r == (t.status == TaskStatus::Succeeded && t.verified),
{
    t.status == TaskStatus::Succeeded && t.verified
}

/// The manifests of one device, in order.
pub open spec fn of_device(ms: Seq<Manifest>, device_id: Seq<char>) -> Seq<Manifest> {
    ms.filter(|m: Manifest| m.source.id@ == device_id)
}

/// All the entries of some manifests, one manifest after the other.
pub open spec fn all_entries(ms: Seq<Manifest>) -> Seq<ManifestEntry>
    decreases ms.len(),
{
    if ms.len() == 0 {
        Seq::empty()
    } else {
        all_entries(ms.drop_last()) + ms.last().entries@
    }
}

/// The backup evidence from the manifests a run wrote: those of this device, merged
/// into the first of them (its header, every entry of all of them in order). None
/// when no manifest is of this device.
pub fn merge_backup_evidence(task_id: &str, manifests: Vec<Manifest>, device_id: &str) -> (r: Option<BackupEvidence>)
    ensures
        match r {
            None => of_device(manifests@, device_id@).len() == 0,
            Some(ev) => {
                let ds = of_device(manifests@, device_id@);
                &&& ds.len() > 0
                &&& ev.task_id@ == task_id@
                &&& ev.manifest == (Manifest { entries: ev.manifest.entries, ..ds[0] })
                &&& ev.manifest.entries@ == all_entries(ds)
            },
        },
{
    let ghost ms = manifests@;
    let ghost keep = |m: Manifest| m.source.id@ == device_id@;
    let mut merged: Option<Manifest> = None;
    let mut rest = manifests;
    let ghost mut taken: Seq<Manifest> = Seq::empty();
    proof {
        assert(taken + rest@ =~= ms);
    }
    while rest.len() > 0
        invariant
            keep == (|m: Manifest| m.source.id@ == device_id@),
            taken + rest@ == ms,
            match merged {
                None => taken.filter(keep).len() == 0,
                Some(acc) => {
                    let ds = taken.filter(keep);
                    &&& ds.len() > 0
                    &&& acc == (Manifest { entries: acc.entries, ..ds[0] })
                    &&& acc.entries@ == all_entries(ds)
                },
            },
        decreases rest@.len(),
    {
        let ghost before = taken;
        let ghost rest0 = rest@;
        let m = rest.remove(0);
        let ghost mg = m;
        proof {
            reveal(Seq::filter);
            assert(before.push(mg).drop_last() =~= before);
            assert(rest0 =~= seq![mg] + rest@);
            assert(before.push(mg) + rest@ =~= before + rest0);
        }
        if str_eq(m.source.id.as_str(), device_id) {
            proof {
                assert(keep(mg));
                assert(before.push(mg).filter(keep) == before.filter(keep).push(mg));
            }
            merged = match merged {
                None => {
                    proof {
                        assert(before.filter(keep).push(mg) =~= seq![mg]);
                        assert(seq![mg].drop_last() =~= Seq::<Manifest>::empty());
                        assert(seq![mg].last() == mg);
                        assert(all_entries(Seq::<Manifest>::empty()) == Seq::<ManifestEntry>::empty());
                        assert(all_entries(seq![mg]) == all_entries(seq![mg].drop_last()) + seq![mg].last().entries@);
                        assert(all_entries(seq![mg]) =~= mg.entries@);
                    }
                    Some(m)
                },
                Some(acc) => {
                    let mut acc = acc;
                    let mut es = m.entries;
                    acc.entries.append(&mut es);
                    proof {
                        let ds = before.filter(keep);
                        assert(ds.push(mg).drop_last() =~= ds);
                        assert(ds.push(mg)[0] == ds[0]);
                    }
                    Some(acc)
                },
            };
        } else {
            proof {
                assert(!keep(mg));
                assert(before.push(mg).filter(keep) == before.filter(keep));
            }
        }
        proof {
            taken = before.push(mg);
        }
    }
    proof {
        assert(taken =~= ms);
    }
    match merged {
        None => None,
        Some(acc) => Some(BackupEvidence { task_id: owned(task_id), manifest: acc }),
    }
}

/// The files left out of a covered set are exactly those it does not hold.
proof fn lemma_uncovered_none(files: Seq<Seq<char>>, covered: Set<Seq<char>>)
    ensures
        uncovered(files, covered).len() == 0 <==> forall|i: int| 0 <= i < files.len() ==> covered.contains(#[trigger] files[i]),
    decreases files.len(),
{
    if files.len() > 0 {
        let d = files.drop_last();
        lemma_uncovered_none(d, covered);
        assert forall|i: int| 0 <= i < d.len() implies #[trigger] d[i] == files[i] by {}
        if forall|i: int| 0 <= i < files.len() ==> covered.contains(#[trigger] files[i]) {
            assert forall|i: int| 0 <= i < d.len() implies covered.contains(#[trigger] d[i]) by {
                assert(covered.contains(files[i]));
            }
            assert(covered.contains(files[files.len() - 1]));
        }
        if uncovered(files, covered).len() == 0 {
            assert(covered.contains(files.last()));
            assert forall|i: int| 0 <= i < files.len() implies covered.contains(#[trigger] files[i]) by {
                if i < d.len() {
                    assert(covered.contains(d[i]));
                }
            }
        }
    }
}

/// The backup check (G4) passes file by file: only when there is evidence of a
/// finished, verified backup and every file on the card is the path of an entry of it
/// that was verified; no file may be missing from it, whatever its position.
pub proof fn lemma_backup_covers_every_file(evidence: Option<BackupEvidence>, files: Seq<Seq<char>>, lang: Locale)
    ensures
        g4_spec(evidence, files, lang).0 <==> (evidence matches Some(ev) && forall|i: int| 0 <= i < files.len() ==> exists|k: int|
            0 <= k < ev.manifest.entries@.len() && (#[trigger] ev.manifest.entries@[k]).verify is Verified
                && ev.manifest.entries@[k].relative_path@ == #[trigger] files[i]),
{
    if let Some(ev) = evidence {
        let cov = covered_paths(ev.manifest.entries@);
        lemma_uncovered_none(files, cov);
        assert forall|i: int| 0 <= i < files.len() implies (cov.contains(#[trigger] files[i]) <==> exists|k: int|
            0 <= k < ev.manifest.entries@.len() && (#[trigger] ev.manifest.entries@[k]).verify is Verified
                && ev.manifest.entries@[k].relative_path@ == files[i]) by {}
    }
}

/// The removability check (G1) passes only for a volume proved removable by its bus
/// that is not the system disk.
pub proof fn lemma_removable_and_not_system(vol: Volume, lang: Locale)
    ensures
        g1_spec(vol, lang).0 <==> (removability_spec(vol.bus_type) == Ok::<Removability, RemovabilityError>(Removability::Provable) && !vol.is_system),
{
}

} // verus!
