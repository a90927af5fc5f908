//! The configuration model and its identifiers.

use vstd::prelude::*;
use crate::text::{dec, hex, owned, push_dec, push_hex, push_str};
use crate::device::format::COUNTDOWN_DEFAULT_SECS;
use crate::engine::hasher::HashAlgorithm;
use crate::i18n::LOCALE_AUTO;
use crate::device::format::COUNTDOWN_MIN_SECS;
use crate::device::kind::{max_instance, next_instance, DeviceRecord};
use crate::i18n::Locale;
use crate::organize::{parse_template, template_check, template_error_text, TemplateError, TemplateErrorV};
use crate::text::str_eq;
use crate::manifest::store::Moment;

verus! {

/// The text of an identifier: `{prefix}-{millis:x}-{seq:x}`.
pub open spec fn id_text(prefix: Seq<char>, millis: nat, seq: nat) -> Seq<char> {
    prefix + "-"@ + hex(millis) + "-"@ + hex(seq)
}

/// Milliseconds since the Unix epoch on the system clock (0 if the clock reads
/// earlier than the epoch). Nothing is promised of the value: it is the time.
#[verifier::external_body]
fn now_millis() -> u64 {
    std::time::SystemTime::now().duration_since(std::time::UNIX_EPOCH).map(|d| d.as_millis() as u64).unwrap_or(0)
}

/// A per-call value from std's randomly seeded hasher (`RandomState`), which tells
/// apart identifiers made in the same millisecond. Nothing is promised of the value.
#[verifier::external_body]
fn nonce() -> u64 {
    std::hash::BuildHasher::hash_one(&std::collections::hash_map::RandomState::new(), 0u8)
}

/// Formats an identifier from its three parts.
pub fn format_id(prefix: &str, millis: u64, seq: u64) -> (r: String)
    ensures
        r@ == id_text(prefix@, millis as nat, seq as nat),
{
    let mut s = String::new();
    push_str(&mut s, prefix);
    push_str(&mut s, "-");
    push_hex(&mut s, millis);
    push_str(&mut s, "-");
    push_hex(&mut s, seq);
    proof {
        assert(s@ =~= prefix@ + "-"@ + hex(millis as nat) + "-"@ + hex(seq as nat));
    }
    s
}

/// A new identifier `{prefix}-{millis:x}-{n:x}`: the clock in milliseconds, then a
/// value that tells apart identifiers made within the same millisecond.
pub fn new_id(prefix: &str) -> (r: String)
    ensures
        exists|ms: u64, n: u64| r@ == #[trigger] id_text(prefix@, ms as nat, n as nat),
{
    let ms = now_millis();
    let n = nonce();
    let r = format_id(prefix, ms, n);
    proof {
        assert(r@ == id_text(prefix@, ms as nat, n as nat));
    }
    r
}

/// The configuration format's version.
pub const CONFIG_VERSION: u32 = 1;

/// The path template a new destination starts with.
pub const DEFAULT_TEMPLATE: &'static str = "{项目}/{日期}/{设备}";

/// One backup destination of a project.
#[derive(Debug, Clone, PartialEq, Eq)]
pub struct DestinationConfig {
    pub id: String,
    pub root: String,
    pub template: String,
    pub enabled: bool,
}

impl DestinationConfig {
    /// A new, enabled destination at `root` with the default template.
    pub fn new(root: &str) -> (r: DestinationConfig)
        ensures
            exists|ms: u64, n: u64| r.id@ == #[trigger] id_text("dst"@, ms as nat, n as nat),
            r.root@ == root@,
            r.template@ == DEFAULT_TEMPLATE@,
            r.enabled,
    {
        DestinationConfig { id: new_id("dst"), root: owned(root), template: owned(DEFAULT_TEMPLATE), enabled: true }
    }

    /// Checks the destination's path template.
    pub fn parsed_template(&self) -> (r: Result<(), TemplateError>)
        ensures
            match r {
                Ok(()) => template_check(self.template@) is Ok,
                Err(e) => template_check(self.template@) == Err::<(), TemplateErrorV>(e@),
            },
    {
        parse_template(self.template.as_str())
    }
}

/// A project: a name and its destinations.
#[derive(Debug, Clone, PartialEq, Eq)]
pub struct Project {
    pub id: String,
    pub name: String,
    pub created_at: Moment,
    pub destinations: Vec<DestinationConfig>,
}

impl Project {
    /// A new project without destinations.
    pub fn new(name: &str, at: Moment) -> (r: Project)
        ensures
            exists|ms: u64, n: u64| r.id@ == #[trigger] id_text("prj"@, ms as nat, n as nat),
            r.name@ == name@,
            r.created_at == at,
            r.destinations@.len() == 0,
    {
        Project { id: new_id("prj"), name: owned(name), created_at: at, destinations: Vec::new() }
    }

    /// The enabled destinations, in order.
    pub fn enabled_destinations(&self) -> (r: Vec<&DestinationConfig>)
        ensures
            r@.len() == self.destinations@.filter(|d: DestinationConfig| d.enabled).len(),
            forall|k: int| 0 <= k < r@.len() ==> *(#[trigger] r@[k]) == self.destinations@.filter(|d: DestinationConfig| d.enabled)[k],
    {
        let ghost ds = self.destinations@;
        let mut out: Vec<&DestinationConfig> = Vec::new();
        let mut i: usize = 0;
        while i < self.destinations.len()
            invariant
                ds == self.destinations@,
                i <= ds.len(),
                out@.len() == ds.take(i as int).filter(|d: DestinationConfig| d.enabled).len(),
                forall|k: int| 0 <= k < out@.len() ==> *(#[trigger] out@[k]) == ds.take(i as int).filter(|d: DestinationConfig| d.enabled)[k],
            decreases ds.len() - i,
        {
            proof {
                assert(ds.take(i + 1).drop_last() =~= ds.take(i as int));
                reveal(Seq::filter);
                assert(ds.take(i + 1).last() == ds[i as int]);
            }
            if self.destinations[i].enabled {
                out.push(&self.destinations[i]);
            }
            i = i + 1;
        }
        proof {
            assert(ds.take(ds.len() as int) =~= ds);
        }
        out
    }
}

/// The user's settings.
#[derive(Debug, Clone, PartialEq, Eq)]
pub struct Settings {
    /// Fill in the copy form when a card arrives.
    pub auto_prefill: bool,
    /// Start without asking (unattended).
    pub skip_confirmation: bool,
    pub verify_default: bool,
    pub algorithm: HashAlgorithm,
    pub retries: u32,
    pub notify_on_finish: bool,
    pub eject_after: bool,
    pub format_after_copy: bool,
    pub countdown_secs: u32,
    pub locale: String,
}

impl Default for Settings {
    /// Confirm on arrival, verify, xxh64, two retries, notify; never eject or format
    /// by default; the language follows the system.
    fn default() -> (r: Settings)
        ensures
            r.auto_prefill,
            !r.skip_confirmation,
            r.verify_default,
            r.algorithm == HashAlgorithm::Xxh64,
            r.retries == 2,
            r.notify_on_finish,
            !r.eject_after,
            !r.format_after_copy,
            r.countdown_secs == COUNTDOWN_DEFAULT_SECS,
            r.locale@ == LOCALE_AUTO@,
    {
        Settings {
            auto_prefill: true,
            skip_confirmation: false,
            verify_default: true,
            algorithm: HashAlgorithm::Xxh64,
            retries: 2,
            notify_on_finish: true,
            eject_after: false,
            format_after_copy: false,
            countdown_secs: COUNTDOWN_DEFAULT_SECS,
            locale: owned(LOCALE_AUTO),
        }
    }
}

/// What happens when a card arrives.
#[derive(Debug, Clone, Copy, PartialEq, Eq, Structural)]
pub enum ArrivalMode {
    /// Fill in the form and wait for a confirmation.
    Confirm,
    /// Do nothing until the user starts a copy.
    Manual,
    /// Start straight away.
    Unattended,
}

/// The arrival mode the two switches give.
pub open spec fn arrival_spec(auto_prefill: bool, skip_confirmation: bool) -> ArrivalMode {
    if !auto_prefill {
        ArrivalMode::Manual
    } else if skip_confirmation {
        ArrivalMode::Unattended
    } else {
        ArrivalMode::Confirm
    }
}

impl Settings {
    /// The arrival mode: unattended only when both switches are on; manual whenever
    /// prefill is off.
    pub fn arrival_mode(&self) -> (r: ArrivalMode)
        ensures
            r == arrival_spec(self.auto_prefill, self.skip_confirmation),
    {
        if !self.auto_prefill {
            ArrivalMode::Manual
        } else if self.skip_confirmation {
            ArrivalMode::Unattended
        } else {
            ArrivalMode::Confirm
        }
    }
}

/// Why a configuration was refused.
#[derive(Debug, Clone, PartialEq, Eq)]
pub enum ConfigError {
    DestinationCount { project: String, count: usize },
    NoEnabledDestination { project: String },
    BadTemplate { project: String, destination: String, reason: String },
    PresetProjectMissing { preset: String, project_id: String },
    CountdownTooShort { secs: u32, min: u32 },
}

/// The sentence shown for each configuration error.
pub open spec fn config_error_text(e: ConfigError) -> Seq<char> {
    match e {
        ConfigError::DestinationCount { project, count } => "项目「"@ + project@ + "」的目的地数量应为 1 到 4 个，实际 "@ + dec(count as nat) + " 个"@,
        ConfigError::NoEnabledDestination { project } => "项目「"@ + project@ + "」至少要有一个启用的目的地"@,
        ConfigError::BadTemplate { project, destination, reason } => "项目「"@ + project@ + "」的目的地「"@ + destination@ + "」路径模板不合法："@ + reason@,
        ConfigError::PresetProjectMissing { preset, project_id } => "预设「"@ + preset@ + "」指向的项目（"@ + project_id@ + "）已不存在"@,
        ConfigError::CountdownTooShort { secs, min } => "不可逆操作的确认倒计时不能短于 "@ + dec(min as nat) + " 秒（你设的是 "@ + dec(secs as nat) + " 秒）"@,
    }
}

impl ConfigError {
    /// The sentence shown to the user.
    pub fn describe(&self) -> (r: String)
        ensures
            r@ == config_error_text(*self),
    {
        let mut s = String::new();
        match self {
            ConfigError::DestinationCount { project, count } => {
                push_str(&mut s, "项目「");
                push_str(&mut s, project.as_str());
                push_str(&mut s, "」的目的地数量应为 1 到 4 个，实际 ");
                push_dec(&mut s, *count as u64);
                push_str(&mut s, " 个");
            },
            ConfigError::NoEnabledDestination { project } => {
                push_str(&mut s, "项目「");
                push_str(&mut s, project.as_str());
                push_str(&mut s, "」至少要有一个启用的目的地");
            },
            ConfigError::BadTemplate { project, destination, reason } => {
                push_str(&mut s, "项目「");
                push_str(&mut s, project.as_str());
                push_str(&mut s, "」的目的地「");
                push_str(&mut s, destination.as_str());
                push_str(&mut s, "」路径模板不合法：");
                push_str(&mut s, reason.as_str());
            },
            ConfigError::PresetProjectMissing { preset, project_id } => {
                push_str(&mut s, "预设「");
                push_str(&mut s, preset.as_str());
                push_str(&mut s, "」指向的项目（");
                push_str(&mut s, project_id.as_str());
                push_str(&mut s, "）已不存在");
            },
            ConfigError::CountdownTooShort { secs, min } => {
                push_str(&mut s, "不可逆操作的确认倒计时不能短于 ");
                push_dec(&mut s, *min as u64);
                push_str(&mut s, " 秒（你设的是 ");
                push_dec(&mut s, *secs as u64);
                push_str(&mut s, " 秒）");
            },
        }
        proof {
            assert(s@ =~= config_error_text(*self));
        }
        s
    }
}

/// A preset, as far as the configuration's checks read it: its name and the project
/// its copies go to.
#[derive(Debug, Clone, PartialEq, Eq)]
pub struct Preset {
    pub id: String,
    pub name: String,
    pub project_id: Option<String>,
}

impl Preset {
    /// A new preset of that name, for no project yet.
    pub fn new(name: &str) -> (r: Preset)
        ensures
            exists|ms: u64, n: u64| r.id@ == #[trigger] id_text("preset"@, ms as nat, n as nat),
            r.name@ == name@,
            r.project_id is None,
    {
        Preset { id: new_id("preset"), name: owned(name), project_id: None }
    }
}

/// The whole configuration.
#[derive(Debug, Clone, PartialEq, Eq)]
pub struct Config {
    pub version: u32,
    pub projects: Vec<Project>,
    pub current_project: Option<String>,
    pub presets: Vec<Preset>,
    pub devices: Vec<DeviceRecord>,
    pub settings: Settings,
}

impl Default for Config {
    /// This format's version, nothing configured, default settings.
    fn default() -> (r: Config)
        ensures
            r.version == CONFIG_VERSION,
            r.projects@.len() == 0,
            r.current_project is None,
            r.presets@.len() == 0,
            r.devices@.len() == 0,
            r.settings.auto_prefill,
            !r.settings.skip_confirmation,
            r.settings.verify_default,
            r.settings.algorithm == HashAlgorithm::Xxh64,
            r.settings.retries == 2,
            r.settings.notify_on_finish,
            !r.settings.eject_after,
            !r.settings.format_after_copy,
            r.settings.countdown_secs == COUNTDOWN_DEFAULT_SECS,
            r.settings.locale@ == LOCALE_AUTO@,
    {
        Config {
            version: CONFIG_VERSION,
            projects: Vec::new(),
            current_project: None,
            presets: Vec::new(),
            devices: Vec::new(),
            settings: Settings::default(),
        }
    }
}

/// A configuration problem, over the texts it carries.
pub enum ConfigProblem {
    DestinationCount { project: Seq<char>, count: nat },
    NoEnabledDestination { project: Seq<char> },
    BadTemplate { project: Seq<char>, destination: Seq<char>, reason: Seq<char> },
    PresetProjectMissing { preset: Seq<char>, project_id: Seq<char> },
    CountdownTooShort { secs: nat, min: nat },
}

/// The problem a configuration error reports.
pub open spec fn problem_of(e: ConfigError) -> ConfigProblem {
    match e {
        ConfigError::DestinationCount { project, count } => ConfigProblem::DestinationCount { project: project@, count: count as nat },
        ConfigError::NoEnabledDestination { project } => ConfigProblem::NoEnabledDestination { project: project@ },
        ConfigError::BadTemplate { project, destination, reason } => ConfigProblem::BadTemplate {
            project: project@,
            destination: destination@,
            reason: reason@,
        },
        ConfigError::PresetProjectMissing { preset, project_id } => ConfigProblem::PresetProjectMissing {
            preset: preset@,
            project_id: project_id@,
        },
        ConfigError::CountdownTooShort { secs, min } => ConfigProblem::CountdownTooShort { secs: secs as nat, min: min as nat },
    }
}

/// The first destination, in order, whose template does not parse.
pub open spec fn template_problem(project: Seq<char>, ds: Seq<DestinationConfig>) -> Option<ConfigProblem>
    decreases ds.len(),
{
    if ds.len() == 0 {
        None
    } else {
        match template_problem(project, ds.drop_last()) {
            Some(p) => Some(p),
            None => match template_check(ds.last().template@) {
                Err(e) => Some(ConfigProblem::BadTemplate {
                    project,
                    destination: ds.last().root@,
                    reason: template_error_text(e, Locale::Zh),
                }),
                Ok(_) => None,
            },
        }
    }
}

/// What is wrong with one project: one to four destinations, at least one enabled,
/// every template valid.
pub open spec fn project_problem(p: Project) -> Option<ConfigProblem> {
    let ds = p.destinations@;
    if ds.len() == 0 || ds.len() > 4 {
        Some(ConfigProblem::DestinationCount { project: p.name@, count: ds.len() })
    } else if !(exists|i: int| 0 <= i < ds.len() && (#[trigger] ds[i]).enabled) {
        Some(ConfigProblem::NoEnabledDestination { project: p.name@ })
    } else {
        template_problem(p.name@, ds)
    }
}

/// The first project, in order, with a problem.
pub open spec fn projects_problem(ps: Seq<Project>) -> Option<ConfigProblem>
    decreases ps.len(),
{
    if ps.len() == 0 {
        None
    } else {
        match projects_problem(ps.drop_last()) {
            Some(q) => Some(q),
            None => project_problem(ps.last()),
        }
    }
}

/// Whether some project has this identifier.
pub open spec fn has_project(ps: Seq<Project>, id: Seq<char>) -> bool {
    exists|i: int| 0 <= i < ps.len() && (#[trigger] ps[i]).id@ == id
}

/// The first preset, in order, that points at a project that does not exist.
pub open spec fn presets_problem(prs: Seq<Preset>, ps: Seq<Project>) -> Option<ConfigProblem>
    decreases prs.len(),
{
    if prs.len() == 0 {
        None
    } else {
        match presets_problem(prs.drop_last(), ps) {
            Some(q) => Some(q),
            None => match prs.last().project_id {
                Some(pid) => if has_project(ps, pid@) {
                    None
                } else {
                    Some(ConfigProblem::PresetProjectMissing { preset: prs.last().name@, project_id: pid@ })
                },
                None => None,
            },
        }
    }
}

/// The problem a configuration has, checked in order: the countdown's floor, then
/// each project, then each preset.
pub open spec fn config_problem(c: Config) -> Option<ConfigProblem> {
    if c.settings.countdown_secs < COUNTDOWN_MIN_SECS {
        Some(ConfigProblem::CountdownTooShort { secs: c.settings.countdown_secs as nat, min: COUNTDOWN_MIN_SECS as nat })
    } else {
        match projects_problem(c.projects@) {
            Some(q) => Some(q),
            None => presets_problem(c.presets@, c.projects@),
        }
    }
}

/// The first index whose project has this identifier, or -1.
pub open spec fn project_idx(ps: Seq<Project>, id: Seq<char>) -> int
    decreases ps.len(),
{
    if ps.len() == 0 {
        -1
    } else {
        let k = project_idx(ps.drop_last(), id);
        if k >= 0 { k } else if ps.last().id@ == id { ps.len() - 1 } else { -1 }
    }
}

/// The first index whose device has this identifier, or -1.
pub open spec fn device_idx(ds: Seq<DeviceRecord>, id: Seq<char>) -> int
    decreases ds.len(),
{
    if ds.len() == 0 {
        -1
    } else {
        let k = device_idx(ds.drop_last(), id);
        if k >= 0 { k } else if ds.last().id@ == id { ds.len() - 1 } else { -1 }
    }
}

pub(crate) proof fn lemma_project_idx(ps: Seq<Project>, id: Seq<char>)
    ensures
        -1 <= project_idx(ps, id) < ps.len(),
        project_idx(ps, id) >= 0 ==> ps[project_idx(ps, id)].id@ == id,
        forall|j: int| 0 <= j < ps.len() && (project_idx(ps, id) < 0 || j < project_idx(ps, id)) ==> (#[trigger] ps[j]).id@ != id,
    decreases ps.len(),
{
    if ps.len() > 0 {
        lemma_project_idx(ps.drop_last(), id);
        assert forall|j: int| 0 <= j < ps.len() - 1 implies #[trigger] ps[j] == ps.drop_last()[j] by {}
    }
}

pub(crate) proof fn lemma_device_idx(ds: Seq<DeviceRecord>, id: Seq<char>)
    ensures
        -1 <= device_idx(ds, id) < ds.len(),
        device_idx(ds, id) >= 0 ==> ds[device_idx(ds, id)].id@ == id,
        forall|j: int| 0 <= j < ds.len() && (device_idx(ds, id) < 0 || j < device_idx(ds, id)) ==> (#[trigger] ds[j]).id@ != id,
    decreases ds.len(),
{
    if ds.len() > 0 {
        lemma_device_idx(ds.drop_last(), id);
        assert forall|j: int| 0 <= j < ds.len() - 1 implies #[trigger] ds[j] == ds.drop_last()[j] by {}
    }
}

pub(crate) fn find_project(ps: &Vec<Project>, id: &str) -> (r: Option<usize>)
    ensures
        match r {
            Some(i) => i < ps@.len() && i as int == project_idx(ps@, id@),
            None => project_idx(ps@, id@) < 0,
        },
{
    proof {
        lemma_project_idx(ps@, id@);
    }
    let mut i: usize = 0;
    while i < ps.len()
        invariant
            i <= ps@.len(),
            -1 <= project_idx(ps@, id@) < ps@.len(),
            project_idx(ps@, id@) >= 0 ==> ps@[project_idx(ps@, id@)].id@ == id@,
            forall|j: int| 0 <= j < ps@.len() && (project_idx(ps@, id@) < 0 || j < project_idx(ps@, id@)) ==> (#[trigger] ps@[j]).id@ != id@,
            forall|j: int| 0 <= j < i ==> (#[trigger] ps@[j]).id@ != id@,
        decreases ps@.len() - i,
    {
        if str_eq(ps[i].id.as_str(), id) {
            return Some(i);
        }
        i = i + 1;
    }
    None
}

pub(crate) fn find_device(ds: &Vec<DeviceRecord>, id: &str) -> (r: Option<usize>)
    ensures
        match r {
            Some(i) => i < ds@.len() && i as int == device_idx(ds@, id@),
            None => device_idx(ds@, id@) < 0,
        },
{
    proof {
        lemma_device_idx(ds@, id@);
    }
    let mut i: usize = 0;
    while i < ds.len()
        invariant
            i <= ds@.len(),
            -1 <= device_idx(ds@, id@) < ds@.len(),
            device_idx(ds@, id@) >= 0 ==> ds@[device_idx(ds@, id@)].id@ == id@,
            forall|j: int| 0 <= j < ds@.len() && (device_idx(ds@, id@) < 0 || j < device_idx(ds@, id@)) ==> (#[trigger] ds@[j]).id@ != id@,
            forall|j: int| 0 <= j < i ==> (#[trigger] ds@[j]).id@ != id@,
        decreases ds@.len() - i,
    {
        if str_eq(ds[i].id.as_str(), id) {
            return Some(i);
        }
        i = i + 1;
    }
    None
}

fn check_project(p: &Project) -> (r: Result<(), ConfigError>)
    ensures
        match r {
            Ok(()) => project_problem(*p) is None,
            Err(e) => project_problem(*p) == Some(problem_of(e)),
        },
{
    let n = p.destinations.len();
    if n == 0 || n > 4 {
        return Err(ConfigError::DestinationCount { project: p.name.clone(), count: n });
    }
    let mut any = false;
    let mut i: usize = 0;
    while i < n
        invariant
            n == p.destinations@.len(),
            i <= n,
            any == (exists|j: int| 0 <= j < i && (#[trigger] p.destinations@[j]).enabled),
        decreases n - i,
    {
        if p.destinations[i].enabled {
            any = true;
        }
        i = i + 1;
    }
    if !any {
        return Err(ConfigError::NoEnabledDestination { project: p.name.clone() });
    }
    let mut k: usize = 0;
    while k < n
        invariant
            n == p.destinations@.len(),
            1 <= n <= 4,
            exists|j: int| 0 <= j < n && (#[trigger] p.destinations@[j]).enabled,
            k <= n,
            template_problem(p.name@, p.destinations@.take(k as int)) is None,
        decreases n - k,
    {
        proof {
            assert(p.destinations@.take(k + 1).drop_last() =~= p.destinations@.take(k as int));
        }
        let d = &p.destinations[k];
        match d.parsed_template() {
            Ok(()) => {},
            Err(e) => {
                let reason = e.describe(Locale::Zh);
                proof {
                    lemma_template_problem_prefix(p.name@, p.destinations@, k + 1);
                }
                return Err(ConfigError::BadTemplate { project: p.name.clone(), destination: d.root.clone(), reason });
            },
        }
        k = k + 1;
    }
    proof {
        assert(p.destinations@.take(n as int) =~= p.destinations@);
    }
    Ok(())
}

proof fn lemma_template_problem_prefix(project: Seq<char>, ds: Seq<DestinationConfig>, k: int)
    requires
        0 <= k <= ds.len(),
        template_problem(project, ds.take(k)) is Some,
    ensures
        template_problem(project, ds) == template_problem(project, ds.take(k)),
    decreases ds.len(),
{
    if k < ds.len() {
        assert(ds.drop_last().take(k) =~= ds.take(k));
        lemma_template_problem_prefix(project, ds.drop_last(), k);
    } else {
        assert(ds.take(k) =~= ds);
    }
}

proof fn lemma_projects_problem_prefix(ps: Seq<Project>, k: int)
    requires
        0 <= k <= ps.len(),
        projects_problem(ps.take(k)) is Some,
    ensures
        projects_problem(ps) == projects_problem(ps.take(k)),
    decreases ps.len(),
{
    if k < ps.len() {
        assert(ps.drop_last().take(k) =~= ps.take(k));
        lemma_projects_problem_prefix(ps.drop_last(), k);
    } else {
        assert(ps.take(k) =~= ps);
    }
}

proof fn lemma_presets_problem_prefix(prs: Seq<Preset>, ps: Seq<Project>, k: int)
    requires
        0 <= k <= prs.len(),
        presets_problem(prs.take(k), ps) is Some,
    ensures
        presets_problem(prs, ps) == presets_problem(prs.take(k), ps),
    decreases prs.len(),
{
    if k < prs.len() {
        assert(prs.drop_last().take(k) =~= prs.take(k));
        lemma_presets_problem_prefix(prs.drop_last(), ps, k);
    } else {
        assert(prs.take(k) =~= prs);
    }
}

impl Config {
    /// The full check made before saving: the countdown's floor, then for each project
    /// one to four destinations with at least one enabled and every template valid,
    /// then every preset's project must exist. The first problem found is returned.
    pub fn validate(&self) -> (r: Result<(), ConfigError>)
        ensures
            match r {
                Ok(()) => config_problem(*self) is None,
                Err(e) => config_problem(*self) == Some(problem_of(e)),
            },
    {
        if self.settings.countdown_secs < COUNTDOWN_MIN_SECS {
            return Err(ConfigError::CountdownTooShort { secs: self.settings.countdown_secs, min: COUNTDOWN_MIN_SECS });
        }
        let mut i: usize = 0;
        while i < self.projects.len()
            invariant
                i <= self.projects@.len(),
                self.settings.countdown_secs >= COUNTDOWN_MIN_SECS,
                projects_problem(self.projects@.take(i as int)) is None,
            decreases self.projects@.len() - i,
        {
            proof {
                assert(self.projects@.take(i + 1).drop_last() =~= self.projects@.take(i as int));
            }
            match check_project(&self.projects[i]) {
                Ok(()) => {},
                Err(e) => {
                    proof {
                        lemma_projects_problem_prefix(self.projects@, i + 1);
                    }
                    return Err(e);
                },
            }
            i = i + 1;
        }
        proof {
            assert(self.projects@.take(self.projects@.len() as int) =~= self.projects@);
        }
        let mut k: usize = 0;
        while k < self.presets.len()
            invariant
                k <= self.presets@.len(),
                self.settings.countdown_secs >= COUNTDOWN_MIN_SECS,
                projects_problem(self.projects@) is None,
                presets_problem(self.presets@.take(k as int), self.projects@) is None,
            decreases self.presets@.len() - k,
        {
            proof {
                assert(self.presets@.take(k + 1).drop_last() =~= self.presets@.take(k as int));
            }
            let pr = &self.presets[k];
            match &pr.project_id {
                Some(pid) => {
                    let found = find_project(&self.projects, pid.as_str());
                    proof {
                        lemma_project_idx(self.projects@, pid@);
                    }
                    if found.is_none() {
                        proof {
                            lemma_presets_problem_prefix(self.presets@, self.projects@, k + 1);
                        }
                        return Err(ConfigError::PresetProjectMissing { preset: pr.name.clone(), project_id: pid.clone() });
                    }
                },
                None => {},
            }
            k = k + 1;
        }
        proof {
            assert(self.presets@.take(self.presets@.len() as int) =~= self.presets@);
        }
        Ok(())
    }

    /// The project with this identifier.
    pub fn project(&self, id: &str) -> (r: Option<&Project>)
        ensures
            match r {
                Some(p) => project_idx(self.projects@, id@) >= 0 && *p == self.projects@[project_idx(self.projects@, id@)],
                None => project_idx(self.projects@, id@) < 0,
            },
    {
        match find_project(&self.projects, id) {
            Some(i) => Some(&self.projects[i]),
            None => None,
        }
    }

    /// The current project; when none is set, or it no longer exists, the first one.
    pub fn effective_project(&self) -> (r: Option<&Project>)
        ensures
            ({
                let cur = match self.current_project {
                    Some(id) => project_idx(self.projects@, id@),
                    None => -1,
                };
                if cur >= 0 {
                    r == Some(&self.projects@[cur])
                } else if self.projects@.len() > 0 {
                    r == Some(&self.projects@[0])
                } else {
                    r is None
                }
            }),
    {
        let cur = match &self.current_project {
            Some(id) => self.project(id.as_str()),
            None => None,
        };
        match cur {
            Some(p) => Some(p),
            None => if self.projects.len() > 0 {
                Some(&self.projects[0])
            } else {
                None
            },
        }
    }

    /// The remembered device with this identifier.
    pub fn device(&self, id: &str) -> (r: Option<&DeviceRecord>)
        ensures
            match r {
                Some(d) => device_idx(self.devices@, id@) >= 0 && *d == self.devices@[device_idx(self.devices@, id@)],
                None => device_idx(self.devices@, id@) < 0,
            },
    {
        match find_device(&self.devices, id) {
            Some(i) => Some(&self.devices[i]),
            None => None,
        }
    }

    /// Remembers a device. One already known only gets its last-seen facts (time,
    /// label, size) updated: the user's name and kind stay. A new one is appended with
    /// the next instance number for its name.
    pub fn remember_device(&mut self, record: DeviceRecord) -> (r: &DeviceRecord)
        requires
            max_instance(old(self).devices@, record.custom_name@) < u32::MAX,
        ensures
            final(self).version == old(self).version,
            final(self).projects == old(self).projects,
            final(self).current_project == old(self).current_project,
            final(self).presets == old(self).presets,
            final(self).settings == old(self).settings,
            ({
                let i = device_idx(old(self).devices@, record.id@);
                let d = old(self).devices@;
                if i >= 0 {
                    &&& final(self).devices@ == d.update(i, DeviceRecord {
                        last_seen: record.last_seen,
                        last_label: record.last_label,
                        total_bytes: record.total_bytes,
                        ..d[i]
                    })
                    &&& *r == final(self).devices@[i]
                } else {
                    &&& final(self).devices@ == d.push(DeviceRecord {
                        instance: (max_instance(d, record.custom_name@) + 1) as u32,
                        ..record
                    })
                    &&& *r == final(self).devices@[d.len() as int]
                }
            }),
    {
        match find_device(&self.devices, record.id.as_str()) {
            Some(idx) => {
                let mut existing = self.devices[idx].clone_record();
                existing.last_seen = record.last_seen;
                existing.last_label = record.last_label;
                existing.total_bytes = record.total_bytes;
                self.devices.set(idx, existing);
                &self.devices[idx]
            },
            None => {
                let mut record = record;
                record.instance = next_instance(self.devices.as_slice(), record.custom_name.as_str());
                self.devices.push(record);
                let n = self.devices.len();
                &self.devices[n - 1]
            },
        }
    }
}

/// A destination list without a template problem has every template valid.
proof fn lemma_template_problem_none(project: Seq<char>, ds: Seq<DestinationConfig>, k: int)
    requires
        template_problem(project, ds) is None,
        0 <= k < ds.len(),
    ensures
        template_check(ds[k].template@) is Ok,
    decreases ds.len(),
{
    if k < ds.len() - 1 {
        assert(ds.drop_last()[k] == ds[k]);
        lemma_template_problem_none(project, ds.drop_last(), k);
    }
}

/// A project list without a problem has no problem in any project.
proof fn lemma_projects_problem_none(ps: Seq<Project>, i: int)
    requires
        projects_problem(ps) is None,
        0 <= i < ps.len(),
    ensures
        project_problem(ps[i]) is None,
    decreases ps.len(),
{
    if i < ps.len() - 1 {
        assert(ps.drop_last()[i] == ps[i]);
        lemma_projects_problem_none(ps.drop_last(), i);
    }
}

/// A configuration that passes its check has, in every project, one to four
/// destinations, at least one of them enabled, and every destination's template valid,
/// whichever position the destination has.
pub proof fn lemma_valid_config_destinations(c: Config, i: int, k: int)
    requires
        config_problem(c) is None,
        0 <= i < c.projects@.len(),
        0 <= k < c.projects@[i].destinations@.len(),
    ensures
        1 <= c.projects@[i].destinations@.len() <= 4,
        exists|j: int| 0 <= j < c.projects@[i].destinations@.len() && (#[trigger] c.projects@[i].destinations@[j]).enabled,
        template_check(c.projects@[i].destinations@[k].template@) is Ok,
{
    lemma_projects_problem_none(c.projects@, i);
    lemma_template_problem_none(c.projects@[i].name@, c.projects@[i].destinations@, k);
}

/// A preset's project exists as soon as any project, whatever its position, has that
/// identifier; and only then.
pub proof fn lemma_project_anywhere(ps: Seq<Project>, id: Seq<char>, i: int)
    requires
        0 <= i < ps.len(),
    ensures
        ps[i].id@ == id ==> has_project(ps, id),
        has_project(ps, id) ==> exists|j: int| 0 <= j < ps.len() && (#[trigger] ps[j]).id@ == id,
{
}

} // verus!
