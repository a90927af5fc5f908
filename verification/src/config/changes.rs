//! Changes to the configuration made from the settings screens: projects, presets
//! and remembered devices. Each change is made in memory; saving is the caller's.

use vstd::prelude::*;
use crate::config::model::{
    config_problem, device_idx, find_device, find_project, has_project, id_text, presets_problem,
    project_idx, project_problem, projects_problem, Config, DestinationConfig, Preset, Project,
};
use crate::device::kind::{DeviceKind, DeviceRecord};
use crate::text::{owned, push_str, str_eq};
use crate::manifest::store::Moment;

verus! {

/// Whether a preset sends its copies to project `id`.
pub open spec fn points_at(p: Preset, id: Seq<char>) -> bool {
    p.project_id matches Some(x) && x@ == id
}

/// Whether a project is not the one with identifier `id`.
pub open spec fn project_other_than(p: Project, id: Seq<char>) -> bool {
    p.id@ != id
}

/// Whether a preset does not send its copies to project `id`.
pub open spec fn preset_not_at(p: Preset, id: Seq<char>) -> bool {
    !points_at(p, id)
}

/// The projects other than `id`, in order.
pub open spec fn projects_without(ps: Seq<Project>, id: Seq<char>) -> Seq<Project> {
    ps.filter(|p: Project| project_other_than(p, id))
}

/// The presets that do not point at project `id`, in order.
pub open spec fn presets_without(prs: Seq<Preset>, id: Seq<char>) -> Seq<Preset> {
    prs.filter(|p: Preset| preset_not_at(p, id))
}

/// The current project after project `id` is deleted: the first remaining project
/// when the deleted one was current, else the current one as it was.
pub open spec fn current_after_delete(cur: Option<String>, kept: Seq<Project>, id: Seq<char>) -> Option<Seq<char>> {
    match cur {
        Some(c) => if c@ == id {
            if kept.len() > 0 { Some(kept[0].id@) } else { None }
        } else {
            Some(c@)
        },
        None => None,
    }
}

/// An optional string by view.
pub open spec fn opt_view(o: Option<String>) -> Option<Seq<char>> {
    match o {
        Some(s) => Some(s@),
        None => None,
    }
}

/// The projects other than `id`, moved out of `ps` in order.
fn take_projects_without(ps: &mut Vec<Project>, id: &str) -> (r: Vec<Project>)
    ensures
        r@ == projects_without(old(ps)@, id@),
{
    let mut rest: Vec<Project> = Vec::new();
    std::mem::swap(&mut rest, ps);
    let ghost orig = rest@;
    let mut out: Vec<Project> = Vec::new();
    let mut k: usize = 0;
    let n = rest.len();
    while k < n
        invariant
            n == orig.len(),
            k <= orig.len(),
            rest@ == orig.skip(k as int),
            rest@.len() == orig.len() - k,
            out@ == projects_without(orig.take(k as int), id@),
        decreases n - k,
    {
        let p = rest.remove(0);
        proof {
            assert(p == orig[k as int]);
            assert(orig.take(k + 1).drop_last() =~= orig.take(k as int));
            reveal(Seq::filter);
            assert(orig.take(k + 1).last() == orig[k as int]);
            assert(rest@ =~= orig.skip(k + 1));
        }
        if !str_eq(p.id.as_str(), id) {
            out.push(p);
        }
        k = k + 1;
    }
    proof {
        assert(orig.take(k as int) =~= orig);
    }
    out
}

/// The presets that do not point at `id`, moved out of `prs` in order.
fn take_presets_without(prs: &mut Vec<Preset>, id: &str) -> (r: Vec<Preset>)
    ensures
        r@ == presets_without(old(prs)@, id@),
{
    let mut rest: Vec<Preset> = Vec::new();
    std::mem::swap(&mut rest, prs);
    let ghost orig = rest@;
    let mut out: Vec<Preset> = Vec::new();
    let mut k: usize = 0;
    let n = rest.len();
    while k < n
        invariant
            n == orig.len(),
            k <= orig.len(),
            rest@ == orig.skip(k as int),
            rest@.len() == orig.len() - k,
            out@ == presets_without(orig.take(k as int), id@),
        decreases n - k,
    {
        let p = rest.remove(0);
        proof {
            assert(p == orig[k as int]);
            assert(orig.take(k + 1).drop_last() =~= orig.take(k as int));
            reveal(Seq::filter);
            assert(orig.take(k + 1).last() == orig[k as int]);
            assert(rest@ =~= orig.skip(k + 1));
        }
        let keep = match &p.project_id {
            Some(x) => !str_eq(x.as_str(), id),
            None => true,
        };
        if keep {
            out.push(p);
        }
        k = k + 1;
    }
    proof {
        assert(orig.take(k as int) =~= orig);
    }
    out
}

impl Config {
    /// Deletes project `id`, with the presets that send their copies to it. When it was
    /// the current project, the first remaining project (if any) becomes current.
    pub fn delete_project(&mut self, id: &str)
        ensures
            final(self).projects@ == projects_without(old(self).projects@, id@),
            final(self).presets@ == presets_without(old(self).presets@, id@),
            opt_view(final(self).current_project) == current_after_delete(
                old(self).current_project,
                projects_without(old(self).projects@, id@),
                id@,
            ),
            final(self).version == old(self).version,
            final(self).devices == old(self).devices,
            final(self).settings == old(self).settings,
    {
        let kept = take_projects_without(&mut self.projects, id);
        self.projects = kept;
        let kept_presets = take_presets_without(&mut self.presets, id);
        self.presets = kept_presets;
        let was_current = match &self.current_project {
            Some(c) => str_eq(c.as_str(), id),
            None => false,
        };
        if was_current {
            self.current_project = if self.projects.len() > 0 {
                Some(owned(self.projects[0].id.as_str()))
            } else {
                None
            };
        }
    }
}

/// `projects_problem` is the first problem of any project: none exactly when no
/// project has one.
proof fn lemma_projects_ok(ps: Seq<Project>)
    ensures
        projects_problem(ps) is None <==> forall|k: int| 0 <= k < ps.len() ==> (#[trigger] project_problem(ps[k])) is None,
    decreases ps.len(),
{
    if ps.len() > 0 {
        let d = ps.drop_last();
        lemma_projects_ok(d);
        if projects_problem(ps) is None {
            assert forall|k: int| 0 <= k < ps.len() implies (#[trigger] project_problem(ps[k])) is None by {
                if k < ps.len() - 1 {
                    assert(d[k] == ps[k]);
                    assert(project_problem(d[k]) is None);
                }
            }
        } else if projects_problem(d) is Some {
            let j = choose|j: int| 0 <= j < d.len() && (#[trigger] project_problem(d[j])) is Some;
            assert(d[j] == ps[j]);
            assert(project_problem(ps[j]) is Some);
        } else {
            assert(project_problem(ps[ps.len() - 1]) is Some);
        }
    }
}

/// `presets_problem` is the first preset pointing at a missing project: none exactly
/// when every preset's project exists.
proof fn lemma_presets_ok(prs: Seq<Preset>, ps: Seq<Project>)
    ensures
        presets_problem(prs, ps) is None <==> forall|k: int| 0 <= k < prs.len() ==> preset_ok(#[trigger] prs[k], ps),
    decreases prs.len(),
{
    if prs.len() > 0 {
        let d = prs.drop_last();
        lemma_presets_ok(d, ps);
        if presets_problem(prs, ps) is None {
            assert forall|k: int| 0 <= k < prs.len() implies preset_ok(#[trigger] prs[k], ps) by {
                if k < prs.len() - 1 {
                    assert(d[k] == prs[k]);
                    assert(preset_ok(d[k], ps));
                }
            }
        } else if presets_problem(d, ps) is Some {
            let j = choose|j: int| 0 <= j < d.len() && !preset_ok(#[trigger] d[j], ps);
            assert(d[j] == prs[j]);
            assert(!preset_ok(prs[j], ps));
        } else {
            assert(!preset_ok(prs[prs.len() - 1], ps));
        }
    }
}

/// A preset's project, if it names one, exists.
pub open spec fn preset_ok(p: Preset, ps: Seq<Project>) -> bool {
    match p.project_id {
        Some(pid) => has_project(ps, pid@),
        None => true,
    }
}

/// Deleting a project keeps a valid configuration valid: no remaining preset is left
/// pointing at the deleted project, and every remaining project passes its checks.
pub proof fn lemma_delete_project_keeps_valid(c: Config, c2: Config, id: Seq<char>)
    requires
        config_problem(c) is None,
        c2.projects@ == projects_without(c.projects@, id),
        c2.presets@ == presets_without(c.presets@, id),
        c2.settings == c.settings,
    ensures
        config_problem(c2) is None,
        forall|k: int| 0 <= k < c2.presets@.len() ==> !points_at(#[trigger] c2.presets@[k], id),
        !has_project(c2.projects@, id),
{
    let ps = c.projects@;
    let ps2 = c2.projects@;
    let prs = c.presets@;
    let prs2 = c2.presets@;
    let fp = |p: Project| project_other_than(p, id);
    let fr = |p: Preset| preset_not_at(p, id);
    broadcast use vstd::seq_lib::group_filter_ensures;
    lemma_projects_ok(ps);
    lemma_projects_ok(ps2);
    assert forall|k: int| 0 <= k < ps2.len() implies (#[trigger] project_problem(ps2[k])) is None by {
        assert(ps2[k] == ps.filter(fp)[k]);
        assert(ps.filter(fp).contains(ps2[k]));
        ps.lemma_filter_contains_rev(fp, ps2[k]);
        let j = choose|j: int| 0 <= j < ps.len() && ps[j] == ps2[k];
        assert(project_problem(ps[j]) is None);
    }
    lemma_presets_ok(prs, ps);
    lemma_presets_ok(prs2, ps2);
    assert forall|k: int| 0 <= k < prs2.len() implies preset_ok(#[trigger] prs2[k], ps2) by {
        assert(prs2[k] == prs.filter(fr)[k]);
        assert(fr(prs.filter(fr)[k]));
        assert(prs.filter(fr).contains(prs2[k]));
        prs.lemma_filter_contains_rev(fr, prs2[k]);
        let j = choose|j: int| 0 <= j < prs.len() && prs[j] == prs2[k];
        assert(preset_ok(prs[j], ps));
        match prs2[k].project_id {
            Some(pid) => {
                assert(pid@ != id);
                let q = choose|q: int| 0 <= q < ps.len() && (#[trigger] ps[q]).id@ == pid@;
                assert(fp(ps[q]));
                ps.lemma_filter_contains(fp, q);
                let r = choose|r: int| 0 <= r < ps2.len() && ps2[r] == ps[q];
                assert(ps2[r].id@ == pid@);
            },
            None => {},
        }
    }
    assert forall|k: int| 0 <= k < prs2.len() implies !points_at(#[trigger] prs2[k], id) by {
        assert(prs2[k] == prs.filter(fr)[k]);
        assert(fr(prs.filter(fr)[k]));
    }
    assert(!has_project(ps2, id)) by {
        if has_project(ps2, id) {
            let q = choose|q: int| 0 <= q < ps2.len() && (#[trigger] ps2[q]).id@ == id;
            assert(ps2[q] == ps.filter(fp)[q]);
            assert(fp(ps.filter(fp)[q]));
        }
    }
}

/// The first index whose preset has this identifier, or -1.
pub open spec fn preset_idx(ps: Seq<Preset>, id: Seq<char>) -> int
    decreases ps.len(),
{
    if ps.len() == 0 {
        -1
    } else {
        let k = preset_idx(ps.drop_last(), id);
        if k >= 0 { k } else if ps.last().id@ == id { ps.len() - 1 } else { -1 }
    }
}

proof fn lemma_preset_idx(ps: Seq<Preset>, id: Seq<char>)
    ensures
        -1 <= preset_idx(ps, id) < ps.len(),
        preset_idx(ps, id) >= 0 ==> ps[preset_idx(ps, id)].id@ == id,
        forall|j: int| 0 <= j < ps.len() && (preset_idx(ps, id) < 0 || j < preset_idx(ps, id)) ==> (#[trigger] ps[j]).id@ != id,
    decreases ps.len(),
{
    if ps.len() > 0 {
        lemma_preset_idx(ps.drop_last(), id);
        assert forall|j: int| 0 <= j < ps.len() - 1 implies #[trigger] ps[j] == ps.drop_last()[j] by {}
    }
}

/// Position of the preset with this identifier.
pub fn find_preset(ps: &Vec<Preset>, id: &str) -> (r: Option<usize>)
    ensures
        match r {
            Some(i) => i < ps@.len() && i as int == preset_idx(ps@, id@),
            None => preset_idx(ps@, id@) < 0,
        },
{
    proof {
        lemma_preset_idx(ps@, id@);
    }
    let mut i: usize = 0;
    while i < ps.len()
        invariant
            i <= ps@.len(),
            forall|j: int| 0 <= j < i ==> (#[trigger] ps@[j]).id@ != id@,
        decreases ps@.len() - i,
    {
        if str_eq(ps[i].id.as_str(), id) {
            proof {
                lemma_preset_idx(ps@, id@);
                assert(ps@[i as int].id@ == id@);
            }
            return Some(i);
        }
        i = i + 1;
    }
    None
}

/// Whether a device is not the one with identifier `id`.
pub open spec fn device_other_than(d: DeviceRecord, id: Seq<char>) -> bool {
    d.id@ != id
}

/// Whether a preset is not the one with identifier `id`.
pub open spec fn preset_other_than(p: Preset, id: Seq<char>) -> bool {
    p.id@ != id
}

/// The devices other than `id`, moved out of `ds` in order.
fn take_devices_without(ds: &mut Vec<DeviceRecord>, id: &str) -> (r: Vec<DeviceRecord>)
    ensures
        r@ == old(ds)@.filter(|d: DeviceRecord| device_other_than(d, id@)),
{
    let mut rest: Vec<DeviceRecord> = Vec::new();
    std::mem::swap(&mut rest, ds);
    let ghost orig = rest@;
    let mut out: Vec<DeviceRecord> = Vec::new();
    let mut k: usize = 0;
    let n = rest.len();
    while k < n
        invariant
            n == orig.len(),
            k <= orig.len(),
            rest@ == orig.skip(k as int),
            rest@.len() == orig.len() - k,
            out@ == orig.take(k as int).filter(|d: DeviceRecord| device_other_than(d, id@)),
        decreases n - k,
    {
        let d = rest.remove(0);
        proof {
            assert(d == orig[k as int]);
            assert(orig.take(k + 1).drop_last() =~= orig.take(k as int));
            reveal(Seq::filter);
            assert(orig.take(k + 1).last() == orig[k as int]);
            assert(rest@ =~= orig.skip(k + 1));
        }
        if !str_eq(d.id.as_str(), id) {
            out.push(d);
        }
        k = k + 1;
    }
    proof {
        assert(orig.take(k as int) =~= orig);
    }
    out
}

/// The presets other than `id`, moved out of `prs` in order.
fn take_presets_other_than(prs: &mut Vec<Preset>, id: &str) -> (r: Vec<Preset>)
    ensures
        r@ == old(prs)@.filter(|p: Preset| preset_other_than(p, id@)),
{
    let mut rest: Vec<Preset> = Vec::new();
    std::mem::swap(&mut rest, prs);
    let ghost orig = rest@;
    let mut out: Vec<Preset> = Vec::new();
    let mut k: usize = 0;
    let n = rest.len();
    while k < n
        invariant
            n == orig.len(),
            k <= orig.len(),
            rest@ == orig.skip(k as int),
            rest@.len() == orig.len() - k,
            out@ == orig.take(k as int).filter(|p: Preset| preset_other_than(p, id@)),
        decreases n - k,
    {
        let p = rest.remove(0);
        proof {
            assert(p == orig[k as int]);
            assert(orig.take(k + 1).drop_last() =~= orig.take(k as int));
            reveal(Seq::filter);
            assert(orig.take(k + 1).last() == orig[k as int]);
            assert(rest@ =~= orig.skip(k + 1));
        }
        if !str_eq(p.id.as_str(), id) {
            out.push(p);
        }
        k = k + 1;
    }
    proof {
        assert(orig.take(k as int) =~= orig);
    }
    out
}

/// The message when a device is not remembered.
pub open spec fn no_device_text(id: Seq<char>) -> Seq<char> {
    "记忆库里没有这个设备："@ + id
}

fn no_device(id: &str) -> (r: String)
    ensures
        r@ == no_device_text(id@),
{
    let mut s = String::new();
    push_str(&mut s, "记忆库里没有这个设备：");
    push_str(&mut s, id);
    s
}

impl Config {
    /// Creates or updates a project. With the identifier of an existing project, its
    /// name and destinations are replaced; otherwise a new project is added, and it
    /// becomes current when none is. Returns the project's identifier.
    pub fn upsert_project(&mut self, id: Option<&str>, name: &str, destinations: Vec<DestinationConfig>, at: Moment) -> (r: String)
        ensures
            ({
                let old_ps = old(self).projects@;
                let ps = final(self).projects@;
                let i = match id { Some(x) => project_idx(old_ps, x@), None => -1 };
                if i >= 0 {
                    &&& r@ == old_ps[i].id@
                    &&& ps.len() == old_ps.len()
                    &&& forall|k: int| 0 <= k < ps.len() && k != i ==> #[trigger] ps[k] == old_ps[k]
                    &&& ps[i].id == old_ps[i].id
                    &&& ps[i].created_at == old_ps[i].created_at
                    &&& ps[i].name@ == name@
                    &&& ps[i].destinations@ == destinations@
                    &&& final(self).current_project == old(self).current_project
                } else {
                    &&& ps.len() == old_ps.len() + 1
                    &&& ps.drop_last() == old_ps
                    &&& ps.last().name@ == name@
                    &&& ps.last().destinations@ == destinations@
                    &&& ps.last().created_at == at
                    &&& exists|ms: u64, n: u64| ps.last().id@ == #[trigger] id_text("prj"@, ms as nat, n as nat)
                    &&& r@ == ps.last().id@
                    &&& opt_view(final(self).current_project) == match old(self).current_project {
                        None => Some(r@),
                        Some(c) => Some(c@),
                    }
                }
            }),
            final(self).presets == old(self).presets,
            final(self).devices == old(self).devices,
            final(self).settings == old(self).settings,
            final(self).version == old(self).version,
    {
        let found = match id {
            Some(x) => find_project(&self.projects, x),
            None => None,
        };
        match found {
            Some(i) => {
                self.projects[i].name = owned(name);
                self.projects[i].destinations = destinations;
                owned(self.projects[i].id.as_str())
            },
            None => {
                let mut p = Project::new(name, at);
                p.destinations = destinations;
                let pid = owned(p.id.as_str());
                if self.current_project.is_none() {
                    self.current_project = Some(owned(pid.as_str()));
                }
                let ghost before = self.projects@;
                self.projects.push(p);
                proof {
                    assert(self.projects@.drop_last() =~= before);
                }
                pid
            },
        }
    }

    /// Forgets a remembered device: the next time it arrives it is new again.
    pub fn forget_device(&mut self, id: &str)
        ensures
            final(self).devices@ == old(self).devices@.filter(|d: DeviceRecord| device_other_than(d, id@)),
            final(self).projects == old(self).projects,
            final(self).current_project == old(self).current_project,
            final(self).presets == old(self).presets,
            final(self).settings == old(self).settings,
            final(self).version == old(self).version,
    {
        let kept = take_devices_without(&mut self.devices, id);
        self.devices = kept;
    }

    /// Renames a remembered device.
    pub fn rename_device(&mut self, id: &str, name: &str) -> (r: Result<(), String>)
        ensures
            ({
                let i = device_idx(old(self).devices@, id@);
                match r {
                    Ok(()) => {
                        &&& i >= 0
                        &&& final(self).devices@.len() == old(self).devices@.len()
                        &&& forall|k: int| 0 <= k < old(self).devices@.len() && k != i ==> #[trigger] final(self).devices@[k] == old(self).devices@[k]
                        &&& final(self).devices@[i].custom_name@ == name@
                        &&& final(self).devices@[i].id == old(self).devices@[i].id
                        &&& final(self).devices@[i].kind == old(self).devices@[i].kind
                        &&& final(self).devices@[i].last_seen == old(self).devices@[i].last_seen
                        &&& final(self).devices@[i].instance == old(self).devices@[i].instance
                        &&& final(self).devices@[i].last_label == old(self).devices@[i].last_label
                        &&& final(self).devices@[i].total_bytes == old(self).devices@[i].total_bytes
                    },
                    Err(m) => i < 0 && m@ == no_device_text(id@) && final(self).devices == old(self).devices,
                }
            }),
            final(self).projects == old(self).projects,
            final(self).current_project == old(self).current_project,
            final(self).presets == old(self).presets,
            final(self).settings == old(self).settings,
            final(self).version == old(self).version,
    {
        match find_device(&self.devices, id) {
            None => Err(no_device(id)),
            Some(i) => {
                self.devices[i].custom_name = owned(name);
                Ok(())
            },
        }
    }

    /// Sets a remembered device's kind.
    pub fn set_device_kind(&mut self, id: &str, kind: DeviceKind) -> (r: Result<(), String>)
        ensures
            ({
                let i = device_idx(old(self).devices@, id@);
                match r {
                    Ok(()) => {
                        &&& i >= 0
                        &&& final(self).devices@ == old(self).devices@.update(i, DeviceRecord { kind, ..old(self).devices@[i] })
                    },
                    Err(m) => i < 0 && m@ == no_device_text(id@) && final(self).devices == old(self).devices,
                }
            }),
            final(self).projects == old(self).projects,
            final(self).current_project == old(self).current_project,
            final(self).presets == old(self).presets,
            final(self).settings == old(self).settings,
            final(self).version == old(self).version,
    {
        match find_device(&self.devices, id) {
            None => Err(no_device(id)),
            Some(i) => {
                self.devices[i].kind = kind;
                proof {
                    assert(self.devices@ =~= old(self).devices@.update(i as int, DeviceRecord { kind, ..old(self).devices@[i as int] }));
                }
                Ok(())
            },
        }
    }

    /// Adds a preset, or replaces the one with the same identifier in place.
    pub fn upsert_preset(&mut self, preset: Preset)
        ensures
            ({
                let i = preset_idx(old(self).presets@, preset.id@);
                if i >= 0 {
                    final(self).presets@ == old(self).presets@.update(i, preset)
                } else {
                    final(self).presets@ == old(self).presets@.push(preset)
                }
            }),
            final(self).projects == old(self).projects,
            final(self).current_project == old(self).current_project,
            final(self).devices == old(self).devices,
            final(self).settings == old(self).settings,
            final(self).version == old(self).version,
    {
        match find_preset(&self.presets, preset.id.as_str()) {
            Some(i) => {
                self.presets.set(i, preset);
            },
            None => {
                self.presets.push(preset);
            },
        }
    }

    /// Deletes a preset.
    pub fn delete_preset(&mut self, id: &str)
        ensures
            final(self).presets@ == old(self).presets@.filter(|p: Preset| preset_other_than(p, id@)),
            final(self).projects == old(self).projects,
            final(self).current_project == old(self).current_project,
            final(self).devices == old(self).devices,
            final(self).settings == old(self).settings,
            final(self).version == old(self).version,
    {
        let kept = take_presets_other_than(&mut self.presets, id);
        self.presets = kept;
    }

    /// Moves a preset one place up or down (presets are tried in order); at either end,
    /// or for an unknown preset, nothing changes.
    pub fn move_preset(&mut self, id: &str, up: bool)
        ensures
            ({
                let ps = old(self).presets@;
                let i = preset_idx(ps, id@);
                let j = if up { i - 1 } else { i + 1 };
                if i >= 0 && 0 <= j < ps.len() {
                    final(self).presets@ == ps.update(i, ps[j]).update(j, ps[i])
                } else {
                    final(self).presets == old(self).presets
                }
            }),
            final(self).projects == old(self).projects,
            final(self).current_project == old(self).current_project,
            final(self).devices == old(self).devices,
            final(self).settings == old(self).settings,
            final(self).version == old(self).version,
    {
        let ghost ps = self.presets@;
        if let Some(i) = find_preset(&self.presets, id) {
            let j: Option<usize> = if up {
                if i > 0 { Some(i - 1) } else { None }
            } else {
                if i < self.presets.len() - 1 { Some(i + 1) } else { None }
            };
            if let Some(j) = j {
                let p = self.presets.remove(i);
                self.presets.insert(j, p);
                proof {
                    assert(self.presets@ =~= ps.update(i as int, ps[j as int]).update(j as int, ps[i as int]));
                }
            }
        }
    }
}

} // verus!
