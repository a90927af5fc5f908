use steadcopy::i18n::Locale;
use steadcopy::map::model::{FolderMap, MapError};
use steadcopy::map::refresh::{apply_refresh, is_excluded_dir, refresh_steps, RefreshAnchor, RefreshPlan};

/// A directory tree kept in memory: every folder's path relative to the root, `/`
/// separated (parents need not be listed; `mkdirs` semantics).
struct Disk(Vec<String>);

impl Disk {
    fn mkdirs(rels: &[&str]) -> Disk {
        let mut d = Disk(Vec::new());
        d.add(rels);
        d
    }

    fn add(&mut self, rels: &[&str]) {
        for r in rels {
            let parts: Vec<&str> = r.split('/').collect();
            for k in 1..=parts.len() {
                let p = parts[..k].join("/");
                if !self.0.contains(&p) {
                    self.0.push(p);
                }
            }
        }
    }

    /// The names of the folders directly under `prefix`, in no particular order.
    fn read_dir(&self, prefix: &[String]) -> Vec<String> {
        let mut out = Vec::new();
        for p in &self.0 {
            let parts: Vec<&str> = p.split('/').collect();
            if parts.len() == prefix.len() + 1 && parts[..prefix.len()].iter().zip(prefix).all(|(a, b)| *a == b) {
                out.push(parts[prefix.len()].to_string());
            }
        }
        out.reverse();
        out
    }
}

/// The walk the application makes over real folders, over the in-memory tree.
fn walk(map: &FolderMap, anchor: RefreshAnchor, disk: &Disk, prefix: &mut Vec<String>, plan: &mut RefreshPlan) {
    let names = disk.read_dir(prefix);
    for step in refresh_steps(map, &anchor, prefix.len(), &names) {
        plan.note(prefix, &step);
        if let Some(next) = step.next_anchor() {
            prefix.push(step.name().to_string());
            walk(map, next, disk, prefix, plan);
            prefix.pop();
        }
    }
}

fn diff_refresh(map: &FolderMap, disk: &Disk) -> RefreshPlan {
    let mut plan = RefreshPlan::new();
    walk(map, RefreshAnchor::Top, disk, &mut Vec::new(), &mut plan);
    plan
}

fn paths(plan: &RefreshPlan) -> Vec<String> {
    plan.additions.iter().map(|a| a.display_path()).collect()
}

#[test]
fn scenario_copy_map_external_dirs_merge_after_confirm() {
    let disk = Disk::mkdirs(&["素材/视频", "素材/照片", "素材/照片/精选", "备份"]);
    let mut map = FolderMap::default();
    let su = map.add_node(None, "素材").expect("素材");
    map.add_node(Some(&su), "视频").expect("视频");

    let plan = diff_refresh(&map, &disk);
    assert_eq!(paths(&plan), vec!["备份", "素材/照片", "素材/照片/精选"]);

    let created = apply_refresh(&mut map, &plan).expect("合并");
    assert_eq!(created.len(), 3);
    map.validate().expect("合并后结构完好");
    let zhaopian = map.find_child(Some(&su), "照片").expect("照片挂在素材下").id.clone();
    assert!(map.find_child(Some(&zhaopian), "精选").is_some(), "精选挂在照片下");
    assert!(map.find_child(None, "备份").is_some(), "备份挂在顶层");
    assert!(diff_refresh(&map, &disk).is_empty());
}

#[test]
fn scenario_copy_map_refresh_excludes_hidden_and_system_dirs() {
    let disk = Disk::mkdirs(&[".thumbnails", "$RECYCLE.BIN/S-1-5-21", "System Volume Information", "正经目录"]);
    let plan = diff_refresh(&FolderMap::default(), &disk);
    assert_eq!(paths(&plan), vec!["正经目录"], "杂物目录 MUST NOT 出现在候选清单里");
    assert!(is_excluded_dir(".hidden"));
    assert!(is_excluded_dir("$RECYCLE.BIN"));
    assert!(is_excluded_dir("$recycle.bin"));
    assert!(is_excluded_dir("System Volume Information"));
    assert!(!is_excluded_dir("素材"));
    assert!(!is_excluded_dir("DCIM"));
}

#[test]
fn scenario_copy_map_refresh_matches_case_insensitively() {
    let disk = Disk::mkdirs(&["dcim/子层"]);
    let mut map = FolderMap::default();
    map.add_node(None, "DCIM").expect("DCIM");
    let plan = diff_refresh(&map, &disk);
    assert_eq!(paths(&plan), vec!["dcim/子层"], "dcim 本身不该被当成新目录");
}

#[test]
fn scenario_copy_map_refresh_reports_unmappable_dirs() {
    let disk = Disk::mkdirs(&["正经目录", "{3EA8D3CF-0000-0000-0000-000000000000}/子层"]);
    let plan = diff_refresh(&FolderMap::default(), &disk);
    assert_eq!(paths(&plan), vec!["正经目录"], "坏名不进候选");
    assert_eq!(plan.skipped.len(), 1, "坏名单列一条；它的子层不再展开");
    assert_eq!(plan.skipped[0].display_path(), "{3EA8D3CF-0000-0000-0000-000000000000}");
    assert!(matches!(plan.skipped[0].reason, MapError::BadPlaceholder { .. }), "原因要带 MapError 本体：{:?}", plan.skipped[0].reason);
    let zh = plan.skipped[0].reason.describe(Locale::Zh);
    let en = plan.skipped[0].reason.describe(Locale::En);
    assert!(!zh.trim().is_empty() && !en.trim().is_empty());
    assert_ne!(zh, en);
    let mut map = FolderMap::default();
    apply_refresh(&mut map, &plan).expect("合并");
    assert!(map.find_child(None, "正经目录").is_some());
    assert_eq!(map.nodes.len(), 1, "skipped 的目录不进树");
}

#[test]
fn scenario_copy_map_refresh_apply_merges_only_confirmed() {
    let mut disk = Disk::mkdirs(&["备份"]);
    let mut map = FolderMap::default();
    let plan = diff_refresh(&map, &disk);
    let confirmed: Vec<String> = paths(&plan);
    assert_eq!(confirmed, vec!["备份"], "用户看到并确认的就这一条");
    disk.add(&["派发新建的目录"]);
    let recomputed = diff_refresh(&map, &disk);
    assert_eq!(recomputed.additions.len(), 2, "重算确实看见了新目录，测试才有效");
    let filtered = recomputed.confirmed_only(&confirmed);
    apply_refresh(&mut map, &filtered).expect("合并");
    assert!(map.find_child(None, "备份").is_some(), "确认过的要并入");
    assert!(map.find_child(None, "派发新建的目录").is_none(), "确认集之外的新条目 MUST NOT 并入——留给下一次刷新");
    let gone = recomputed.confirmed_only(&["早已不存在".to_string()]);
    assert!(gone.additions.is_empty());
}

#[test]
fn refresh_steps_sort_and_stop_at_the_depth_limit() {
    let map = FolderMap::default();
    let names = vec!["b".to_string(), "B".to_string(), "a".to_string(), ".x".to_string()];
    let steps = refresh_steps(&map, &RefreshAnchor::Top, 0, &names);
    let order: Vec<&str> = steps.iter().map(|s| s.name()).collect();
    assert_eq!(order, vec!["B", "a", "b"]);
    assert!(refresh_steps(&map, &RefreshAnchor::Fresh, 12, &names).is_empty());
}
