use steadcopy::i18n::Locale;
use steadcopy::map::model::{Assignment, FolderMap, MapError, MAX_DEPTH, MAX_NAME_CHARS};
use steadcopy::organize::TemplateError;

fn chain(map: &mut FolderMap, names: &[&str]) -> Vec<String> {
    let mut parent: Option<String> = None;
    let mut ids = Vec::new();
    for n in names {
        let id = map.add_node(parent.as_deref(), n).expect("建链");
        parent = Some(id.clone());
        ids.push(id);
    }
    ids
}

#[test]
fn scenario_copy_map_illegal_node_name_rejected_on_the_spot() {
    let mut map = FolderMap::default();
    let id = map.add_node(None, "素材").expect("合法名");
    let before = map.clone();

    for bad in ["a<b", "a>b", "a:b", "a\"b", "a/b", "a\\b", "a|b", "a?b", "a*b", "a\u{7}b"] {
        let e = map.rename_node(&id, bad).expect_err("非法字符必须被拒");
        assert!(matches!(e, MapError::IllegalCharacter { .. }), "{bad} → {e:?}");
        assert_eq!(map, before, "改名被拒后树必须保持原状");
    }

    for bad in ["CON", "con", "PRN", "NUL", "AUX", "COM1", "lpt9", "CON.txt"] {
        let e = map.rename_node(&id, bad).expect_err("保留名必须被拒");
        assert!(matches!(e, MapError::ReservedName { .. }), "{bad} → {e:?}");
        assert_eq!(map, before);
    }

    let e = map.rename_node(&id, "a:b").expect_err("拒绝");
    assert!(!e.describe(Locale::Zh).trim().is_empty());
    assert!(!e.describe(Locale::En).trim().is_empty());
    assert_ne!(e.describe(Locale::Zh), e.describe(Locale::En));

    assert!(matches!(map.rename_node(&id, "  "), Err(MapError::EmptyName)));
    assert!(matches!(map.rename_node(&id, "素材."), Err(MapError::PaddedName { .. })));
    assert!(matches!(map.rename_node(&id, " 素材"), Err(MapError::PaddedName { .. })));
    assert_eq!(map, before);
}

#[test]
fn scenario_copy_map_duplicate_sibling_name_rejected() {
    let mut map = FolderMap::default();
    let root = map.add_node(None, "素材").expect("根");
    map.add_node(Some(&root), "DCIM").expect("首个");

    for dup in ["DCIM", "dcim", "Dcim"] {
        let e = map.add_node(Some(&root), dup).expect_err("重名必须被拒");
        assert!(matches!(e, MapError::DuplicateSibling { .. }), "{dup} → {e:?}");
    }
    let other = map.add_node(Some(&root), "PRIVATE").expect("另一个");
    assert!(matches!(
        map.rename_node(&other, "dcim"),
        Err(MapError::DuplicateSibling { .. })
    ));
    map.add_node(None, "DCIM").expect("顶层同名不算兄弟");
    let sub = map.add_node(Some(&other), "DCIM").expect("不同父下同名合法");
    map.rename_node(&sub, "DCIM").expect("改成自己现在的名字应放行");
}

#[test]
fn scenario_copy_map_reparent_under_own_descendant_rejected() {
    let mut map = FolderMap::default();
    let ids = chain(&mut map, &["A", "B", "C"]);
    let before = map.clone();

    let e = map.move_node(&ids[0], Some(&ids[2])).expect_err("挂到后代必须被拒");
    assert!(matches!(e, MapError::WouldCycle { .. }));
    assert_eq!(map, before, "被拒后树必须保持原状");
    assert!(matches!(
        map.move_node(&ids[0], Some(&ids[0])),
        Err(MapError::WouldCycle { .. })
    ));
    assert_eq!(map, before);

    map.move_node(&ids[2], None).expect("提到顶层");
    assert!(map.node(&ids[2]).expect("C").parent.is_none());
    map.validate().expect("换父后结构完好");
}

#[test]
fn scenario_copy_map_depth_limit_enforced() {
    let mut map = FolderMap::default();
    let names: Vec<String> = (1..=MAX_DEPTH).map(|i| format!("层{i}")).collect();
    let refs: Vec<&str> = names.iter().map(String::as_str).collect();
    let ids = chain(&mut map, &refs);
    let e = map
        .add_node(ids.last().map(String::as_str), "多一层")
        .expect_err("第 13 层必须被拒");
    assert!(matches!(e, MapError::TooDeep { max } if max == MAX_DEPTH));

    let sub = map.add_node(None, "子树").expect("顶层");
    map.add_node(Some(&sub), "叶子").expect("两层");
    assert!(matches!(
        map.move_node(&sub, Some(&ids[MAX_DEPTH - 2])),
        Err(MapError::TooDeep { .. })
    ));
    map.move_node(&sub, Some(&ids[MAX_DEPTH - 3])).expect("恰到上限应放行");
}

#[test]
fn scenario_copy_map_name_length_limit() {
    let mut map = FolderMap::default();
    map.add_node(None, &"字".repeat(MAX_NAME_CHARS)).expect("100 字符应放行");
    let e = map
        .add_node(None, &"字".repeat(MAX_NAME_CHARS + 1))
        .expect_err("101 字符必须被拒");
    assert!(matches!(e, MapError::NameTooLong { actual: 101, .. }));
}

#[test]
fn scenario_copy_map_node_names_accept_placeholders() {
    let mut map = FolderMap::default();
    for ok in ["{项目}", "{日期}", "{设备}", "{年}-{月}", "素材{卡}"] {
        map.add_node(None, ok).expect(ok);
    }
    match map.add_node(None, "{不存在}").expect_err("未知占位符必须被拒") {
        MapError::BadPlaceholder { reason, .. } => {
            assert!(matches!(reason, TemplateError::UnknownPlaceholder(_)));
        }
        other => panic!("错误类型不对：{other:?}"),
    }
    assert!(matches!(
        map.add_node(None, "{项目"),
        Err(MapError::BadPlaceholder { .. })
    ));
}

#[test]
fn scenario_copy_map_remove_node_removes_subtree_and_assignments() {
    let mut map = FolderMap::default();
    let ids = chain(&mut map, &["A", "B", "C"]);
    let other = map.add_node(None, "留下").expect("旁支");
    map.add_assignment("vol:1", "A7M4", &ids[1]).expect("落位 B");
    map.add_assignment("vol:1", "A7M4", &ids[2]).expect("落位 C");
    map.add_assignment("vol:2", "H6", &other).expect("落位旁支");

    let removed = map.remove_node(&ids[1]).expect("删 B");
    assert_eq!(removed.len(), 2, "B 与 C 都该在被删清单里");
    assert!(map.node(&ids[1]).is_none() && map.node(&ids[2]).is_none());
    assert_eq!(map.assignments.len(), 1, "B、C 上的落位要连带删掉");
    assert_eq!(map.assignments[0].device_id, "vol:2", "旁支的落位不受牵连");
    assert!(map.node(&ids[0]).expect("A").children.is_empty(), "父的子表要摘掉 B");
    map.validate().expect("删完结构完好");
}

#[test]
fn scenario_copy_map_validate_catches_hand_edited_corruption() {
    let mut map = FolderMap::default();
    let ids = chain(&mut map, &["A", "B"]);
    map.validate().expect("好树");

    let mut broken = map.clone();
    let b = broken.find_index(&ids[1]).expect("B");
    broken.nodes[b].parent = Some("map-不存在".into());
    assert!(matches!(broken.validate(), Err(MapError::Inconsistent { .. })));

    let mut broken = map.clone();
    broken.assignments.push(Assignment {
        id: "lnk-1".into(),
        device_id: "vol:1".into(),
        device_name: "A7M4".into(),
        node_id: "map-不存在".into(),
    });
    assert!(matches!(broken.validate(), Err(MapError::Inconsistent { .. })));

    let mut broken = map.clone();
    let a = broken.find_index(&ids[0]).expect("A");
    broken.nodes[a].parent = Some(ids[1].clone());
    assert!(broken.validate().is_err(), "环必须被识破");
}

#[test]
fn move_keeps_map_valid_and_carries_the_subtree() {
    let mut map = FolderMap::default();
    let a = chain(&mut map, &["A", "B", "C"]);
    let x = map.add_node(None, "X").expect("X");
    map.move_node(&a[1], Some(&x)).expect("B 挂到 X 下");
    map.validate().expect("移动后结构完好");
    assert_eq!(map.depth_of(&a[2]).expect("C"), 3);
    assert_eq!(map.path_segments(&a[2]).expect("C"), vec!["X", "B", "C"]);
    assert!(map.children(Some(&a[0])).is_empty());
    map.move_node(&a[1], Some(&x)).expect("挂回同一父节点");
    map.validate().expect("仍然完好");
    assert_eq!(map.children(Some(&x)).len(), 1);
}
