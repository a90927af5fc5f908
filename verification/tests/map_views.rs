use steadcopy::i18n::Locale;
use steadcopy::map::model::{FolderMap, MapError};
use steadcopy::map::refresh::{apply_refresh, is_excluded_dir, RefreshAddition, RefreshPlan};
use steadcopy::map::template::{export_template_string, import_template_string, MapTemplate};
use steadcopy::organize::TemplateError;

#[test]
fn scenario_copy_map_assignment_add_remove_guarded() {
    let mut map = FolderMap::default();
    let a = map.add_node(None, "视频").expect("A");
    let b = map.add_node(None, "照片").expect("B");

    let id = map.add_assignment("vol:1", "A7M4", &a).expect("首条");
    map.add_assignment("vol:1", "A7M4", &b).expect("同一张卡连第二个节点");
    map.add_assignment("vol:2", "H6", &a).expect("同节点第二张卡");
    assert!(matches!(
        map.add_assignment("vol:1", "A7M4", &a),
        Err(MapError::DuplicateAssignment { .. })
    ));
    assert!(matches!(
        map.add_assignment("vol:1", "A7M4", "map-不存在"),
        Err(MapError::NodeMissing { .. })
    ));

    let removed = map.remove_assignment(&id).expect("摘线");
    assert_eq!(removed.node_id, a);
    assert!(matches!(
        map.remove_assignment(&id),
        Err(MapError::AssignmentMissing { .. })
    ));
    assert_eq!(map.assignments.len(), 2);
}

#[test]
fn scenario_copy_map_string_template_imports_as_chain() {
    let map = import_template_string("{项目}/{日期}/{设备}").expect("导入");
    assert_eq!(map.nodes.len(), 3, "三层链");

    let roots = map.children(None);
    assert_eq!(roots.len(), 1);
    assert_eq!(roots[0].name, "{项目}");
    let l2 = map.children(Some(&roots[0].id));
    assert_eq!(l2.len(), 1);
    assert_eq!(l2[0].name, "{日期}");
    let l3 = map.children(Some(&l2[0].id));
    assert_eq!(l3.len(), 1);
    assert_eq!(l3[0].name, "{设备}");
    assert!(map.children(Some(&l3[0].id)).is_empty());
    map.validate().expect("导入的树结构完好");

    match import_template_string("素材/{年}").expect_err("缺必需占位符必须被拒") {
        MapError::BadTemplateString { reason, .. } => {
            assert_eq!(reason, TemplateError::MissingRequiredPlaceholder);
        }
        other => panic!("错误类型不对：{other:?}"),
    }
    let map = import_template_string(r"{项目}\{设备}").expect("反斜杠");
    assert_eq!(map.nodes.len(), 2);
}

#[test]
fn scenario_copy_map_branching_tree_export_rejected() {
    let chain = import_template_string("{项目}/{日期}/{设备}").expect("链");
    assert_eq!(
        export_template_string(&chain).expect("链应能导出"),
        "{项目}/{日期}/{设备}"
    );

    let mut fork = import_template_string("{项目}/{日期}").expect("底链");
    let mid = fork.children(None)[0].id.clone();
    fork.add_node(Some(&mid), "{设备}").expect("岔枝");
    let e = export_template_string(&fork).expect_err("分叉必须被拒");
    match &e {
        MapError::NotAChain { at: Some(name), branches: 2 } => {
            assert_eq!(name, "{项目}");
        }
        other => panic!("错误类型不对：{other:?}"),
    }
    let msg = e.describe(Locale::Zh);
    assert!(msg.contains("表达不了分叉"), "{msg}");

    let mut flat = FolderMap::default();
    flat.add_node(None, "{项目}").expect("一");
    flat.add_node(None, "{设备}").expect("二");
    assert!(matches!(
        export_template_string(&flat),
        Err(MapError::NotAChain { at: None, branches: 2 })
    ));

    assert!(matches!(
        export_template_string(&FolderMap::default()),
        Err(MapError::EmptyMap)
    ));

    let mut plain = FolderMap::default();
    let a = plain.add_node(None, "素材").expect("素材");
    plain.add_node(Some(&a), "视频").expect("视频");
    assert!(matches!(
        export_template_string(&plain),
        Err(MapError::BadTemplateString { .. })
    ));
}

#[test]
fn scenario_copy_map_template_save_and_apply() {
    let mut map = import_template_string("{项目}/{日期}/{设备}").expect("链");
    let leaf = map
        .children(None)
        .first()
        .map(|r| r.id.clone())
        .expect("根");
    map.add_assignment("vol:1", "A7M4", &leaf).expect("现场落位");

    let tpl = MapTemplate::from_map("婚礼模板", &map);
    assert!(tpl.map.assignments.is_empty(), "模板 MUST NOT 带走现场落位");
    assert_eq!(tpl.name, "婚礼模板");

    let inst = tpl.instantiate().expect("套用");
    inst.validate().expect("套出来的树结构完好");
    assert_eq!(inst.nodes.len(), tpl.map.nodes.len());
    assert!(inst.assignments.is_empty());
    let names = |m: &FolderMap| -> Vec<String> { m.nodes.iter().map(|n| n.name.clone()).collect() };
    assert_eq!(names(&inst), names(&tpl.map));
    for n in &inst.nodes {
        assert!(tpl.map.node(&n.id).is_none(), "实例的 id 不该与模板重合：{}", n.id);
    }
}

#[test]
fn scenario_copy_map_refresh_merge_is_atomic_on_bad_names() {
    let mut map = FolderMap::default();
    map.add_node(None, "素材").expect("素材");
    let before = map.clone();

    let plan = RefreshPlan {
        additions: vec![
            RefreshAddition { segments: vec!["好目录".into()] },
            RefreshAddition { segments: vec!["CON".into()] },
        ],
        skipped: Vec::new(),
    };
    let e = apply_refresh(&mut map, &plan).expect_err("保留名必须被拒");
    assert!(matches!(e, MapError::ReservedName { .. }));
    assert_eq!(map, before, "任何一条不合法就整批不动");
}

#[test]
fn refresh_excluded_dirs() {
    assert!(is_excluded_dir(".hidden"));
    assert!(is_excluded_dir("$RECYCLE.BIN"));
    assert!(is_excluded_dir("$recycle.bin"));
    assert!(is_excluded_dir("System Volume Information"));
    assert!(!is_excluded_dir("素材"));
    assert!(!is_excluded_dir("DCIM"));
}

#[test]
fn imported_template_exports_as_its_segments_joined_with_slashes() {
    for (raw, back) in [
        ("{项目}/{日期}/{设备}", "{项目}/{日期}/{设备}"),
        (r"{项目}\{设备}", "{项目}/{设备}"),
        ("//{项目}//素材{年}/", "{项目}/素材{年}"),
    ] {
        let map = import_template_string(raw).expect(raw);
        let out = export_template_string(&map).expect(raw);
        assert_eq!(out, back);
        let again = import_template_string(&out).expect("再导入");
        assert_eq!(export_template_string(&again).expect("再导出"), back);
    }
}

#[test]
fn import_reports_the_first_segment_that_cannot_be_a_node() {
    match import_template_string("{项目}/CON/{日期}/a<b/{设备}") {
        Err(MapError::ReservedName { .. }) => {}
        other => panic!("the reserved name comes first: {other:?}"),
    }
    let deep = "{项目}/{日期}/{设备}/a/b/c/d/e/f/g/h/i/j";
    match import_template_string(deep) {
        Err(MapError::TooDeep { max }) => assert_eq!(max, 12),
        other => panic!("thirteen levels are too deep: {other:?}"),
    }
    let twelve = "{项目}/{日期}/{设备}/a/b/c/d/e/f/g/h/i";
    let map = import_template_string(twelve).expect("twelve levels fit");
    assert_eq!(map.nodes.len(), 12);
    assert!(map.validate().is_ok());
}

#[test]
fn a_template_of_a_valid_map_always_instantiates() {
    let mut m = FolderMap::default();
    let a = m.add_node(None, "{项目}").expect("a");
    let b = m.add_node(Some(a.as_str()), "{日期}").expect("b");
    m.add_node(Some(a.as_str()), "{设备}").expect("c");
    m.add_node(Some(b.as_str()), "素材").expect("d");
    assert!(m.validate().is_ok());
    let tpl = MapTemplate::from_map("样板", &m);
    let inst = tpl.instantiate().expect("a valid map's template instantiates");
    assert!(inst.validate().is_ok());
    assert_eq!(inst.nodes.len(), 4);
    for (x, y) in inst.nodes.iter().zip(m.nodes.iter()) {
        assert_eq!(x.name, y.name);
        assert!(m.nodes.iter().all(|n| n.id != x.id));
    }
}

#[test]
fn refused_merge_names_a_failing_segment() {
    let mut map = FolderMap::default();
    map.add_node(None, "素材").expect("top");
    let plan = RefreshPlan {
        additions: vec![
            RefreshAddition { segments: vec!["素材".into(), "好目录".into()] },
            RefreshAddition { segments: vec!["素材".into(), "bad|name".into()] },
        ],
        skipped: vec![],
    };
    let before = map.clone();
    match apply_refresh(&mut map, &plan) {
        Err(MapError::IllegalCharacter { .. }) => {}
        other => panic!("the illegal character is reported: {other:?}"),
    }
    assert_eq!(map, before);
    let ok = RefreshPlan { additions: vec![RefreshAddition { segments: vec!["素材".into(), "好目录".into()] }], skipped: vec![] };
    let created = apply_refresh(&mut map, &ok).expect("every segment is a valid name");
    assert_eq!(created.len(), 1);
}

#[test]
fn a_hand_edited_chain_still_exports() {
    let mut map = import_template_string("{项目}/素材/{设备}").expect("chain");
    map.nodes[1].name = "CON".into();
    assert!(map.validate().is_err());
    assert_eq!(export_template_string(&map).expect("the walk ends"), "{项目}/CON/{设备}");
}
