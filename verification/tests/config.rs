use steadcopy::config::model::{Config, Preset, Project};
use steadcopy::device::kind::{DeviceKind, DeviceRecord};
use steadcopy::config::store::{check_config_version, corrupt_backup_name, prepare_save, ConfigLoadError, SaveError};
use steadcopy::config::model::{CONFIG_VERSION, new_id, ArrivalMode, ConfigError, DestinationConfig, Settings, DEFAULT_TEMPLATE};
use steadcopy::manifest::store::Moment;

fn to_moment(t: time::OffsetDateTime) -> Moment {
    Moment::from_parts(t.unix_timestamp(), t.nanosecond(), t.offset().whole_seconds()).expect("moment")
}

#[test]
fn scenario_preset_autorun_arrival_mode_derivation() {
    let mut s = Settings::default();
    assert_eq!(s.arrival_mode(), ArrivalMode::Confirm, "默认必须是确认档");
    assert!(!s.skip_confirmation, "跳过确认默认必须是关");

    s.skip_confirmation = true;
    assert_eq!(s.arrival_mode(), ArrivalMode::Unattended);

    s.auto_prefill = false;
    assert_eq!(s.arrival_mode(), ArrivalMode::Manual);
    s.skip_confirmation = false;
    assert_eq!(s.arrival_mode(), ArrivalMode::Manual);
}

#[test]
fn scenario_config_store_ids_are_unique() {
    let ids: Vec<String> = (0..500).map(|_| new_id("x")).collect();
    let uniq: std::collections::HashSet<_> = ids.iter().collect();
    assert_eq!(uniq.len(), ids.len(), "同一毫秒内批量创建也不应撞 id");
}

#[test]
fn new_destination_uses_default_template() {
    let d = DestinationConfig::new(r"D:\素材");
    assert_eq!(d.template, DEFAULT_TEMPLATE);
    assert!(d.enabled);
    assert!(d.id.starts_with("dst-"));
    assert!(d.parsed_template().is_ok());
    let mut bad = d.clone();
    bad.template = "素材/{年}/{月}".into();
    assert!(bad.parsed_template().is_err());
}

#[test]
fn config_errors_read_as_sentences() {
    let e = ConfigError::NoEnabledDestination { project: "婚礼".into() };
    assert_eq!(e.describe(), "项目「婚礼」至少要有一个启用的目的地");
    let e = ConfigError::CountdownTooShort { secs: 5, min: 10 };
    assert_eq!(e.describe(), "不可逆操作的确认倒计时不能短于 10 秒（你设的是 5 秒）");
    let e = ConfigError::DestinationCount { project: "p".into(), count: 5 };
    assert_eq!(e.describe(), "项目「p」的目的地数量应为 1 到 4 个，实际 5 个");
}

fn at() -> Moment {
    to_moment(time::Date::from_calendar_date(2026, time::Month::August, 10)
        .unwrap()
        .with_hms(9, 0, 0)
        .unwrap()
        .assume_utc())
}

fn project_with(dests: usize) -> Project {
    let mut p = Project::new("婚礼", at());
    for i in 0..dests {
        p.destinations.push(DestinationConfig::new(&format!(r"D:\素材{i}")));
    }
    p
}

#[test]
fn scenario_config_store_destination_count_bounds() {
    for n in [1usize, 2, 4] {
        let mut c = Config::default();
        c.projects.push(project_with(n));
        assert!(c.validate().is_ok(), "{n} 个目的地应合法");
    }
    for n in [0usize, 5] {
        let mut c = Config::default();
        c.projects.push(project_with(n));
        assert!(matches!(c.validate(), Err(ConfigError::DestinationCount { .. })));
    }
}

#[test]
fn scenario_config_store_needs_one_enabled_destination() {
    let mut c = Config::default();
    let mut p = project_with(2);
    p.destinations[0].enabled = false;
    p.destinations[1].enabled = false;
    c.projects.push(p);
    let err = c.validate().expect_err("全禁用应被拒");
    assert!(matches!(err, ConfigError::NoEnabledDestination { .. }));
    assert!(err.describe().contains("至少要有一个启用"));
}

#[test]
fn scenario_config_store_bad_template_rejected_at_save() {
    let mut c = Config::default();
    let mut p = project_with(1);
    p.destinations[0].template = "素材/{年}/{月}".into();
    c.projects.push(p);
    let err = c.validate().expect_err("非法模板应被拒");
    match err {
        ConfigError::BadTemplate { reason, .. } => {
            assert!(reason.contains("项目") && reason.contains("日期") && reason.contains("设备"));
        }
        other => panic!("错误类型不对：{other:?}"),
    }
}

#[test]
fn scenario_config_store_preset_pointing_at_missing_project_rejected() {
    let mut c = Config::default();
    c.projects.push(project_with(1));
    let mut pr = Preset::new("摄影卡预设");
    pr.project_id = Some("prj-不存在".into());
    c.presets.push(pr);
    assert!(matches!(c.validate(), Err(ConfigError::PresetProjectMissing { .. })));
}

#[test]
fn scenario_config_store_effective_project_falls_back() {
    let mut c = Config::default();
    assert!(c.effective_project().is_none());
    c.projects.push(project_with(1));
    assert_eq!(c.effective_project().map(|p| p.id.clone()), Some(c.projects[0].id.clone()));
    c.current_project = Some("prj-已删".into());
    assert!(c.effective_project().is_some());
}

#[test]
fn scenario_config_store_remember_device_keeps_user_settings() {
    let mut c = Config::default();
    let mut rec = DeviceRecord::new("vol:1", "SD卡", 128, at());
    c.remember_device(rec.clone());

    // the user renames and classifies it
    let i = c.devices.iter().position(|d| d.id == "vol:1").expect("设备");
    c.devices[i].custom_name = "A7M4主卡".into();
    c.devices[i].kind = DeviceKind::Camera;

    rec.last_label = "SD卡改了卷标".into();
    rec.total_bytes = 256;
    rec.last_seen = to_moment(time::Date::from_calendar_date(2026, time::Month::August, 11)
        .unwrap()
        .with_hms(9, 0, 0)
        .unwrap()
        .assume_utc());
    c.remember_device(rec);

    let d = c.device("vol:1").expect("设备");
    assert_eq!(d.custom_name, "A7M4主卡", "自定义名 MUST NOT 被覆盖");
    assert_eq!(d.kind, DeviceKind::Camera, "类型 MUST NOT 被覆盖");
    assert_eq!(d.last_label, "SD卡改了卷标", "卷标应更新");
    assert_eq!(d.total_bytes, 256);
    assert_eq!(c.devices.len(), 1, "不应重复登记");
}

#[test]
fn scenario_config_store_remember_device_assigns_instance() {
    let mut c = Config::default();
    c.remember_device(DeviceRecord::new("vol:1", "SD卡", 128, at()));
    c.remember_device(DeviceRecord::new("vol:2", "SD卡", 128, at()));
    assert_eq!(c.devices[0].instance, 1);
    assert_eq!(c.devices[1].instance, 2, "重名应自动编号");
    assert_ne!(c.devices[0].display_name(), c.devices[1].display_name());
}

#[test]
fn scenario_format_card_countdown_defaults_and_floor() {
    let c = Config::default();
    assert_eq!(c.settings.countdown_secs, 30, "倒计时默认 30 秒");
    assert!(!c.settings.format_after_copy, "拷后自动格式化默认必须关");
    let mut bad = Config::default();
    bad.settings.countdown_secs = 5;
    assert!(matches!(bad.validate(), Err(ConfigError::CountdownTooShort { .. })));
    let mut ok = Config::default();
    ok.settings.countdown_secs = 10;
    assert!(ok.validate().is_ok(), "下限 10 秒本身应合法");
}

#[test]
fn config_checks_run_in_order() {
    let mut c = Config::default();
    c.settings.countdown_secs = 3;
    c.projects.push(project_with(0));
    let mut pr = Preset::new("x");
    pr.project_id = Some("nope".into());
    c.presets.push(pr);
    assert_eq!(c.validate(), Err(ConfigError::CountdownTooShort { secs: 3, min: 10 }));
    c.settings.countdown_secs = 30;
    assert_eq!(c.validate(), Err(ConfigError::DestinationCount { project: "婚礼".into(), count: 0 }));
    c.projects[0] = project_with(1);
    assert_eq!(c.validate(), Err(ConfigError::PresetProjectMissing { preset: "x".into(), project_id: "nope".into() }));
    let id = c.projects[0].id.clone();
    c.presets[0].project_id = Some(id.clone());
    assert_eq!(c.validate(), Ok(()));
    assert_eq!(c.project(&id).map(|p| p.name.as_str()), Some("婚礼"));
    assert!(c.project("nope").is_none());
}

#[test]
fn future_config_version_is_refused_with_a_hint_to_upgrade() {
    assert!(check_config_version(CONFIG_VERSION).is_ok());
    assert!(check_config_version(0).is_ok());
    let e = check_config_version(CONFIG_VERSION + 3).expect_err("未来版本必须被拒");
    assert_eq!(e, ConfigLoadError::FutureVersion { found: CONFIG_VERSION + 3, supported: CONFIG_VERSION });
    assert!(e.describe().contains("升级"));
    assert_eq!(
        e.describe(),
        "配置由更新版本的程序写入（格式版本 4，本程序支持到 1），请升级后再打开"
    );
}

#[test]
fn corrupt_config_is_kept_under_a_dated_name() {
    assert_eq!(corrupt_backup_name(255), "config.corrupt-ff.json");
    assert_eq!(corrupt_backup_name(0), "config.corrupt-0.json");
    let e = ConfigLoadError::Corrupt { reason: "EOF".into(), backup: Some("C:\\x\\config.corrupt-ff.json".into()) };
    assert_eq!(e.describe(), "配置文件内容损坏：EOF。原文件已保留在 C:\\x\\config.corrupt-ff.json，可据以人工恢复");
    let e = ConfigLoadError::Corrupt { reason: "EOF".into(), backup: None };
    assert_eq!(e.describe(), "配置文件内容损坏：EOF");
    assert_eq!(ConfigLoadError::Unreadable("拒绝访问".into()).describe(), "配置文件读取失败：拒绝访问");
}

#[test]
fn invalid_config_is_not_prepared_for_writing() {
    let mut c = Config::default();
    let mut p = project_with(0);
    p.name = "空".into();
    c.projects.push(p);
    match prepare_save(c) {
        Err(SaveError::Invalid(ConfigError::DestinationCount { count: 0, .. })) => {}
        other => panic!("零目的地必须拒绝写入：{other:?}"),
    }
    let mut ok = Config::default();
    ok.version = 0;
    ok.projects.push(project_with(1));
    let out = prepare_save(ok.clone()).expect("合法配置");
    assert_eq!(out.version, CONFIG_VERSION);
    assert_eq!(out.projects, ok.projects);
    assert_eq!(SaveError::Io("磁盘已满".into()).describe(), "配置写入失败：磁盘已满");
}

#[test]
fn deleting_a_project_takes_its_presets_and_moves_current() {
    let mut c = Config::default();
    let a = c.upsert_project(None, "婚礼", vec![DestinationConfig::new(r"D:\素材")], at());
    let b = c.upsert_project(None, "广告", vec![DestinationConfig::new(r"E:\素材")], at());
    assert_eq!(c.current_project.as_deref(), Some(a.as_str()), "第一个新项目成为当前项目");
    let mut pr = Preset::new("进婚礼");
    pr.project_id = Some(a.clone());
    c.upsert_preset(pr);
    let mut other = Preset::new("进广告");
    other.project_id = Some(b.clone());
    c.upsert_preset(other);
    assert!(c.validate().is_ok());

    c.delete_project(&a);
    assert_eq!(c.projects.len(), 1);
    assert_eq!(c.presets.len(), 1);
    assert_eq!(c.presets[0].name, "进广告");
    assert_eq!(c.current_project.as_deref(), Some(b.as_str()));
    assert!(c.validate().is_ok(), "删项目不留悬空预设");

    c.delete_project(&b);
    assert!(c.projects.is_empty() && c.presets.is_empty());
    assert_eq!(c.current_project, None);
}

#[test]
fn upserting_a_project_updates_in_place() {
    let mut c = Config::default();
    let a = c.upsert_project(None, "婚礼", vec![DestinationConfig::new(r"D:\素材")], at());
    let same = c.upsert_project(Some(&a), "婚礼-张先生", vec![DestinationConfig::new(r"F:\备份")], at());
    assert_eq!(same, a);
    assert_eq!(c.projects.len(), 1);
    assert_eq!(c.projects[0].name, "婚礼-张先生");
    assert_eq!(c.projects[0].destinations[0].root, r"F:\备份");
    let other = c.upsert_project(Some("prj-不存在"), "新项目", Vec::new(), at());
    assert_ne!(other, a);
    assert_eq!(c.projects.len(), 2);
    assert_eq!(c.current_project.as_deref(), Some(a.as_str()), "已有当前项目时不抢");
}

#[test]
fn remembered_devices_can_be_renamed_classified_and_forgotten() {
    let mut c = Config::default();
    c.remember_device(DeviceRecord::new("vol:1", "A7M4", 128, at()));
    c.rename_device("vol:1", "主机位").expect("改名");
    c.set_device_kind("vol:1", DeviceKind::Camera).expect("设类型");
    let d = c.device("vol:1").expect("在");
    assert_eq!(d.custom_name, "主机位");
    assert_eq!(d.kind, DeviceKind::Camera);
    assert_eq!(c.rename_device("vol:9", "x"), Err("记忆库里没有这个设备：vol:9".to_string()));
    assert!(c.set_device_kind("vol:9", DeviceKind::Camera).is_err());
    c.forget_device("vol:1");
    assert!(c.device("vol:1").is_none(), "删除记忆后视为新设备");
}

#[test]
fn presets_keep_their_order_and_move_one_step() {
    let mut c = Config::default();
    let names = ["一", "二", "三"];
    let mut ids = Vec::new();
    for n in names {
        let p = Preset::new(n);
        ids.push(p.id.clone());
        c.upsert_preset(p);
    }
    let order = |c: &Config| c.presets.iter().map(|p| p.name.clone()).collect::<Vec<_>>();
    c.move_preset(&ids[2], true);
    assert_eq!(order(&c), vec!["一", "三", "二"]);
    c.move_preset(&ids[0], true);
    assert_eq!(order(&c), vec!["一", "三", "二"], "顶端再上移不变");
    c.move_preset(&ids[0], false);
    assert_eq!(order(&c), vec!["三", "一", "二"]);
    c.move_preset(&ids[1], false);
    assert_eq!(order(&c), vec!["三", "一", "二"], "末端再下移不变");
    let mut renamed = c.presets[1].clone();
    renamed.name = "改".into();
    c.upsert_preset(renamed);
    assert_eq!(order(&c), vec!["三", "改", "二"]);
    c.delete_preset(&ids[2]);
    assert_eq!(order(&c), vec!["改", "二"]);
}
