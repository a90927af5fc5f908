use steadcopy::device::kind::{next_instance, DeviceRecord};
use steadcopy::device::eject::{can_eject, device_path, EjectError, Ejector, UnsupportedEjector};
use steadcopy::device::format::{
    check_safety, confirmation_phrase, decide_auto_format, label_matches, removability,
    validate_countdown, AutoFormatDecision, Removability, RemovabilityError, BLANK_LABEL_PHRASE,
    COUNTDOWN_DEFAULT_SECS, COUNTDOWN_MIN_SECS,
};
use steadcopy::device::formatter::FormatParams;
use steadcopy::device::kind::DeviceKind;
use steadcopy::device::volume::{BusType, Volume, VolumeState};
use steadcopy::device::watch::drive_letters_from_mask;
use steadcopy::i18n::Locale;
use steadcopy::manifest::store::Moment;

fn to_moment(t: time::OffsetDateTime) -> Moment {
    Moment::from_parts(t.unix_timestamp(), t.nanosecond(), t.offset().whole_seconds()).expect("moment")
}

fn vol(bus: BusType, system: bool) -> Volume {
    Volume {
        guid_path: r"\\?\Volume{11111111-2222-3333-4444-555555555555}\".into(),
        drive_letter: Some("E:".into()),
        label: "A7M4".into(),
        serial: Some(0xDEAD_BEEF),
        file_system: "exFAT".into(),
        total_bytes: 128 * 1024 * 1024 * 1024,
        free_bytes: 30 * 1024 * 1024 * 1024,
        bus_type: bus,
        is_system: system,
        state: VolumeState::Online,
        fingerprints: vec!["影像设备卡".into()],
    }
}

#[test]
fn scenario_device_registry_ignored_does_not_prompt_but_stays_listed() {
    assert!(!DeviceKind::Ignored.prompts_on_arrival());
    assert!(DeviceKind::Ignored.is_classified());
}

#[test]
fn scenario_device_registry_classified_source_kinds_prompt() {
    assert!(DeviceKind::Camera.prompts_on_arrival());
    assert!(DeviceKind::Recorder.prompts_on_arrival());
    assert!(!DeviceKind::Storage.prompts_on_arrival());
}

#[test]
fn scenario_device_registry_labels_are_chinese() {
    for k in [
        DeviceKind::Unclassified,
        DeviceKind::Camera,
        DeviceKind::Recorder,
        DeviceKind::Storage,
        DeviceKind::Ignored,
    ] {
        assert!(!k.label(Locale::Zh).is_ascii(), "类型名应为中文：{}", k.label(Locale::Zh));
    }
}

#[test]
fn new_kind_is_unclassified_and_silent() {
    assert!(!DeviceKind::Unclassified.is_classified());
    assert!(!DeviceKind::Unclassified.prompts_on_arrival());
    assert_eq!(DeviceKind::Camera.label(Locale::En), "Camera card");
}

#[test]
fn scenario_device_registry_cfexpress_reported_as_fixed_is_still_a_source() {
    let v = vol(BusType::Usb, false);
    assert!(v.can_be_source(&[]), "USB 总线的卷必须能作为源");
}

#[test]
fn scenario_device_registry_internal_disk_is_not_a_source() {
    for bus in [BusType::Nvme, BusType::Sata, BusType::Scsi, BusType::Network] {
        assert!(!vol(bus, false).can_be_source(&[]), "{} 总线不该被当作源", bus.label());
    }
}

#[test]
fn scenario_device_registry_system_volume_is_never_a_source() {
    let mut v = vol(BusType::Usb, true);
    assert!(!v.can_be_source(&[]), "系统盘绝不可作为源");
    v.is_system = false;
    assert!(v.can_be_source(&[]));
}

#[test]
fn scenario_device_registry_destination_volume_is_not_a_source() {
    let v = vol(BusType::Usb, false);
    let dests = vec![r"E:\素材\备份".to_string()];
    assert!(!v.can_be_source(&dests), "已配置为目的地的卷 MUST NOT 同时作为源");
    assert!(v.can_be_source(&[r"F:\别处".to_string()]));
}

#[test]
fn scenario_device_registry_blank_card_is_still_a_source() {
    let mut v = vol(BusType::Usb, false);
    v.fingerprints.clear();
    assert!(v.can_be_source(&[]), "没有设备指纹目录的空卡仍是合法的源");
}

#[test]
fn scenario_device_registry_offline_or_no_media_is_not_a_source() {
    for st in [VolumeState::Offline, VolumeState::NoMedia] {
        let mut v = vol(BusType::Usb, false);
        v.state = st;
        assert!(!v.can_be_source(&[]));
    }
}

#[test]
fn scenario_device_registry_volume_without_drive_letter_is_usable() {
    let mut v = vol(BusType::Usb, false);
    v.drive_letter = None;
    assert!(v.can_be_source(&[]), "无盘符的卷仍应可用");
    assert_eq!(v.root_path(), v.guid_path);
    let name = v.display_name();
    assert!(name.contains("无盘符"), "应提示无盘符：{name}");
    assert!(name.contains("A7M4"));
    assert_eq!(name, "A7M4（无盘符 · 128 GB）");
}

#[test]
fn scenario_device_registry_composite_id_survives_drive_letter_change() {
    let a = vol(BusType::Usb, false);
    let mut b = vol(BusType::Usb, false);
    b.drive_letter = Some("H:".into());
    assert_eq!(a.composite_id(), b.composite_id(), "盘符变化不应改变身份");
}

#[test]
fn scenario_device_registry_composite_id_differs_for_different_cards() {
    let a = vol(BusType::Usb, false);
    let mut b = vol(BusType::Usb, false);
    b.serial = Some(0x1234_5678);
    assert_ne!(a.composite_id(), b.composite_id(), "同容量不同卡 MUST NOT 混淆");
}

#[test]
fn scenario_device_registry_bus_externality() {
    assert!(BusType::Usb.is_external());
    assert!(BusType::Thunderbolt.is_external());
    assert!(BusType::Sd.is_external());
    assert!(BusType::Mmc.is_external());
    for b in [BusType::Nvme, BusType::Sata, BusType::Scsi, BusType::Network, BusType::Other, BusType::Unknown] {
        assert!(!b.is_external(), "{} 不该被当作外接总线", b.label());
    }
}

#[test]
fn composite_id_exact_text() {
    let v = vol(BusType::Usb, false);
    assert_eq!(v.composite_id(), "vol:DEADBEEF|label:A7M4|fs:exFAT|size:137438953472");
    let mut w = vol(BusType::Usb, false);
    w.serial = None;
    w.label = "  卡  ".into();
    assert_eq!(w.composite_id(), "vol:-|label:卡|fs:exFAT|size:137438953472");
    assert_eq!(v.display_name(), "A7M4 (E:)");
    w.label = "   ".into();
    assert_eq!(w.display_name(), "未命名卷 (E:)");
}

#[test]
fn sizes_round_to_whole_units() {
    let mut v = vol(BusType::Usb, false);
    v.drive_letter = None;
    v.total_bytes = 1536;
    assert!(v.display_name().ends_with("（无盘符 · 2 KB）"), "{}", v.display_name());
    v.total_bytes = 2560;
    assert!(v.display_name().ends_with("（无盘符 · 2 KB）"), "{}", v.display_name());
    v.total_bytes = 1000;
    assert!(v.display_name().ends_with("（无盘符 · 1000 B）"), "{}", v.display_name());
}

#[test]
fn scenario_format_card_removability_returns_result_not_bool() {
    assert_eq!(removability(&vol(BusType::Usb, false)), Ok(Removability::Provable));
    assert_eq!(removability(&vol(BusType::Nvme, false)), Ok(Removability::ProvablyFixed));
    assert!(removability(&vol(BusType::Unknown, false)).is_err());
    assert_eq!(removability(&vol(BusType::Unknown, false)), Err(RemovabilityError::QueryFailed));
    assert_eq!(removability(&vol(BusType::Other, false)), Err(RemovabilityError::Indeterminate));
}

#[test]
fn scenario_format_card_typed_label_must_match() {
    assert!(label_matches("A7M4", "A7M4"));
    assert!(label_matches("  A7M4 ", "A7M4"));
    assert!(label_matches("A7M4", " A7M4"));
    assert!(!label_matches("a7m4", "A7M4"));
    assert!(!label_matches("A7M", "A7M4"));
    assert!(!label_matches("", "A7M4"));
    assert!(label_matches("未命名", "未命名"));

    assert_eq!(confirmation_phrase(""), BLANK_LABEL_PHRASE);
    assert_eq!(confirmation_phrase("  "), BLANK_LABEL_PHRASE);
    assert_eq!(confirmation_phrase(" A7M4 "), "A7M4");
    assert!(!label_matches("", "  "), "空对空放行等于这一重确认不存在");
    assert!(!label_matches("  ", ""));
    assert!(label_matches(BLANK_LABEL_PHRASE, ""));
    assert!(label_matches(BLANK_LABEL_PHRASE, "   "));
}

#[test]
fn scenario_format_card_auto_format_only_when_everything_is_green() {
    assert_eq!(decide_auto_format(true, true, false, 0, 2, 2), AutoFormatDecision::Propose);
    assert_eq!(decide_auto_format(false, true, false, 0, 2, 2), AutoFormatDecision::Disabled);
    assert_eq!(decide_auto_format(true, true, false, 1, 2, 2), AutoFormatDecision::HasFailures);
    assert_eq!(decide_auto_format(true, false, false, 0, 2, 2), AutoFormatDecision::NotVerified);
    assert_eq!(decide_auto_format(true, true, true, 0, 2, 2), AutoFormatDecision::Cancelled);
    assert_eq!(decide_auto_format(true, true, false, 0, 1, 2), AutoFormatDecision::DestinationIncomplete);
    assert_eq!(decide_auto_format(true, true, false, 0, 0, 0), AutoFormatDecision::DestinationIncomplete);
}

#[test]
fn scenario_format_card_every_skip_reason_is_presentable() {
    for d in [
        AutoFormatDecision::Disabled,
        AutoFormatDecision::Cancelled,
        AutoFormatDecision::HasFailures,
        AutoFormatDecision::NotVerified,
        AutoFormatDecision::DestinationIncomplete,
    ] {
        assert!(!d.reason(Locale::Zh).is_empty(), "{d:?} 必须能说出没触发的原因");
        assert_ne!(d, AutoFormatDecision::Propose);
    }
}

#[test]
fn scenario_format_card_countdown_bounds() {
    assert_eq!(COUNTDOWN_DEFAULT_SECS, 30);
    assert_eq!(COUNTDOWN_MIN_SECS, 10);
    assert_eq!(validate_countdown(30, Locale::Zh), Ok(30));
    assert_eq!(validate_countdown(10, Locale::Zh), Ok(10));
    assert_eq!(validate_countdown(300, Locale::Zh), Ok(300));
    let err = validate_countdown(5, Locale::Zh).expect_err("低于下限应被拒");
    assert!(err.contains("10"), "{err}");
    assert_eq!(err, "倒计时不能短于 10 秒（你设的是 5 秒）");
}

#[test]
fn safety_checks_run_in_order_and_report_which_failed() {
    let report = check_safety(&vol(BusType::Usb, false), &[], false, None, &[], Locale::Zh);
    let ids: Vec<&str> = report.checks.iter().map(|c| c.id.as_str()).collect();
    assert_eq!(ids, vec!["G1", "G2", "G3", "G4"]);
    assert_eq!(report.checks[0].detail, "已确认为可移除介质（USB 总线）");
    assert!(!report.passed());
    assert_eq!(report.first_failure().map(|c| c.id.as_str()), Some("G4"));
    assert_eq!(report.compact(), "G1=ok;G2=ok;G3=ok;G4=fail");

    let r = check_safety(&vol(BusType::Unknown, false), &[], false, None, &[], Locale::Zh);
    assert!(!r.checks[0].passed);
    assert!(r.checks[0].detail.contains("无法确认"));
    let r = check_safety(&vol(BusType::Usb, true), &[], true, None, &[], Locale::En);
    assert_eq!(r.checks[0].detail, "This is the system disk");
    assert_eq!(r.checks[2].detail, "A task is still running on this device");
    let dests = vec![r"E:\素材\备份".to_string()];
    let r = check_safety(&vol(BusType::Nvme, false), &dests, false, None, &[], Locale::Zh);
    assert_eq!(r.checks[0].detail, "这是本机固定盘（NVMe 总线）");
    assert!(!r.checks[1].passed);
}

#[test]
fn scenario_device_registry_eject_refused_while_task_running() {
    let running = vec!["vol:abc".to_string()];
    assert_eq!(can_eject("vol:abc", &running), Err(EjectError::TaskRunning), "正在拷的设备不能弹");
    assert_eq!(can_eject("vol:xyz", &running), Ok(()), "别的设备不受影响");
    assert_eq!(can_eject("vol:abc", &[]), Ok(()), "没任务在跑就可以弹");
}

#[test]
fn scenario_device_registry_eject_failure_is_readable() {
    let busy = EjectError::Busy("卷被锁定".into());
    let msg = busy.describe();
    assert!(msg.contains("占用"), "{msg}");
    assert!(msg.contains("再试"), "要给下一步动作：{msg}");
    for e in [EjectError::TaskRunning, EjectError::Unsupported, EjectError::Failed("句柄无效".into())] {
        assert!(!e.describe().is_empty(), "{e:?} 必须有可读描述");
    }
    assert_eq!(UnsupportedEjector.eject("E:\\"), Err(EjectError::Unsupported));
}

#[test]
fn scenario_device_registry_eject_device_path_shape() {
    assert_eq!(device_path(r"E:\"), r"\\.\E:");
    assert_eq!(device_path("E:"), r"\\.\E:");
    assert_eq!(device_path(r"\\?\Volume{1234}\"), r"\\?\Volume{1234}");
}

#[test]
fn scenario_preset_autorun_unit_mask_decoding() {
    assert_eq!(drive_letters_from_mask(0), Vec::<String>::new());
    assert_eq!(drive_letters_from_mask(1), vec!["A:"]);
    assert_eq!(drive_letters_from_mask(1 << 4), vec!["E:"]);
    assert_eq!(drive_letters_from_mask((1 << 4) | (1 << 5)), vec!["E:", "F:"]);
    assert_eq!(drive_letters_from_mask(1 << 25), vec!["Z:"]);
    assert_eq!(drive_letters_from_mask(1 << 30), Vec::<String>::new());
}

#[test]
fn scenario_format_card_params_carry_original_fs_and_label() {
    let p = FormatParams {
        volume: r"E:\".into(),
        file_system: "exFAT".into(),
        label: "A7M4-1".into(),
    };
    assert_eq!(p.file_system, "exFAT");
    assert_eq!(p.label, "A7M4-1");
}

fn seen() -> Moment {
    to_moment(time::Date::from_calendar_date(2026, time::Month::August, 8)
        .unwrap()
        .with_hms(9, 30, 0)
        .unwrap()
        .assume_utc())
}

#[test]
fn scenario_device_registry_new_device_is_unclassified() {
    let r = DeviceRecord::new("vol:1", "A7M4", 128, seen());
    assert_eq!(r.kind, DeviceKind::Unclassified);
    assert!(!r.kind.is_classified());
    assert!(!r.kind.prompts_on_arrival(), "未分类设备 MUST NOT 触发自动拷贝流程");
}

#[test]
fn scenario_device_registry_duplicate_names_get_instance_numbers() {
    let mut a = DeviceRecord::new("vol:1", "A7M4主卡", 128, seen());
    assert_eq!(a.display_name(), "A7M4主卡");
    let existing = vec![a.clone()];
    let mut b = DeviceRecord::new("vol:2", "A7M4主卡", 128, seen());
    b.instance = next_instance(&existing, "A7M4主卡");
    assert_eq!(b.instance, 2);
    assert_eq!(b.display_name(), "A7M4主卡 (2)");
    assert_ne!(a.display_name(), b.display_name(), "重名必须可区分");
    let existing = vec![a.clone(), b.clone()];
    let mut c = DeviceRecord::new("vol:3", "A7M4主卡", 128, seen());
    c.instance = next_instance(&existing, "A7M4主卡");
    assert_eq!(c.instance, 3);
    a.custom_name = "A7M4备卡".into();
    assert_eq!(a.display_name(), "A7M4备卡");
}
