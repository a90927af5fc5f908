use steadcopy::i18n::Locale;
use steadcopy::map::dispatch::is_map_origin;
use steadcopy::update::{anomaly_from_marker, is_allowed_update_url, judge, Anomaly};

#[test]
fn scenario_build_release_update_result_is_self_verified() {
    assert_eq!(judge("0.1.1", "0.1.1"), None);
    assert_eq!(
        judge("9.9.9", "0.1.0"),
        Some(Anomaly::Downgraded { promised: "9.9.9".into(), actual: "0.1.0".into() })
    );
    assert!(judge("0.1.1", "0.1.0").is_some());
    assert_eq!(judge("0.1.0", "0.2.0"), None);
    assert_eq!(judge("0.9.0", "0.10.0"), None);
    assert!(judge("0.10.0", "0.9.0").is_some());
    assert_eq!(judge("v0.1.0", "0.1.1"), None);
}

#[test]
fn marker_tells_downgrade_from_no_op() {
    assert_eq!(
        anomaly_from_marker("9.9.9\n0.1.0", "0.1.0"),
        Some(Anomaly::Unchanged { promised: "9.9.9".into() })
    );
    assert_eq!(
        anomaly_from_marker("9.9.9\n0.2.0", "0.1.0"),
        Some(Anomaly::Downgraded { promised: "9.9.9".into(), actual: "0.1.0".into() })
    );
    assert_eq!(anomaly_from_marker("0.1.1\n0.1.0", "0.1.1"), None);
    assert_eq!(anomaly_from_marker("", "0.1.0"), None);
    assert_eq!(anomaly_from_marker("  \n0.1.0", "0.1.0"), None);
}

#[test]
fn anomaly_sentences_differ_by_language() {
    let a = Anomaly::Unchanged { promised: "9.9.9".into() };
    assert!(a.describe(Locale::Zh).contains("9.9.9"));
    assert_ne!(a.describe(Locale::Zh), a.describe(Locale::En));
}

#[test]
fn scenario_build_release_update_download_host_is_allowlisted() {
    assert!(is_allowed_update_url("https://api.ai-mcn.tv:9000/broadcast/steadcopy/steadcopy_0.1.0_x64-setup.exe"));
    assert!(is_allowed_update_url("https://github.com/Gitruck/steadcopy/releases/download/v0.1.0/steadcopy_0.1.0_x64-setup.exe"));
    assert!(!is_allowed_update_url("https://api.ai-mcn.tv.attacker.com/x.exe"));
    assert!(!is_allowed_update_url("https://api.ai-mcn.tv@attacker.com/x.exe"));
    assert!(!is_allowed_update_url("https://github.com.attacker.com/x.exe"));
    assert!(!is_allowed_update_url("https://notgithub.com/x.exe"));
    assert!(!is_allowed_update_url("https://attacker.example/x.exe"));
    assert!(!is_allowed_update_url("http://api.ai-mcn.tv/x.exe"));
    assert!(!is_allowed_update_url("http://github.com/x.exe"));
    assert!(!is_allowed_update_url("file:///C:/Windows/System32/calc.exe"));
    assert!(!is_allowed_update_url(""));
    assert!(!is_allowed_update_url("https://"));
    assert!(!is_allowed_update_url("api.ai-mcn.tv/x.exe"));
}

#[test]
fn map_origin_tasks_never_emit_sink_suggestion() {
    assert!(is_map_origin(Some("素材/{日期}/{设备}")));
    assert!(!is_map_origin(None));
}
