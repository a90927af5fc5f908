use steadcopy::i18n::{has_cjk, Locale, LOCALE_EN, LOCALE_ZH};

#[test]
fn scenario_i18n_auto_follows_system_language() {
    assert_eq!(Locale::from_system_tag(Some("en-US")), Locale::En);
    assert_eq!(Locale::from_system_tag(Some("en")), Locale::En);
    assert_eq!(Locale::from_system_tag(Some("EN-GB")), Locale::En);
    assert_eq!(Locale::from_system_tag(Some("zh-CN")), Locale::Zh);
    assert_eq!(Locale::from_system_tag(Some("zh-Hant-TW")), Locale::Zh);
}

#[test]
fn scenario_i18n_unknown_system_language_falls_back_to_chinese() {
    assert_eq!(Locale::from_system_tag(None), Locale::Zh, "判不出来落中文");
    assert_eq!(Locale::from_system_tag(Some("")), Locale::Zh);
    assert_eq!(Locale::from_system_tag(Some("qqq-XX")), Locale::Zh);
    // An explicit setting beats the system language.
    assert_eq!(Locale::resolve(LOCALE_EN, None), Locale::En);
    assert_eq!(Locale::resolve(LOCALE_ZH, None), Locale::Zh);
    assert_eq!(Locale::resolve(LOCALE_EN, Some("zh-CN")), Locale::En);
    assert!(matches!(Locale::resolve("克林贡语", None), Locale::Zh | Locale::En));
}

#[test]
fn scenario_i18n_no_runtime_fallback() {
    assert_eq!(Locale::Zh.pick("中", "en"), "中");
    assert_eq!(Locale::En.pick("中", "en"), "en");
    assert_eq!(Locale::Zh.tag(), "zh");
    assert_eq!(Locale::En.tag(), "en");
}

#[test]
fn scenario_i18n_cjk_detection_covers_punctuation() {
    assert!(has_cjk("素材"));
    assert!(has_cjk("「引号」"), "CJK 标点也算");
    assert!(has_cjk("Not enough space："), "全角冒号必须算——这是最常漏的一种");
    assert!(has_cjk("ファイル"));
    assert!(has_cjk("파일"));

    assert!(!has_cjk("Not enough space: D:\\media"));
    assert!(!has_cjk(""));
    assert!(!has_cjk("A7M4 / 128 GB — USB"));
}

#[test]
fn auto_setting_follows_the_system_tag() {
    assert_eq!(Locale::resolve("auto", Some("en-US")), Locale::En);
    assert_eq!(Locale::resolve("auto", Some("zh-CN")), Locale::Zh);
    assert_eq!(Locale::resolve("auto", None), Locale::Zh);
}
