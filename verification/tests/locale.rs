use bitefluent::locale::{
    infer_locale_from_path, infer_locale_from_project_path, looks_like_locale_str, normalize_locale,
};

#[test]
fn locale_shapes() {
    assert!(looks_like_locale_str("en"));
    assert!(looks_like_locale_str("fil"));
    assert!(looks_like_locale_str("en-US"));
    assert!(looks_like_locale_str("en_US"));
    assert!(looks_like_locale_str("zh-Hant"));
    assert!(!looks_like_locale_str("english"));
    assert!(!looks_like_locale_str("en-US-x"));
    assert!(!looks_like_locale_str("e"));
    assert!(!looks_like_locale_str("en-USA"));
    assert!(looks_like_locale_str("ñ"));
}

#[test]
fn locales_written_with_dashes() {
    assert_eq!(normalize_locale("pt_BR"), "pt-BR");
    assert_eq!(normalize_locale("de"), "de");
}

#[test]
fn scanned_path_locales() {
    assert_eq!(infer_locale_from_path("locales/en_US/main.ftl"), Some("en-US".to_string()));
    assert_eq!(infer_locale_from_path("i18n/fr.ftl"), Some("fr".to_string()));
    assert_eq!(infer_locale_from_path("i18n/messages.ftl"), None);
    assert_eq!(infer_locale_from_path("de/app/en.ftl"), Some("de".to_string()));
}

#[test]
fn project_path_locales() {
    assert_eq!(infer_locale_from_project_path("locales/pt_BR/main.ftl", Some("en")), Some("pt-BR".to_string()));
    assert_eq!(infer_locale_from_project_path("main.ftl", Some("en")), Some("en".to_string()));
    assert_eq!(infer_locale_from_project_path("main.ftl", None), None);
    assert_eq!(infer_locale_from_project_path("fr.ftl", None), None);
}

#[test]
fn inferred_locales_have_locale_shape() {
    for path in ["locales/pt_BR/main.ftl", "i18n/zh_Hant.ftl", "a/b/c.ftl", "en_GB/x.ftl"] {
        if let Some(locale) = infer_locale_from_path(path) {
            assert!(looks_like_locale_str(&locale));
            assert!(!locale.contains('_'));
        }
        if let Some(locale) = infer_locale_from_project_path(path, None) {
            assert!(looks_like_locale_str(&locale));
            assert!(!locale.contains('_'));
        }
    }
    assert_eq!(infer_locale_from_path("i18n/zh_Hant.ftl"), Some("zh-Hant".to_string()));
}
