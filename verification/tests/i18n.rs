use pyrs_yaml_core::i18n::format_template;
use pyrs_yaml_core::i18n::{
    detect_language_from, list_languages, negotiate_language, parse_language_list, LanguageState,
};

#[test]
fn test_default_language_is_english() {
    let mut state = LanguageState::new();
    let _ = state.set_language("en");
    assert_eq!(state.get_language(), "en");
}

#[test]
fn test_set_language_zh() {
    let mut state = LanguageState::new();
    let _ = state.set_language("zh-CN");
    assert_eq!(state.get_language(), "zh-CN");
    let _ = state.set_language("en");
}

#[test]
fn test_set_language_unsupported() {
    let mut state = LanguageState::new();
    let result = state.set_language("fr");
    assert!(result.is_err());
    assert_eq!(result.unwrap_err(), "Unsupported language");
    assert_eq!(state.get_language(), "en");
}

#[test]
fn test_list_languages() {
    let langs = list_languages();
    assert!(langs.contains(&"en"));
    assert!(langs.contains(&"zh-CN"));
    assert!(langs.contains(&"ja-JP"));
    assert!(langs.contains(&"ko-KR"));
    assert_eq!(langs.len(), 4);
}

#[test]
fn test_negotiate_language_exact_match() {
    assert_eq!(negotiate_language(&["zh-CN"], "en"), "zh-CN");
    assert_eq!(negotiate_language(&["en"], "zh-CN"), "en");
}

#[test]
fn test_negotiate_language_prefix_match() {
    assert_eq!(negotiate_language(&["zh"], "en"), "zh-CN");
}

#[test]
fn test_negotiate_language_fallback() {
    assert_eq!(negotiate_language(&["fr"], "en"), "en");
    assert_eq!(negotiate_language(&["fr"], "zh-CN"), "zh-CN");
}

#[test]
fn test_negotiate_language_priority() {
    assert_eq!(negotiate_language(&["zh-CN", "en"], "fr"), "zh-CN");
    assert_eq!(negotiate_language(&["en", "zh-CN"], "fr"), "en");
}

#[test]
fn test_parse_language_list() {
    let locales = parse_language_list("zh-CN:zh,en");
    assert_eq!(locales, vec!["zh-cn", "zh", "en"]);

    let locales = parse_language_list("en");
    assert_eq!(locales, vec!["en"]);

    let locales = parse_language_list("");
    assert_eq!(locales, Vec::<String>::new());
}

#[test]
fn negotiate_unsupported_default_falls_back_to_english() {
    assert_eq!(negotiate_language(&["fr", "de"], "xx"), "en");
    assert_eq!(negotiate_language(&[], "ko-KR"), "ko-KR");
}

#[test]
fn negotiate_prefix_of_region_subtag() {
    assert_eq!(negotiate_language(&["ja-XX"], "en"), "ja-JP");
    assert_eq!(negotiate_language(&["ko"], "en"), "ko-KR");
}

#[test]
fn parse_language_list_trims_and_drops_empty_entries() {
    let locales = parse_language_list(" JA-JP , :KO_KR.UTF-8::");
    assert_eq!(locales, vec!["ja-jp", "ko_kr.utf-8"]);
}

#[test]
fn static_language_follows_state() {
    let mut state = LanguageState::new();
    assert_eq!(state.get_language_static(), "en");
    state.set_language("ja-JP").unwrap();
    assert_eq!(state.get_language_static(), "ja-JP");
}

#[test]
fn detect_prefers_first_set_variable() {
    assert_eq!(
        detect_language_from(Some("zh-CN"), Some("ja-JP"), None, None, None),
        "zh-CN"
    );
    assert_eq!(
        detect_language_from(Some(""), Some("ja"), None, None, Some("ko_KR")),
        "ja-JP"
    );
    assert_eq!(detect_language_from(None, None, Some("C"), None, Some("ko")), "ko-KR");
    assert_eq!(detect_language_from(None, None, None, None, None), "en");
    assert_eq!(detect_language_from(None, None, None, Some("fr_FR"), None), "en");
}

#[test]
fn format_template_substitutes_placeholders() {
    assert_eq!(format_template("error: %{detail}", &[("detail", "boom")]), "error: boom");
    assert_eq!(format_template("%{a}-%{b}-%{c}", &[("a", "1"), ("b", "2")]), "1-2-%{c}");
    assert_eq!(format_template("plain %{x}", &[]), "plain %{x}");
}

#[test]
fn catalogue_keys_and_missing_ones() {
    let en = "# comment\nhello: Hello\n\n  world : World\r\nbad\n: empty\n";
    let keys = pyrs_yaml_core::i18n::catalog_keys(en);
    assert_eq!(keys, vec!["hello".to_string(), "world".to_string(), "bad".to_string()]);
    let other = pyrs_yaml_core::i18n::catalog_keys("world: Welt\n");
    let missing = pyrs_yaml_core::i18n::missing_keys(&keys, &other);
    assert_eq!(missing, vec!["hello".to_string(), "bad".to_string()]);
}
