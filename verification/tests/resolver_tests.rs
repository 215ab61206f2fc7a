use rust_i18n::backend::SimpleBackend;
use rust_i18n::resolver::lookup_fallback;
use rust_i18n::resolver::translate;
use rust_i18n::resolver::try_translate;

fn pairs(xs: &[(&str, &str)]) -> Vec<(String, String)> {
    xs.iter().map(|(k, v)| (k.to_string(), v.to_string())).collect()
}

fn chain(xs: &[&str]) -> Vec<String> {
    xs.iter().map(|s| s.to_string()).collect()
}

#[test]
fn test_fallback() {
    let mut backend = SimpleBackend::new();
    backend.add_translations(
        "en",
        &pairs(&[("missing.default", "This is missing key fallbacked to en.")]),
    );
    assert_eq!(
        translate(&backend, "en", "missing.default", &chain(&["en"])),
        "This is missing key fallbacked to en."
    );
}

#[test]
fn integration_tests_test_fallback() {
    let mut backend = SimpleBackend::new();
    backend.add_translations("zh-CN", &pairs(&[("fallback_to_cn", "这是一个中文的翻译。")]));
    assert_eq!(
        translate(&backend, "en", "fallback_to_cn", &chain(&["zh-CN"])),
        "这是一个中文的翻译。"
    );
}

#[test]
fn test_fallback_missing_locale() {
    let mut backend = SimpleBackend::new();
    backend.add_translations(
        "en",
        &pairs(&[("missing.default", "This is missing key fallbacked to en.")]),
    );
    assert_eq!(
        translate(&backend, "zh-CN", "missing.default", &chain(&["en"])),
        "This is missing key fallbacked to en."
    );
    assert_eq!(
        translate(&backend, "foo", "missing.default", &chain(&["en"])),
        "This is missing key fallbacked to en."
    );
}

#[test]
fn test_fallback_order() {
    // parent stripping hits "zh" before the static chain is consulted
    let mut backend = SimpleBackend::new();
    backend.add_translations("en", &pairs(&[("k", "E")]));
    backend.add_translations("zh", &pairs(&[("k", "Z")]));
    assert_eq!(
        try_translate(&backend, "zh-CN", "k", &chain(&["en"])),
        Some("Z".to_string())
    );
    // "fr" has no parent, so the static chain decides
    assert_eq!(
        try_translate(&backend, "fr", "k", &chain(&["en"])),
        Some("E".to_string())
    );
    // nothing matches anywhere
    assert_eq!(try_translate(&backend, "fr", "absent", &chain(&["en"])), None);
}

#[test]
fn test_lookup_fallback() {
    assert_eq!(lookup_fallback("zh"), None);
    assert_eq!(lookup_fallback("zh-CN"), Some("zh".to_string()));
    assert_eq!(lookup_fallback("zh-Hant-CN"), Some("zh-Hant".to_string()));
    // a dangling private-use marker is trimmed with the cut subtag
    assert_eq!(
        lookup_fallback("zh-Hant-CN-x-private"),
        Some("zh-Hant-CN".to_string())
    );
    assert_eq!(lookup_fallback("zh-x-x"), Some("zh".to_string()));
    assert_eq!(lookup_fallback(""), None);
}

#[test]
fn test_translate_missing_is_key() {
    // nothing matched at any tier: the key comes back unchanged
    let backend = SimpleBackend::new();
    let empty: Vec<String> = Vec::new();
    assert_eq!(translate(&backend, "en", "hello", &empty), "hello");
    assert_eq!(translate(&backend, "", "hello", &empty), "hello");
    assert_eq!(translate(&backend, "zh-CN", "missing.key", &empty), "missing.key");
}
