use rust_i18n::config::available_locales;
use rust_i18n::config::default_locale;
use rust_i18n::config::fallback;
use rust_i18n::config::load_path;
use rust_i18n::config::minify_key;
use rust_i18n::config::minify_key_len;
use rust_i18n::config::minify_key_prefix;
use rust_i18n::config::minify_key_thresh;
use rust_i18n::config::normalized_locales;
use rust_i18n::config::I18nAttrs;
use rust_i18n::config::I18nConfig;
use rust_i18n::config::MainConfig;
use rust_i18n::cow_str::CowStr;
use rust_i18n::strutil::format_keys;
use rust_i18n::cow_str::i128_to_dec;
use rust_i18n::cow_str::u128_to_dec;

#[test]
fn test_i18n_attrs() {
    let attrs = I18nAttrs {
        minify_key: true,
        minify_key_len: 24,
        minify_key_prefix: "t_".to_string(),
        minify_key_thresh: 4,
    };
    assert!(attrs.minify_key);
    assert_eq!(attrs.minify_key_len, 24);
    assert_eq!(attrs.minify_key_prefix, "t_");
    assert_eq!(attrs.minify_key_thresh, 4);
}

#[test]
fn test_attrs_defaults() {
    let attrs = I18nAttrs::new();
    assert!(!attrs.minify_key);
    assert_eq!(attrs.minify_key_len, 24);
    assert_eq!(attrs.minify_key_prefix, "");
    assert_eq!(attrs.minify_key_thresh, 127);
}

#[test]
fn test_config_defaults() {
    let cfg = I18nConfig::new();
    assert_eq!(cfg.default_locale, "en");
    assert_eq!(cfg.available_locales, vec!["en"]);
    assert_eq!(cfg.load_path, "./locales");
    assert!(cfg.fallback.is_empty());
    assert!(!cfg.minify_key);
    assert_eq!(cfg.minify_key_len, 24);
    assert_eq!(cfg.minify_key_prefix, "");
    assert_eq!(cfg.minify_key_thresh, 127);

    let main = MainConfig { i18n: I18nConfig::default() };
    assert_eq!(main.i18n.default_locale, "en");

    assert_eq!(default_locale(), "en");
    assert_eq!(available_locales(), vec!["en"]);
    assert_eq!(load_path(), "./locales");
    assert!(fallback().is_empty());
    assert!(!minify_key());
    assert_eq!(minify_key_len(), 24);
    assert_eq!(minify_key_prefix(), "");
    assert_eq!(minify_key_thresh(), 127);
}

#[test]
fn test_normalized_locales() {
    // the default locale comes first, duplicates keep their first place
    let listed = vec!["zh-CN".to_string(), "de".to_string(), "de".to_string()];
    assert_eq!(normalized_locales("en", &listed), vec!["en", "zh-CN", "de"]);

    let listed = vec!["zh-CN".to_string(), "en".to_string()];
    assert_eq!(normalized_locales("en", &listed), vec!["en", "zh-CN"]);

    let listed: Vec<String> = Vec::new();
    assert_eq!(normalized_locales("en", &listed), vec!["en"]);
}

#[test]
fn test_decimal_rendering() {
    assert_eq!(u128_to_dec(0), "0");
    assert_eq!(u128_to_dec(100), "100");
    assert_eq!(u128_to_dec(u128::MAX), "340282366920938463463374607431768211455");
    assert_eq!(i128_to_dec(0), "0");
    assert_eq!(i128_to_dec(-42), "-42");
    assert_eq!(i128_to_dec(i128::MIN), "-170141183460469231731687303715884105728");
    assert_eq!(i128_to_dec(i128::MAX), "170141183460469231731687303715884105727");
}

#[test]
fn test_cow_str() {
    assert_eq!(CowStr::from_text("abc").as_str(), "abc");
    assert_eq!(CowStr::from_string("abc".to_string()).into_inner(), "abc");
    assert_eq!(CowStr::from_unsigned(100).as_str(), "100");
    assert_eq!(CowStr::from_signed(-7).into_inner(), "-7");
}

#[test]
fn test_format_keys() {
    assert_eq!(format_keys(&[]), "");
    assert_eq!(format_keys(&["a", "b"]), "a.b");
    assert_eq!(format_keys(&["", "welcome", ""]), "welcome");
    assert_eq!(format_keys(&["a", "", "b"]), "a.b");
    assert_eq!(format_keys(&["messages", "user", "title"]), "messages.user.title");
}
