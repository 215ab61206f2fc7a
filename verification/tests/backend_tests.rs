use rust_i18n::backend::available_locales_sorted;
use rust_i18n::backend::Backend;
use rust_i18n::backend::BackendExt;
use rust_i18n::backend::CombinedBackend;
use rust_i18n::backend::SimpleBackend;

fn pairs(xs: &[(&str, &str)]) -> Vec<(String, String)> {
    xs.iter().map(|(k, v)| (k.to_string(), v.to_string())).collect()
}

struct TestBackend {
    foo: String,
}

impl TestBackend {
    fn new() -> Self {
        TestBackend { foo: "pt-fake.foo".to_string() }
    }
}

impl Backend for TestBackend {
    fn spec_translate(
        &self,
        _locale: vstd::seq::Seq<char>,
        _key: vstd::seq::Seq<char>,
    ) -> Option<vstd::seq::Seq<char>> {
        unreachable!()
    }

    fn spec_locales(&self) -> vstd::seq::Seq<vstd::seq::Seq<char>> {
        unreachable!()
    }

    fn available_locales(&self) -> Vec<String> {
        vec!["pt".to_string(), "en".to_string()]
    }

    fn translate(&self, locale: &str, key: &str) -> Option<String> {
        if locale == "pt" && key == "foo" {
            return Some(self.foo.clone());
        }
        None
    }
}

#[test]
fn test_simple_backend() {
    let mut backend = SimpleBackend::new();
    let data = pairs(&[("hello", "Hello"), ("foo", "Foo bar")]);
    backend.add_translations("en", &data);

    let data_cn = pairs(&[("hello", "你好"), ("foo", "Foo 测试")]);
    backend.add_translations("zh-CN", &data_cn);

    assert_eq!(backend.translate("en", "hello"), Some("Hello".to_string()));
    assert_eq!(backend.translate("en", "foo"), Some("Foo bar".to_string()));
    assert_eq!(backend.translate("zh-CN", "hello"), Some("你好".to_string()));
    assert_eq!(backend.translate("zh-CN", "foo"), Some("Foo 测试".to_string()));

    assert_eq!(backend.available_locales(), vec!["en", "zh-CN"]);
}

#[test]
fn test_combined_backend() {
    let mut backend = SimpleBackend::new();
    let data = pairs(&[("hello", "Hello"), ("foo", "Foo bar")]);
    backend.add_translations("en", &data);

    let data_cn = pairs(&[("hello", "你好"), ("foo", "Foo 测试")]);
    backend.add_translations("zh-CN", &data_cn);

    let mut backend2 = SimpleBackend::new();
    let data2 = pairs(&[("hello", "Hello2")]);
    backend2.add_translations("en", &data2);

    let data_cn2 = pairs(&[("hello", "你好2")]);
    backend2.add_translations("zh-CN", &data_cn2);

    let combined = backend.extend(backend2);
    assert_eq!(combined.translate("en", "hello"), Some("Hello2".to_string()));
    assert_eq!(combined.translate("zh-CN", "hello"), Some("你好2".to_string()));

    // keys only in the base backend stay visible through the composite
    assert_eq!(combined.translate("en", "foo"), Some("Foo bar".to_string()));

    assert_eq!(combined.available_locales(), vec!["en", "zh-CN"]);
}

#[test]
fn test_extend_backend() {
    let mut base = SimpleBackend::new();
    base.add_translations("en", &pairs(&[("hello", "Bar - Hello, World!")]));
    let combined = base.extend(TestBackend::new());
    let chain: Vec<String> = Vec::new();
    assert_eq!(
        rust_i18n::resolver::translate(&combined, "pt", "foo", &chain),
        "pt-fake.foo"
    );
}

#[test]
fn test_available_locales() {
    let mut base = SimpleBackend::new();
    base.add_translations("en", &pairs(&[("hello", "Bar - Hello, World!")]));
    base.add_translations("zh-CN", &pairs(&[("hello", "Bar - 你好世界！")]));
    let combined = base.extend(TestBackend::new());
    // the composite reports the union, sorted for determinism
    assert_eq!(combined.available_locales(), vec!["en", "pt", "zh-CN"]);
    assert_eq!(available_locales_sorted(&combined), vec!["en", "pt", "zh-CN"]);
}

#[test]
fn intergartion_test_test_available_locales() {
    let mut backend = SimpleBackend::new();
    backend.add_translations("en", &pairs(&[("hello", "Bar - Hello, World!")]));
    backend.add_translations("zh-CN", &pairs(&[("hello", "Bar - 你好世界！")]));
    assert_eq!(backend.available_locales(), vec!["en", "zh-CN"]);
}

#[test]
fn test_available_locales_sorted_unique() {
    // locales added as zh-CN, then en, then en again: sorted and unique
    let mut backend = SimpleBackend::new();
    backend.add_translations("zh-CN", &pairs(&[("k", "Z")]));
    backend.add_translations("en", &pairs(&[("k", "E")]));
    backend.add_translations("en", &pairs(&[("k2", "E2")]));
    assert_eq!(backend.available_locales(), vec!["en", "zh-CN"]);
    assert_eq!(available_locales_sorted(&backend), vec!["en", "zh-CN"]);
}

#[test]
fn test_add_translations_overrides() {
    // later batches win over earlier ones on key collision
    let mut backend = SimpleBackend::new();
    backend.add_translations("en", &pairs(&[("k", "old"), ("other", "kept")]));
    backend.add_translations("en", &pairs(&[("k", "new")]));
    assert_eq!(backend.translate("en", "k"), Some("new".to_string()));
    assert_eq!(backend.translate("en", "other"), Some("kept".to_string()));
    // within one batch the last pair wins
    let mut b2 = SimpleBackend::new();
    b2.add_translations("en", &pairs(&[("k", "first"), ("k", "second")]));
    assert_eq!(b2.translate("en", "k"), Some("second".to_string()));
}

#[test]
fn test_combined_override() {
    // layering B ({"en": {"k": "new"}}) over A ({"en": {"k": "old"}})
    let mut a = SimpleBackend::new();
    a.add_translations("en", &pairs(&[("k", "old"), ("only-a", "still here")]));
    let mut b = SimpleBackend::new();
    b.add_translations("en", &pairs(&[("k", "new")]));
    let combined = CombinedBackend(a, b);
    assert_eq!(combined.translate("en", "k"), Some("new".to_string()));
    assert_eq!(combined.translate("en", "only-a"), Some("still here".to_string()));
    assert_eq!(combined.translate("en", "absent"), None);
}

#[test]
fn test_default_backend_is_empty() {
    let backend = SimpleBackend::default();
    assert_eq!(backend.translate("en", "hello"), None);
    assert!(backend.available_locales().is_empty());
}
