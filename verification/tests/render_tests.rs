use rust_i18n::atomic::locale;
use rust_i18n::atomic::set_locale;
use rust_i18n::atomic::AtomicStr;
use rust_i18n::backend::BackendExt;
use rust_i18n::backend::SimpleBackend;
use rust_i18n::config::I18nAttrs;
use rust_i18n::minify::minify_key;
use rust_i18n::pattern::replace_patterns;
use rust_i18n::render::render;

fn pairs(xs: &[(&str, &str)]) -> Vec<(String, String)> {
    xs.iter().map(|(k, v)| (k.to_string(), v.to_string())).collect()
}

fn en_backend() -> SimpleBackend {
    let mut backend = SimpleBackend::new();
    backend.add_translations(
        "en",
        &pairs(&[
            ("hello", "Bar - Hello, World!"),
            ("a.very.nested.message", "Hello, %{name}. Your message is: %{msg}"),
            ("messages.hello", "Hello, %{name}!"),
            ("messages.other", "You have %{count} messages."),
        ]),
    );
    backend.add_translations(
        "zh-CN",
        &pairs(&[
            ("hello", "Bar - 你好世界！"),
            ("messages.hello", "你好，%{name}！"),
            ("messages.other", "你收到了 %{count} 条新消息。"),
        ]),
    );
    backend
}

fn plain() -> I18nAttrs {
    I18nAttrs::new()
}

fn t(
    backend: &SimpleBackend,
    loc: &str,
    msg: &str,
    patterns: &[&str],
    values: &[String],
) -> String {
    let chain: Vec<String> = vec!["en".to_string()];
    render(backend, loc, msg, &chain, patterns, values, &plain())
}

struct TestBackend {
    foo: String,
}

impl rust_i18n::backend::Backend for TestBackend {
    fn spec_translate(
        &self,
        _locale: vstd::seq::Seq<char>,
        _key: vstd::seq::Seq<char>,
    ) -> Option<vstd::seq::Seq<char>> {
        unreachable!()
    }

    fn spec_locales(&self) -> vstd::seq::Seq<vstd::seq::Seq<char>> {
        unreachable!()
    }

    fn available_locales(&self) -> Vec<String> {
        vec!["pt".to_string(), "en".to_string()]
    }

    fn translate(&self, loc: &str, key: &str) -> Option<String> {
        if loc == "pt" && key == "foo" {
            return Some(self.foo.clone());
        }
        None
    }
}

#[test]
fn test_translate() {
    let backend = en_backend();
    let combined = backend.extend(TestBackend { foo: "pt-fake.foo".to_string() });
    let chain: Vec<String> = vec!["en".to_string()];
    assert_eq!(
        rust_i18n::resolver::translate(&combined, "en", "hello", &chain),
        "Bar - Hello, World!"
    );
}

#[test]
fn intergartion_test_test_translate() {
    let backend = en_backend();
    let chain: Vec<String> = Vec::new();
    assert_eq!(
        rust_i18n::resolver::translate(&backend, "en", "hello", &chain),
        "Bar - Hello, World!"
    );
}

#[test]
fn test_t() {
    let backend = en_backend();
    let cell = AtomicStr::new("en");
    set_locale(&cell, "en");
    assert_eq!(t(&backend, &locale(&cell), "hello", &[], &[]), "Bar - Hello, World!");

    // vars
    assert_eq!(
        t(&backend, &locale(&cell), "a.very.nested.message", &[], &[]),
        "Hello, %{name}. Your message is: %{msg}"
    );
    assert_eq!(
        t(&backend, &locale(&cell), "a.very.nested.message", &["name"], &[
            "Jason".to_string(),
        ]),
        "Hello, Jason. Your message is: %{msg}"
    );
    assert_eq!(
        t(&backend, &locale(&cell), "a.very.nested.message", &["name", "msg"], &[
            "Jason".to_string(),
            "Bla bla".to_string(),
        ]),
        "Hello, Jason. Your message is: Bla bla"
    );

    set_locale(&cell, "zh-CN");
    assert_eq!(
        t(&backend, &locale(&cell), "messages.hello", &["name"], &["world".to_string()]),
        "你好，world！"
    );

    set_locale(&cell, "en");
    assert_eq!(
        t(&backend, &locale(&cell), "messages.hello", &["name"], &["world".to_string()]),
        "Hello, world!"
    );
}

#[test]
fn test_t_with_tt_val() {
    let backend = en_backend();
    assert_eq!(
        t(&backend, "en", "messages.other", &["count"], &[format!("{}", 100)]),
        "You have 100 messages."
    );
    assert_eq!(
        t(&backend, "en", "messages.other", &["count"], &[format!("{}", 1.01)]),
        "You have 1.01 messages."
    );
    assert_eq!(
        t(&backend, "en", "messages.other", &["count"], &[format!("{}", 1 + 2)]),
        "You have 3 messages."
    );
    assert_eq!(
        t(&backend, "zh-CN", "messages.other", &["count"], &[format!("{}", 1 + 2)]),
        "你收到了 3 条新消息。"
    );
    let a = 100;
    assert_eq!(
        t(&backend, "en", "messages.other", &["count"], &[format!("{}", a / 2)]),
        "You have 50 messages."
    );
}

#[test]
fn test_t_with_locale_and_args() {
    let backend = en_backend();
    assert_eq!(t(&backend, "zh-CN", "hello", &[], &[]), "Bar - 你好世界！");
    assert_eq!(t(&backend, "en", "hello", &[], &[]), "Bar - Hello, World!");

    assert_eq!(
        t(&backend, "en", "messages.hello", &["name"], &["Jason".to_string()]),
        "Hello, Jason!"
    );
    assert_eq!(
        t(&backend, "zh-CN", "messages.hello", &["name"], &["Jason".to_string()]),
        "你好，Jason！"
    );
}

#[test]
fn test_t_with_hash_args() {
    let backend = en_backend();
    assert_eq!(
        t(&backend, "en", "messages.hello", &["name"], &["Jason".to_string()]),
        "Hello, Jason!"
    );
    assert_eq!(
        t(&backend, "zh-CN", "messages.hello", &["name"], &["Jason".to_string()]),
        "你好，Jason！"
    );
}

#[test]
fn test_support_expr() {
    let backend = en_backend();
    let name = "Jason Lee";
    let loc = "en";
    let key = "messages.hello";

    assert_eq!(
        t(&backend, loc, &format!("messages.{}", "hello"), &["name"], &[name.to_string()]),
        "Hello, Jason Lee!"
    );
    assert_eq!(t(&backend, loc, key, &["name"], &[name.to_string()]), "Hello, Jason Lee!");
    assert_eq!(
        t(&backend, loc, "messages.hello", &["name"], &[format!("this is {name}")]),
        "Hello, this is Jason Lee!"
    );
    assert_eq!(t(&backend, loc, "messages.hello", &[], &[]), "Hello, %{name}!");
}

#[test]
fn i18n_minify_key_test_t() {
    let attrs = I18nAttrs {
        minify_key: true,
        minify_key_len: 24,
        minify_key_prefix: "t_".to_string(),
        minify_key_thresh: 4,
    };
    let mk = |msg: &str| minify_key(msg, 24, "t_", 4);
    let mut backend = SimpleBackend::new();
    backend.add_translations(
        "zh-CN",
        &pairs(&[
            (&mk("Bar - Hello, World!"), "Bar - 你好世界！"),
            (&mk("Apple"), "苹果"),
            (&mk("Banana"), "香蕉"),
            (&mk("Orange"), "橘子"),
            (&mk("You have %{count} messages."), "你收到了 %{count} 条新消息。"),
        ]),
    );
    let chain: Vec<String> = vec!["en".to_string()];
    let tm = |loc: &str, msg: &str, patterns: &[&str], values: &[String]| {
        render(&backend, loc, msg, &chain, patterns, values, &attrs)
    };

    assert_eq!(tm("en", "Bar - Hello, World!", &[], &[]), "Bar - Hello, World!");
    assert_eq!(tm("zh-CN", "Bar - Hello, World!", &[], &[]), "Bar - 你好世界！");

    let fruits = ["Apple", "Banana", "Orange"];
    let fruits_translated = ["苹果", "香蕉", "橘子"];
    for (src, dst) in fruits.iter().zip(fruits_translated.iter()) {
        assert_eq!(tm("zh-CN", src, &[], &[]), *dst);
    }

    let msg = "aka".to_string();
    let i = 0;
    assert_eq!(tm("en", &msg, &["name"], &[format!("{}", &i)]), "aka");
    assert_eq!(tm("en", "hello", &[], &[]), "hello");
    assert_eq!(tm("en", &format!("hello"), &[], &[]), "hello");
    assert_eq!(tm("en", "Hello, %{name}", &["name"], &["Bar".to_string()]), "Hello, Bar");
    assert_eq!(
        tm("zh-CN", "You have %{count} messages.", &["count"], &[format!("{}", 1 + 2)]),
        "你收到了 3 条新消息。"
    );
}

#[test]
fn test_tkv() {
    // a key/value pair for a dynamic message under minification
    let mk = |msg: &str| minify_key(msg, 24, "t_", 4);
    let (key, msg) = (mk(""), "");
    assert_eq!(key, "");
    assert_eq!(msg, "");
    let (key, msg) = (mk("Hey"), "Hey");
    assert_eq!(key, "Hey");
    assert_eq!(msg, "Hey");
    let (key, msg) = (mk("Hello, world!"), "Hello, world!");
    assert_eq!(key, "t_1LokVzuiIrh1xByyZG4wjZ");
    assert_eq!(msg, "Hello, world!");
}

#[test]
fn test_render_literal_fallback() {
    // an empty backend renders exactly like direct substitution
    let backend = SimpleBackend::new();
    let chain: Vec<String> = Vec::new();
    let out = render(
        &backend,
        "en",
        "Hi %{n}, bye %{m}",
        &chain,
        &["n"],
        &["X".to_string()],
        &plain(),
    );
    assert_eq!(out, replace_patterns("Hi %{n}, bye %{m}", &["n"], &["X".to_string()]));
    assert_eq!(out, "Hi X, bye %{m}");
}

#[test]
fn test_atomic_str() {
    let s = AtomicStr::new("hello");
    assert_eq!(&s.get(), "hello");
    s.replace("world");
    assert_eq!(&s.get(), "world");
    set_locale(&s, "zh-CN");
    assert_eq!(locale(&s), "zh-CN");
}
