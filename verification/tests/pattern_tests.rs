use rust_i18n::pattern::replace_patterns;

#[test]
fn test_replace_patterns() {
    let output = replace_patterns("Hello, %{name}!", &["name"], &["World".to_string()]);
    assert_eq!(output, "Hello, World!");
}

#[test]
fn test_replace_patterns_unknown_left_verbatim() {
    let output = replace_patterns("%{a} %{b}", &["a"], &["X".to_string()]);
    assert_eq!(output, "X %{b}");
}

#[test]
fn test_replace_patterns_lone_percent() {
    let output = replace_patterns("100% done", &[], &[]);
    assert_eq!(output, "100% done");
}

#[test]
fn test_replace_patterns_unterminated() {
    // an unterminated %{ is literal text from the % onward
    let output = replace_patterns("before %{oops and on", &["oops"], &["X".to_string()]);
    assert_eq!(output, "before %{oops and on");
}

#[test]
fn test_replace_patterns_empty() {
    assert_eq!(replace_patterns("", &["a"], &["X".to_string()]), "");
    assert_eq!(replace_patterns("plain", &[], &[]), "plain");
}

#[test]
fn test_replace_patterns_multiple() {
    let output = replace_patterns(
        "%{a} and %{b} and %{a}",
        &["a", "b"],
        &["1".to_string(), "2".to_string()],
    );
    assert_eq!(output, "1 and 2 and 1");
}

#[test]
fn test_replace_patterns_first_name_wins() {
    let output = replace_patterns(
        "%{a}",
        &["a", "a"],
        &["first".to_string(), "second".to_string()],
    );
    assert_eq!(output, "first");
}

#[test]
fn test_replace_patterns_multibyte() {
    let output = replace_patterns("你好，%{name}！", &["name"], &["世界".to_string()]);
    assert_eq!(output, "你好，世界！");
}
