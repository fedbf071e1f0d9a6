use confmerge::load;
use confmerge::ConfigError;
use confmerge::TreeValue;

fn num(n: i64) -> TreeValue {
    TreeValue::Num(n)
}

fn obj(pairs: Vec<(&str, TreeValue)>) -> TreeValue {
    TreeValue::Obj(pairs.into_iter().map(|(k, v)| (k.to_string(), v)).collect())
}

#[test]
fn test_load_precedence() {
    let cmdline = obj(vec![("y", num(9))]);
    let r = load(
        "{\"x\": 1, \"y\": 2}",
        Some("{\"x\": 5}"),
        Some(cmdline),
    );
    assert_eq!(r, Ok(obj(vec![("x", num(5)), ("y", num(9))])));
}

#[test]
fn test_load_missing_user_is_noop() {
    let r = load("{\"x\": 1}", None, None);
    assert_eq!(r, Ok(obj(vec![("x", num(1))])));
}

#[test]
fn test_load_default_invalid_is_fatal() {
    let cmdline = obj(vec![("y", num(9))]);
    let r = load("this is not valid json", Some("{\"x\": 1}"), Some(cmdline));
    assert_eq!(r, Err(ConfigError::DefaultInvalid));
}

#[test]
fn test_load_user_invalid_is_fatal() {
    let r = load("{\"x\": 1}", Some("{{{"), None);
    assert_eq!(r, Err(ConfigError::UserInvalid));
}

#[test]
fn test_load_strips_comments() {
    let text = "{\n  // the answer\n  \"x\": 42\n}";
    let r = load(text, None, None);
    assert_eq!(r, Ok(obj(vec![("x", num(42))])));
}

#[test]
fn test_load_parses_every_variant() {
    let text = "{\"n\": null, \"b\": true, \"i\": -7, \"s\": \"text\", \"a\": [1, 2]}";
    let r = load(text, None, None);
    let expected = obj(vec![
        ("a", TreeValue::Arr(vec![num(1), num(2)])),
        ("b", TreeValue::Bool(true)),
        ("i", num(-7)),
        ("n", TreeValue::Null),
        ("s", TreeValue::Str("text".to_string())),
    ]);
    assert_eq!(r, Ok(expected));
}

#[test]
fn test_load_user_null_removes_default_key() {
    let r = load("{\"x\": 1, \"y\": 2}", Some("{\"y\": null}"), None);
    assert_eq!(r, Ok(obj(vec![("x", num(1))])));
}

#[test]
fn test_load_cmdline_only() {
    let cmdline = obj(vec![("flag", TreeValue::Bool(true))]);
    let r = load("{}", None, Some(cmdline));
    assert_eq!(r, Ok(obj(vec![("flag", TreeValue::Bool(true))])));
}
