use gshell::json::{omp_theme, parse_json, replace_str, JsonValue};

#[test]
fn test_json_parse_string() {
    let json = parse_json(r#"{"key": "value"}"#).unwrap();
    assert!(json.as_object().is_some());
    assert_eq!(json.get("key").unwrap().as_str().unwrap(), "value");
}

#[test]
fn test_json_parse_nested() {
    let json = parse_json(r#"{"a": {"b": [1, 2, 3]}}"#);
    assert!(json.is_some());
}

#[test]
fn test_json_parse_empty_object() {
    let json = parse_json("{}");
    assert!(json.is_some());
    assert!(json.unwrap().as_object().unwrap().is_empty());
}

#[test]
fn test_json_parse_array() {
    let json = parse_json(r#"["a", "b", "c"]"#);
    assert!(json.is_some());
    assert_eq!(json.unwrap().as_array().unwrap().len(), 3);
}

#[test]
fn test_json_parse_null() {
    let json = parse_json("null");
    assert!(matches!(json, Some(JsonValue::Null)));
}

#[test]
fn test_json_parse_number() {
    let json = parse_json("42");
    assert!(matches!(json, Some(JsonValue::Number(v)) if v.parse::<f64>().unwrap() == 42.0));
}

#[test]
fn test_json_parse_unicode() {
    let json = parse_json(r#""\u0048\u0065\u006c\u006c\u006f""#).unwrap();
    assert_eq!(json.as_str().unwrap(), "Hello");
}

#[test]
fn later_keys_replace_earlier_ones() {
    let json = parse_json(r#"{"a": 1, "b": true, "a": "x"}"#).unwrap();
    assert_eq!(json.as_object().unwrap().len(), 2);
    assert_eq!(json.get("a").unwrap().as_str(), Some("x"));
    assert!(matches!(json.get("b"), Some(JsonValue::Bool(true))));
    assert!(json.get("c").is_none());
}

#[test]
fn escapes_numbers_and_failures() {
    let json = parse_json(r#"["a\"b\\c\/d\ne\tf", -1.5e3, 1., false]"#).unwrap();
    let items = json.as_array().unwrap();
    assert_eq!(items[0].as_str(), Some("a\"b\\c/d\ne\tf"));
    assert!(matches!(&items[1], JsonValue::Number(t) if t == "-1.5e3"));
    assert!(matches!(&items[2], JsonValue::Number(t) if t == "1."));
    assert!(parse_json("[.5]").is_none());
    assert!(parse_json("[1e]").is_none());
    assert!(parse_json("[1, 2").is_none());
    assert!(parse_json(r#""unterminated"#).is_none());
    assert!(parse_json("  true  trailing").is_some());
    assert!(parse_json("").is_none());
}

#[test]
fn replace_is_left_to_right() {
    assert_eq!(replace_str("aaa", "aa", "b"), "ba");
    assert_eq!(replace_str("x{{ .Path }}y", "{{ .Path }}", "{path}"), "x{path}y");
    assert_eq!(replace_str("abc", "", "X"), "abc".replace("", "X"));
    assert_eq!(replace_str("", "", "X"), "X");
}

#[test]
fn theme_blocks_become_a_format() {
    let text = r#"{
        "blocks": [
            {"segments": [
                {"type": "session", "foreground": "cyan", "background": "transparent"},
                {"type": "path", "foreground": "default", "background": "blue"},
                {"type": "text", "template": "\\ue0b0 {{ .Folder }} {{ .Code }}"}
            ]},
            {"segments": [{"type": "git"}, {"type": "exit"}]}
        ]
    }"#;
    let theme = omp_theme(&parse_json(text).unwrap());
    assert_eq!(theme.format.as_deref(), Some("{user}@{host}{path}\u{e0b0} {path} {exit} {git}{exit}"));
    assert_eq!(
        theme.styles,
        vec![
            ("GS_STYLE_SESSION".to_string(), "cyan".to_string()),
            ("GS_STYLE_PATH".to_string(), " on_blue".to_string()),
        ]
    );
}

#[test]
fn unknown_segment_stops_the_theme() {
    let text = r#"{"blocks": [{"segments": [{"type": "time", "foreground": "red"}, {"type": "battery"}]}]}"#;
    let theme = omp_theme(&parse_json(text).unwrap());
    assert_eq!(theme.format, None);
    assert_eq!(theme.styles, vec![("GS_STYLE_TIME".to_string(), "red".to_string())]);
    let none = omp_theme(&parse_json(r#"{"blocks": 3}"#).unwrap());
    assert_eq!(none.format, None);
    assert!(none.styles.is_empty());
}
