use mumford::json::{diff_parsed, json_diff, json_to_tree, tree_of_parsed, JsonValue};
use tate::tree::ChangeKind;

#[test]
fn modified_scalar_value() {
    let a = r#"{"port": 8080, "host": "localhost"}"#;
    let b = r#"{"port": 9090, "host": "localhost"}"#;
    let d = json_diff(a, b).unwrap();
    assert_eq!(d.changes.len(), 1);
    assert_eq!(d.changes[0].kind, ChangeKind::Modified);
    assert_eq!(d.changes[0].id, "port");
}

#[test]
fn added_key() {
    let a = r#"{"a": 1}"#;
    let b = r#"{"a": 1, "b": 2}"#;
    let d = json_diff(a, b).unwrap();
    assert!(d.changes.iter().any(|c| c.kind == ChangeKind::Added && c.id == "b"));
}

#[test]
fn removed_key() {
    let a = r#"{"a": 1, "b": 2}"#;
    let b = r#"{"a": 1}"#;
    let d = json_diff(a, b).unwrap();
    assert!(d.changes.iter().any(|c| c.kind == ChangeKind::Removed && c.id == "b"));
}

#[test]
fn identical_json_no_changes() {
    let a = r#"{"x": 1, "y": [1, 2, 3]}"#;
    let d = json_diff(a, a).unwrap();
    assert!(d.changes.is_empty());
}

#[test]
fn nested_object_change() {
    let a = r#"{"server": {"port": 8080, "host": "localhost"}}"#;
    let b = r#"{"server": {"port": 9090, "host": "localhost"}}"#;
    let d = json_diff(a, b).unwrap();
    assert_eq!(d.changes.len(), 1);
    assert_eq!(d.changes[0].id, "port");
}

#[test]
fn array_item_change() {
    let a = r#"{"items": ["a", "b", "c"]}"#;
    let b = r#"{"items": ["a", "x", "c"]}"#;
    let d = json_diff(a, b).unwrap();
    assert!(d.changes.iter().any(|c| c.id == "items"));
}

#[test]
fn array_item_added() {
    let a = r#"{"items": ["a", "b"]}"#;
    let b = r#"{"items": ["a", "b", "c"]}"#;
    let d = json_diff(a, b).unwrap();
    assert!(!d.changes.is_empty(), "added array item should be detected");
}

#[test]
fn parse_error() {
    let result = json_diff("not json", r#"{}"#);
    assert!(result.is_err());
    assert!(result.err().unwrap().starts_with("parse A: "));
}

#[test]
fn bool_and_null_values() {
    let a = r#"{"flag": true, "nothing": null}"#;
    let b = r#"{"flag": false, "nothing": null}"#;
    let d = json_diff(a, b).unwrap();
    assert!(d.changes.iter().any(|c| c.id == "flag"));
}

#[test]
fn deep_nesting() {
    let a = r#"{"a": {"b": {"c": {"d": 1}}}}"#;
    let b = r#"{"a": {"b": {"c": {"d": 2}}}}"#;
    let d = json_diff(a, b).unwrap();
    assert!(d.changes.iter().any(|c| c.id == "d"));
}

#[test]
fn json_to_tree_maps_keys_and_scalars() {
    let t = json_to_tree(r#"{"server": {"port": 8080}, "list": [true, null]}"#).unwrap();
    assert_eq!(t.kind, "root");
    assert_eq!(t.children.len(), 2);
    let list = &t.children[0];
    assert_eq!(list.kind, "list");
    assert_eq!(list.identity.as_deref(), Some("list"));
    assert_eq!(list.children[0].kind, "[array]");
    assert_eq!(list.children[0].text, "true");
    assert_eq!(list.children[1].attributes, vec![("value".to_string(), "null".to_string())]);
    assert_eq!(list.children[1].text, "null");
    let port = &t.children[1].children[0];
    assert_eq!(port.identity.as_deref(), Some("port"));
    assert_eq!(port.attr("value"), Some("8080"));
    assert_eq!(tree_of_parsed(Err("bad".into())).err().unwrap(), "parse: bad");
    assert!(json_to_tree("{").err().unwrap().starts_with("parse: "));
}

#[test]
fn parsed_values_diff_like_text() {
    let a = JsonValue::Object(vec![("port".to_string(), JsonValue::Number("8080".to_string()))]);
    let b = JsonValue::Object(vec![("port".to_string(), JsonValue::Number("9090".to_string()))]);
    let d = diff_parsed(Ok(a), Ok(b)).unwrap();
    assert_eq!(d.changes.len(), 1);
    assert_eq!(d.changes[0].id, "port");
    let e = diff_parsed(Ok(JsonValue::Null), Err("eof".to_string()));
    assert_eq!(e.err().unwrap(), "parse B: eof");
    let t = json_diff(r#"{"a": 1}"#, "[").err().unwrap();
    assert!(t.starts_with("parse B: "));
}
