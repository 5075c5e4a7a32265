use jsonnet_bytecode::manifest::{jsonnet_manifest, JsonValue};

#[test]
fn manifest_scalars() {
    assert_eq!(jsonnet_manifest(&JsonValue::Null), "null");
    assert_eq!(jsonnet_manifest(&JsonValue::Bool(true)), "true");
    assert_eq!(jsonnet_manifest(&JsonValue::Bool(false)), "false");
    assert_eq!(jsonnet_manifest(&JsonValue::Number("1.5".to_string())), "1.5");
    assert_eq!(
        jsonnet_manifest(&JsonValue::String("a\"b\n".to_string())),
        "\"a\\\"b\\n\""
    );
}

#[test]
fn manifest_empty_containers() {
    assert_eq!(jsonnet_manifest(&JsonValue::Array(vec![])), "[ ]");
    assert_eq!(jsonnet_manifest(&JsonValue::Object(vec![])), "{ }");
}

#[test]
fn manifest_nested_indentation() {
    let v = JsonValue::Array(vec![
        JsonValue::Number("1".to_string()),
        JsonValue::Array(vec![]),
        JsonValue::Object(vec![(
            "a".to_string(),
            JsonValue::Array(vec![JsonValue::String("x".to_string())]),
        )]),
    ]);
    assert_eq!(
        jsonnet_manifest(&v),
        "[\n   1,\n   [ ],\n   {\n      \"a\": [\n         \"x\"\n      ]\n   }\n]"
    );
}

#[test]
fn manifest_object_fields_in_order() {
    let v = JsonValue::Object(vec![
        ("b".to_string(), JsonValue::Null),
        ("a".to_string(), JsonValue::Bool(true)),
    ]);
    assert_eq!(jsonnet_manifest(&v), "{\n   \"b\": null,\n   \"a\": true\n}");
}

#[test]
fn manifest_escapes_controls() {
    let v = JsonValue::String("\u{1}\t\\x\u{7f}".to_string());
    assert_eq!(jsonnet_manifest(&v), "\"\\u0001\\t\\\\x\u{7f}\"");
}
