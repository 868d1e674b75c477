use json_formatter::json::JsonObject;
use json_formatter::json::JsonValue;

/// The value of a number.
fn num(x: f64) -> JsonValue {
    JsonValue::Number(x.to_string())
}

#[test]
fn test_format_value_true() {
    let value = JsonValue::True;
    assert_eq!(value.format(0), "true");
}

#[test]
fn test_format_value_false() {
    let value = JsonValue::False;
    assert_eq!(value.format(0), "false");
}

#[test]
fn test_format_value_null() {
    let value = JsonValue::Null;
    assert_eq!(value.format(0), "null");
}

#[test]
fn test_format_value_number() {
    let value1 = num(123.0);
    assert_eq!(value1.format(0), "123");

    let value2 = num(123.456);
    assert_eq!(value2.format(0), "123.456");
}

#[test]
fn test_format_value_string() {
    let value = JsonValue::String("hello, world".to_string());
    assert_eq!(value.format(0), "\"hello, world\"");
}

#[test]
fn test_format_value_array() {
    let value = JsonValue::Array(vec![num(1.0), num(2.0), num(3.0)]);
    let expected = r#"[
  1,
  2,
  3
]"#;
    assert_eq!(value.format(0), expected);
}

#[test]
fn test_format_value_array_nested() {
    let value = JsonValue::Array(vec![
        num(1.1),
        num(1.2),
        JsonValue::Array(vec![
            num(2.1),
            num(2.2),
            JsonValue::Array(vec![num(3.1), num(3.2)]),
        ]),
    ]);
    let expected = r#"[
  1.1,
  1.2,
  [
    2.1,
    2.2,
    [
      3.1,
      3.2
    ]
  ]
]"#;
    assert_eq!(value.format(0), expected);
}

#[test]
fn test_format_value_object() {
    let mut object = JsonObject::new();
    object.insert("key1".to_string(), num(123.0));
    object.insert("key2".to_string(), JsonValue::String("value".to_string()));
    let value = JsonValue::Object(object);
    let expected = r#"{
  "key1": 123,
  "key2": "value"
}"#;
    assert_eq!(value.format(0), expected);
}

#[test]
fn test_format_value_object_nested() {
    let mut object = JsonObject::new();
    let mut nested_object = JsonObject::new();
    nested_object.insert("key3".to_string(), num(456.0));
    nested_object.insert("key4".to_string(), num(789.0));
    object.insert("key1".to_string(), num(123.0));
    object.insert("key2".to_string(), JsonValue::Object(nested_object));

    let value = JsonValue::Object(object);
    let expected = r#"{
  "key1": 123,
  "key2": {
    "key3": 456,
    "key4": 789
  }
}"#;
    assert_eq!(value.format(0), expected);
}

#[test]
fn format_mixed_nesting() {
    let mut nested_object1 = JsonObject::new();
    nested_object1.insert("key2".to_string(), num(2.0));
    nested_object1.insert("key3".to_string(), num(3.0));
    let mut nested_object2 = JsonObject::new();
    nested_object2.insert("key5".to_string(), JsonValue::Array(vec![num(5.0), num(6.0)]));
    let mut object = JsonObject::new();
    object.insert(
        "key1".to_string(),
        JsonValue::Array(vec![
            num(1.0),
            JsonValue::Object(nested_object1),
            JsonValue::Array(vec![num(4.0), JsonValue::Object(nested_object2)]),
        ]),
    );
    let value = JsonValue::Object(object);
    let expected = r#"{
  "key1": [
    1,
    {
      "key2": 2,
      "key3": 3
    },
    [
      4,
      {
        "key5": [
          5,
          6
        ]
      }
    ]
  ]
}"#;
    assert_eq!(value.format(0), expected);
}

#[test]
fn format_empty_containers() {
    assert_eq!(JsonValue::Array(vec![]).format(0), "[\n]");
    assert_eq!(JsonValue::Object(JsonObject::new()).format(0), "{\n}");
    assert_eq!(JsonValue::Array(vec![]).format(3), "[\n   ]");
    assert_eq!(
        JsonValue::Array(vec![JsonValue::Array(vec![])]).format(0),
        "[\n  [\n  ]\n]"
    );
}

#[test]
fn format_at_an_indentation() {
    let value = JsonValue::Array(vec![JsonValue::True, JsonValue::Array(vec![JsonValue::Null])]);
    assert_eq!(value.format(4), "[\n      true,\n      [\n        null\n      ]\n    ]");
    assert_eq!(JsonValue::True.format(7), "true");
}

#[test]
fn format_depth_sets_the_indentation() {
    let mut value = JsonValue::Null;
    for _ in 0..5 {
        value = JsonValue::Array(vec![value]);
    }
    let text = value.format(0);
    let lines: Vec<&str> = text.lines().collect();
    assert_eq!(lines.len(), 11);
    for d in 0..5 {
        assert_eq!(lines[d], format!("{}[", " ".repeat(2 * d)));
        assert_eq!(lines[10 - d], format!("{}]", " ".repeat(2 * d)));
    }
    assert_eq!(lines[5], format!("{}null", " ".repeat(10)));
}

#[test]
fn format_string_is_not_escaped() {
    let value = JsonValue::String("a\"b\\c\nd".to_string());
    assert_eq!(value.format(0), "\"a\"b\\c\nd\"");
}

#[test]
fn format_number_is_its_text() {
    assert_eq!(JsonValue::Number("-0.12345".to_string()).format(0), "-0.12345");
    assert_eq!(num(-32.054).format(2), "-32.054");
    assert_eq!(num(123450000.0).format(0), "123450000");
}

#[test]
fn object_keeps_the_order_of_insertion() {
    let mut object = JsonObject::new();
    for key in ["zeta", "alpha", "mid", "beta"] {
        assert_eq!(object.insert(key.to_string(), JsonValue::Null), None);
    }
    assert_eq!(object.len(), 4);
    let keys: Vec<&str> = (0..4).map(|i| object.get_index(i).unwrap().0.as_str()).collect();
    assert_eq!(keys, vec!["zeta", "alpha", "mid", "beta"]);
    assert_eq!(object.get_index(4), None);
    assert_eq!(
        JsonValue::Object(object).format(0),
        "{\n  \"zeta\": null,\n  \"alpha\": null,\n  \"mid\": null,\n  \"beta\": null\n}"
    );
}

#[test]
fn object_insert_of_a_key_that_is_there() {
    let mut object = JsonObject::new();
    assert_eq!(object.len(), 0);
    assert_eq!(object.get_index(0), None);
    assert_eq!(object.insert("a".to_string(), JsonValue::True), None);
    assert_eq!(object.insert("b".to_string(), JsonValue::False), None);
    assert_eq!(object.insert("a".to_string(), JsonValue::Null), Some(JsonValue::True));
    assert_eq!(object.len(), 2);
    assert_eq!(object.get_index(0), Some((&"a".to_string(), &JsonValue::Null)));
    assert_eq!(object.get_index(1), Some((&"b".to_string(), &JsonValue::False)));
    assert_eq!(JsonValue::Object(object).format(0), "{\n  \"a\": null,\n  \"b\": false\n}");
}

#[test]
fn values_are_equal_by_content() {
    let mut a = JsonObject::new();
    a.insert("k".to_string(), num(1.0));
    let mut b = JsonObject::new();
    b.insert("k".to_string(), num(1.0));
    assert_eq!(JsonValue::Object(a), JsonValue::Object(b));
    assert_ne!(JsonValue::Array(vec![]), JsonValue::Object(JsonObject::new()));
    assert_ne!(JsonValue::String("1".to_string()), JsonValue::Number("1".to_string()));
}
