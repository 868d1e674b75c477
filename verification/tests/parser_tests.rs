use json_formatter::json::JsonObject;
use json_formatter::json::JsonValue;
use json_formatter::lexer::Lexer;
use json_formatter::parser::Parser;
use json_formatter::lexer::Token;

/// The value of a number.
fn num(x: f64) -> JsonValue {
    JsonValue::Number(x.to_string())
}

/// The value with each number's text replaced by the text of the number that
/// it stands for.
fn canonical(value: &JsonValue) -> JsonValue {
    match value {
        JsonValue::Object(object) => {
            let mut out = JsonObject::new();
            for i in 0..object.len() {
                let (key, item) = object.get_index(i).unwrap();
                out.insert(key.clone(), canonical(item));
            }
            JsonValue::Object(out)
        }
        JsonValue::Array(items) => JsonValue::Array(items.iter().map(canonical).collect()),
        JsonValue::String(text) => JsonValue::String(text.clone()),
        JsonValue::Number(text) => num(text.parse::<f64>().unwrap()),
        JsonValue::True => JsonValue::True,
        JsonValue::False => JsonValue::False,
        JsonValue::Null => JsonValue::Null,
    }
}

/// The value that `input` starts with, its numbers read.
fn parsed(input: &str) -> Option<JsonValue> {
    let mut parser = Parser::new(Lexer::new(input));
    parser.parse_value().map(|value| canonical(&value))
}

/// The value that `input` starts with, as the parser gives it.
fn parsed_as_is(input: &str) -> Option<JsonValue> {
    let mut parser = Parser::new(Lexer::new(input));
    parser.parse()
}

/// The text of the value that `input` starts with.
fn pretty(input: &str) -> String {
    parsed(input).expect("no value").format(0)
}

/// An object with the given entries, inserted in their order.
fn object_of(entries: Vec<(&str, JsonValue)>) -> JsonValue {
    let mut object = JsonObject::new();
    for (key, value) in entries {
        object.insert(key.to_string(), value);
    }
    JsonValue::Object(object)
}

#[test]
fn test_parser_initialization() {
    let lexer = Lexer::new(r#"{"key": "value"}"#);
    let parser = Parser::new(lexer);

    assert_eq!(parser.current_token(), &Some(Token::LeftBrace));
}

#[test]
fn test_parser_next_token() {
    let lexer = Lexer::new(r#"{"key": "value"}"#);
    let mut parser = Parser::new(lexer);

    assert_eq!(parser.current_token(), &Some(Token::LeftBrace));
    parser.next_token();
    assert_eq!(parser.current_token(), &Some(Token::String("key".to_string())));
    parser.next_token();
    assert_eq!(parser.current_token(), &Some(Token::Colon));
    parser.next_token();
    assert_eq!(parser.current_token(), &Some(Token::String("value".to_string())));
    parser.next_token();
    assert_eq!(parser.current_token(), &Some(Token::RightBrace));
    parser.next_token();
    assert_eq!(parser.current_token(), &None);
}

#[test]
fn test_parse_string_simple() {
    let mut parser1 = Parser::new(Lexer::new(r#""Hello, World!""#));
    assert_eq!(parser1.parse(), Some(JsonValue::String("Hello, World!".to_string())));

    let mut parser2 = Parser::new(Lexer::new(r#"-123.1"#));
    assert_eq!(parser2.parse().map(|value| canonical(&value)), Some(num(-123.1)));

    let mut parser3 = Parser::new(Lexer::new(r#"true"#));
    assert_eq!(parser3.parse(), Some(JsonValue::True));

    let mut parser4 = Parser::new(Lexer::new(r#"false"#));
    assert_eq!(parser4.parse(), Some(JsonValue::False));

    let mut parser5 = Parser::new(Lexer::new(r#"null"#));
    assert_eq!(parser5.parse(), Some(JsonValue::Null));
}

#[test]
fn test_parse_object() {
    let object = parsed(r#"{"str": "hello", "num": -32.054, "array": [1, 2, 3]}"#);

    let expected_object = object_of(vec![
        ("str", JsonValue::String("hello".to_string())),
        ("num", num(-32.054)),
        ("array", JsonValue::Array(vec![num(1.0), num(2.0), num(3.0)])),
    ]);

    assert_eq!(object, Some(expected_object));
}

#[test]
fn test_parse_object_nested() {
    let object = parsed(r#"{"key": {"nested": "value"}}"#);

    let nested_object = object_of(vec![("nested", JsonValue::String("value".to_string()))]);
    let expected_object = object_of(vec![("key", nested_object)]);

    assert_eq!(object, Some(expected_object));
}

#[test]
fn test_parse_array() {
    let array = parsed(r#"[1, -2, 0.03, true, false, null, { "key": "value" }]"#);

    let expected_array = vec![
        num(1.0),
        num(-2.0),
        num(0.03),
        JsonValue::True,
        JsonValue::False,
        JsonValue::Null,
        object_of(vec![("key", JsonValue::String("value".to_string()))]),
    ];

    assert_eq!(array, Some(JsonValue::Array(expected_array)));
}

#[test]
fn test_parse_array_nested() {
    let array = parsed(r#"[1, [2, [3, [4]]]]"#);

    let expected_array = vec![
        num(1.0),
        JsonValue::Array(vec![
            num(2.0),
            JsonValue::Array(vec![num(3.0), JsonValue::Array(vec![num(4.0)])]),
        ]),
    ];

    assert_eq!(array, Some(JsonValue::Array(expected_array)));
}

#[test]
fn empty_input_has_no_value() {
    assert_eq!(parsed_as_is(""), None);
    let parser = Parser::new(Lexer::new(""));
    assert_eq!(parser.current_token(), &None);
}

#[test]
fn white_space_alone_has_no_value() {
    assert_eq!(parsed_as_is(" "), None);
    assert_eq!(parsed_as_is(" \t\r\n  \n"), None);
}

#[test]
fn object_with_trailing_comma_has_no_value() {
    assert_eq!(parsed_as_is(r#"{"a": 1,}"#), None);
    assert_eq!(parsed_as_is(r#"{"a": 1, "b": [2],}"#), None);
    assert_eq!(parsed_as_is(r#"{,}"#), None);
}

#[test]
fn array_with_trailing_comma_has_no_value() {
    assert_eq!(parsed_as_is("[1,]"), None);
    assert_eq!(parsed_as_is("[1, 2,]"), None);
    assert_eq!(parsed_as_is(r#"[{"a": 1}, [2],]"#), None);
}

#[test]
fn array_with_an_absent_item_has_no_value() {
    assert_eq!(parsed_as_is("[,]"), None);
    assert_eq!(parsed_as_is("[1,,2]"), None);
    assert_eq!(parsed_as_is("[,1]"), None);
    assert_eq!(parsed_as_is("[[1,], 2]"), None);
    assert_eq!(parsed_as_is(r#"{"a": [1,]}"#), None);
}

#[test]
fn array_that_fails_at_an_absent_item_stops_there() {
    let mut parser = Parser::new(Lexer::new("[1,] 2"));
    assert_eq!(parser.parse(), None);
    assert_eq!(parser.current_token(), &Some(Token::RightBracket));
    parser.next_token();
    assert_eq!(parser.current_token(), &Some(Token::Number("2".to_string())));
}

#[test]
fn parser_stays_where_no_token_opens_a_value() {
    for input in [", 1", ": 1", "} 1", "] 1", "@ 1"] {
        let mut parser = Parser::new(Lexer::new(input));
        let before = format!("{:?}", parser.current_token());
        assert_eq!(parser.parse(), None, "{}", input);
        assert_eq!(format!("{:?}", parser.current_token()), before, "{}", input);
        assert_eq!(parser.parse_value(), None, "{}", input);
        assert_eq!(format!("{:?}", parser.current_token()), before, "{}", input);
        // the lexer was not moved: the token behind is the next one read
        parser.next_token();
        assert_eq!(parser.current_token(), &Some(Token::Number("1".to_string())), "{}", input);
        parser.next_token();
        assert_eq!(parser.current_token(), &None, "{}", input);
    }
}

#[test]
fn entry_whose_value_is_absent_is_left_out() {
    assert_eq!(parsed(r#"{"a": }"#), Some(object_of(vec![])));
    assert_eq!(parsed(r#"{"a": , "b": 1}"#), Some(object_of(vec![("b", num(1.0))])));
}

#[test]
fn empty_containers() {
    assert_eq!(parsed_as_is("[]"), Some(JsonValue::Array(vec![])));
    assert_eq!(parsed_as_is("{}"), Some(object_of(vec![])));
    assert_eq!(parsed_as_is("[ [ ], { } ]"), Some(JsonValue::Array(vec![
        JsonValue::Array(vec![]),
        object_of(vec![]),
    ])));
}

#[test]
fn grammar_violations_have_no_value() {
    for input in [
        "[", "[1", "[1 2]", "[1,", "{", "{\"a\"", "{\"a\":", "{\"a\": 1", "{\"a\" 1}", "{1: 2}",
        "{\"a\": 1 \"b\": 2}", "]", "}", ":", ",", "[1}", "{\"a\": 1]", "@", "tru", "1-2",
        "[1 @ ,2]", "{\"a\": [1 2], \"b\": 3}", "[1,]", "[,]", "[1,,2]",
    ] {
        assert_eq!(parsed_as_is(input), None, "{}", input);
    }
}

#[test]
fn number_is_kept_as_its_text() {
    assert_eq!(parsed_as_is("+123.45e6"), Some(JsonValue::Number("+123.45e6".to_string())));
    assert_eq!(parsed_as_is("[1.0]"), Some(JsonValue::Array(vec![JsonValue::Number("1.0".to_string())])));
}

#[test]
fn parse_reads_one_value_and_stops() {
    let mut parser = Parser::new(Lexer::new("[1] true"));
    assert_eq!(parser.parse().map(|value| canonical(&value)), Some(JsonValue::Array(vec![num(1.0)])));
    assert_eq!(parser.current_token(), &Some(Token::True));
    assert_eq!(parser.parse(), Some(JsonValue::True));
    assert_eq!(parser.current_token(), &None);
    assert_eq!(parser.parse(), None);
}

#[test]
fn failure_leaves_the_parser_where_it_failed() {
    let mut parser = Parser::new(Lexer::new("[1 2] 3"));
    assert_eq!(parser.parse(), None);
    assert_eq!(parser.current_token(), &Some(Token::Number("2".to_string())));
}

#[test]
fn array_keeps_the_order_of_its_items() {
    let expected: Vec<JsonValue> = [5.0, 3.0, 9.0, 1.0, 7.0].iter().map(|x| num(*x)).collect();
    assert_eq!(parsed("[5, 3, 9, 1, 7]"), Some(JsonValue::Array(expected)));
}

#[test]
fn array_of_any_parts_keeps_their_order() {
    let parts = ["1", " \"x\" ", "[2, 3]", "\n{\"k\": null}\n", "true", "[ ]", "-4.5e1 "];
    let text = format!("[{}]", parts.join(","));
    let expected: Vec<JsonValue> = parts.iter().map(|part| parsed(part).unwrap()).collect();
    assert_eq!(expected.len(), 7);
    assert_eq!(parsed(&text), Some(JsonValue::Array(expected)));
    assert_eq!(
        parsed(&text),
        Some(JsonValue::Array(vec![
            num(1.0),
            JsonValue::String("x".to_string()),
            JsonValue::Array(vec![num(2.0), num(3.0)]),
            object_of(vec![("k", JsonValue::Null)]),
            JsonValue::True,
            JsonValue::Array(vec![]),
            num(-45.0),
        ]))
    );
}

#[test]
fn object_keeps_the_order_of_its_keys() {
    let value = parsed_as_is(r#"{"z": 1, "a": 2, "m": 3}"#).unwrap();
    match &value {
        JsonValue::Object(object) => {
            let keys: Vec<&str> =
                (0..object.len()).map(|i| object.get_index(i).unwrap().0.as_str()).collect();
            assert_eq!(keys, vec!["z", "a", "m"]);
        }
        other => panic!("no object: {:?}", other),
    }
    assert_eq!(value.format(0), "{\n  \"z\": 1,\n  \"a\": 2,\n  \"m\": 3\n}");
}

#[test]
fn key_given_twice_keeps_its_place_and_the_later_value() {
    assert_eq!(pretty(r#"{"a": 1, "b": 2, "a": 3}"#), "{\n  \"a\": 3,\n  \"b\": 2\n}");
}

#[test]
fn pretty_true() {
    assert_eq!(pretty("true"), "true");
}

#[test]
fn pretty_null() {
    assert_eq!(pretty("null"), "null");
}

#[test]
fn pretty_array() {
    assert_eq!(pretty("[1,2,3]"), "[\n  1,\n  2,\n  3\n]");
}

#[test]
fn pretty_array_of_arrays() {
    let expected = r#"[
  1.1,
  1.2,
  [
    2.1,
    2.2,
    [
      3.1,
      3.2
    ]
  ]
]"#;
    assert_eq!(pretty("[1.1,1.2,[2.1,2.2,[3.1,3.2]]]"), expected);
}

#[test]
fn pretty_object() {
    let expected = r#"{
  "str": "hello",
  "num": -32.054,
  "array": [
    1,
    2,
    3
  ]
}"#;
    assert_eq!(pretty(r#"{"str":"hello","num":-32.054,"array":[1,2,3]}"#), expected);
}

#[test]
fn pretty_four_levels() {
    let expected = r#"[
  1,
  [
    2,
    [
      3,
      [
        4
      ]
    ]
  ]
]"#;
    assert_eq!(pretty("[1,[2,[3,[4]]]]"), expected);
}

#[test]
fn pretty_nested_objects() {
    let expected = r#"{
  "key1": 123,
  "key2": {
    "key3": 456,
    "key4": 789
  }
}"#;
    assert_eq!(pretty(r#"{"key1":123,"key2":{"key3":456,"key4":789}}"#), expected);
}

#[test]
fn printed_text_parses_to_the_same_value() {
    let value = JsonValue::Array(vec![
        object_of(vec![
            ("name", JsonValue::String("\u{4eac} and \u{e9}".to_string())),
            ("empty", JsonValue::Array(vec![])),
            ("none", object_of(vec![])),
            ("n", num(-0.5)),
        ]),
        JsonValue::True,
        JsonValue::False,
        JsonValue::Null,
        num(1e21),
        JsonValue::Array(vec![JsonValue::Array(vec![num(0.0)])]),
    ]);
    let text = value.format(0);
    assert_eq!(parsed_as_is(&text), Some(value));
    let again = parsed_as_is(&text).unwrap().format(0);
    assert_eq!(again, text);
}
