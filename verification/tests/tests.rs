use json::{generate, parse, JsonNumber, JsonObject, JsonValue, ParseError};

fn number(text: &str) -> JsonValue {
    JsonValue::Number(JsonNumber::from_text(text.to_string()).unwrap())
}

fn string(text: &str) -> JsonValue {
    JsonValue::String(text.to_string())
}

fn scenario_tree() -> JsonObject {
    let mut inner = JsonObject::new();
    inner.insert("test".to_string(), number("1234"));
    inner.insert("test2".to_string(), string("null"));
    let mut expected = JsonObject::new();
    expected.insert("val1".to_string(), JsonValue::Boolean(true));
    expected.insert("val2".to_string(), number("123.45"));
    expected.insert(
        "val3".to_string(),
        JsonValue::Array(vec![JsonValue::Null, JsonValue::Object(inner)]),
    );
    expected.insert("val4".to_string(), string("word"));
    expected
}

#[test]
fn json_test() {
    let json = parse(r#"{
        "val1": true,
        "val2": 123.45,
        "val3": [
            null, {"test": 1234, "test2": "null"}
        ],
        "val4": "word"
    }"#);

    let json = generate(&(json.unwrap()));

    const MAYBE_OUTPUT: &str = r#"{"val1": true, "val2": 123.45, "val3": [null, {"test": 1234, "test2": "null"}], "val4": "word"}"#;
    assert_eq!(json.len(), MAYBE_OUTPUT.len());
}

#[test]
fn empty_root_parses_to_empty_object() {
    let object = parse("{}").unwrap();
    assert!(object.is_empty());
    assert_eq!(object.len(), 0);
    assert_eq!(object, JsonObject::new());
}

#[test]
fn empty_root_with_whitespace_everywhere() {
    assert_eq!(parse("  { \n }  \t\r\n").unwrap(), JsonObject::new());
    assert_eq!(parse("\t{}").unwrap(), JsonObject::new());
    assert_eq!(parse("{}\n").unwrap(), JsonObject::new());
}

#[test]
fn trailing_content_after_empty_root_fails() {
    assert_eq!(parse("{}x"), Err(ParseError::TrailingContentError));
    assert_eq!(parse("{} {}"), Err(ParseError::TrailingContentError));
    assert_eq!(parse("{ } ,"), Err(ParseError::TrailingContentError));
    assert_eq!(parse("{}\n\t}"), Err(ParseError::TrailingContentError));
}

#[test]
fn trailing_content_after_non_empty_root_is_not_read() {
    let object = parse(r#"{"a": 1} trailing"#).unwrap();
    assert_eq!(object.len(), 1);
    assert_eq!(object.get("a"), Some(&number("1")));
    assert_eq!(parse(r#"{"a": 1}}}}"#).unwrap(), object);
}

#[test]
fn end_to_end_scenario() {
    let text = r#"{"val1": true, "val2": 123.45, "val3": [null, {"test": 1234, "test2": "null"}], "val4": "word"}"#;
    let object = parse(text).unwrap();
    assert_eq!(object, scenario_tree());

    let written = generate(&object);
    assert_eq!(written, text);
    assert_eq!(parse(&written).unwrap(), scenario_tree());
}

#[test]
fn end_to_end_scenario_spread_over_lines() {
    let object = parse(
        "{\n\t\"val1\" : true ,\r\n\t\"val2\":123.45,\n\t\"val3\": [ null ,{\"test\":1234 , \"test2\" :\"null\" } ] ,\n\t\"val4\": \"word\"\n}",
    )
    .unwrap();
    assert_eq!(object, scenario_tree());
}

#[test]
fn array_of_mixed_containers() {
    let object = parse(r#"{"a": [false, "false", {"true": false}]}"#).unwrap();
    let mut inner = JsonObject::new();
    inner.insert("true".to_string(), JsonValue::Boolean(false));
    let mut expected = JsonObject::new();
    expected.insert(
        "a".to_string(),
        JsonValue::Array(vec![
            JsonValue::Boolean(false),
            string("false"),
            JsonValue::Object(inner),
        ]),
    );
    assert_eq!(object, expected);
    assert_eq!(generate(&object), r#"{"a": [false, "false", {"true": false}]}"#);
}

#[test]
fn malformed_inputs_fail() {
    assert_eq!(parse(r#"{"a": "b"#), Err(ParseError::ValueError));
    assert_eq!(parse(r#"{"a" 1}"#), Err(ParseError::StructuralError));
    assert_eq!(parse(r#"{"a": [1}"#), Err(ParseError::StructuralError));
    assert_eq!(parse(r#"{a: 1}"#), Err(ParseError::KeyError));
    assert_eq!(parse(r#"{"a": -1}"#), Err(ParseError::ValueError));
}

#[test]
fn malformed_inputs_fail_the_same_way_each_time() {
    for text in [r#"{"a": "b"#, r#"{"a" 1}"#, r#"{"a": [1}"#, r#"{a: 1}"#, r#"{"a": -1}"#] {
        assert_eq!(parse(text), parse(text));
        assert!(parse(text).is_err());
    }
}

#[test]
fn deeply_nested_arrays() {
    let depth = 10_000;
    let mut text = String::from("{\"a\": ");
    for _ in 0..depth {
        text.push('[');
    }
    text.push('1');
    for _ in 0..depth {
        text.push(']');
    }
    text.push('}');
    let object = parse(&text).unwrap();
    let written = generate(&object);
    assert_eq!(written, text);
}

#[test]
fn deeply_nested_objects() {
    let depth = 10_000;
    let mut text = String::new();
    for _ in 0..depth {
        text.push_str("{\"k\": ");
    }
    text.push_str("null");
    for _ in 0..depth {
        text.push('}');
    }
    let object = parse(&text).unwrap();
    assert_eq!(object.len(), 1);
    assert_eq!(generate(&object), text);
}
