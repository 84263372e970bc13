use json::{generate, parse, JsonNumber, JsonObject, JsonValue};

fn number(text: &str) -> JsonValue {
    JsonValue::Number(JsonNumber::from_text(text.to_string()).unwrap())
}

fn string(text: &str) -> JsonValue {
    JsonValue::String(text.to_string())
}

fn single(key: &str, value: JsonValue) -> JsonObject {
    let mut object = JsonObject::new();
    object.insert(key.to_string(), value);
    object
}

#[test]
fn empty_object_is_two_braces() {
    assert_eq!(generate(&JsonObject::new()), "{}");
}

#[test]
fn scalars_are_written_after_key_colon_and_space() {
    assert_eq!(generate(&single("a", JsonValue::Null)), r#"{"a": null}"#);
    assert_eq!(generate(&single("a", JsonValue::Boolean(true))), r#"{"a": true}"#);
    assert_eq!(generate(&single("a", JsonValue::Boolean(false))), r#"{"a": false}"#);
    assert_eq!(generate(&single("a", number("123.45"))), r#"{"a": 123.45}"#);
    assert_eq!(generate(&single("a", string("word"))), r#"{"a": "word"}"#);
    assert_eq!(generate(&single("", string(""))), r#"{"": ""}"#);
}

#[test]
fn members_are_separated_by_comma_and_space() {
    let mut object = JsonObject::new();
    object.insert("a".to_string(), number("1"));
    object.insert("b".to_string(), number("2"));
    object.insert("c".to_string(), number("3"));
    assert_eq!(generate(&object), r#"{"a": 1, "b": 2, "c": 3}"#);
}

#[test]
fn items_are_separated_by_comma_and_space() {
    let items = JsonValue::Array(vec![number("1"), JsonValue::Null, string("x")]);
    assert_eq!(generate(&single("a", items)), r#"{"a": [1, null, "x"]}"#);
}

#[test]
fn containers_are_written_inside_containers() {
    let inner = single("b", JsonValue::Array(vec![JsonValue::Array(vec![number("1")]), number("2")]));
    let mut object = JsonObject::new();
    object.insert("a".to_string(), JsonValue::Object(inner));
    object.insert("c".to_string(), JsonValue::Array(vec![JsonValue::Object(single("d", JsonValue::Null)), JsonValue::Boolean(true)]));
    object.insert("e".to_string(), number("0"));
    assert_eq!(
        generate(&object),
        r#"{"a": {"b": [[1], 2]}, "c": [{"d": null}, true], "e": 0}"#
    );
}

#[test]
fn the_separator_resumes_after_a_nested_container() {
    let items = JsonValue::Array(vec![
        JsonValue::Array(vec![number("1")]),
        JsonValue::Array(vec![number("2")]),
        number("3"),
    ]);
    assert_eq!(generate(&single("a", items)), r#"{"a": [[1], [2], 3]}"#);
    let first = JsonValue::Array(vec![JsonValue::Object(single("x", number("1"))), number("2")]);
    assert_eq!(generate(&single("a", first)), r#"{"a": [{"x": 1}, 2]}"#);
}

#[test]
fn empty_containers_are_written_as_their_two_delimiters() {
    let mut object = JsonObject::new();
    object.insert("a".to_string(), JsonValue::Array(Vec::new()));
    object.insert("b".to_string(), JsonValue::Object(JsonObject::new()));
    object.insert("c".to_string(), JsonValue::Array(vec![JsonValue::Array(Vec::new())]));
    assert_eq!(generate(&object), r#"{"a": [], "b": {}, "c": [[]]}"#);
}

#[test]
fn strings_and_keys_are_written_without_escaping() {
    assert_eq!(generate(&single("a", string("x\"y"))), "{\"a\": \"x\"y\"}");
    assert_eq!(generate(&single("a", string("back\\slash"))), "{\"a\": \"back\\slash\"}");
    assert_eq!(generate(&single("k\"", JsonValue::Null)), "{\"k\"\": null}");
    assert_eq!(generate(&single("a", string("line\nbreak"))), "{\"a\": \"line\nbreak\"}");
    assert_eq!(generate(&single("größe", string("東京 🦀"))), "{\"größe\": \"東京 🦀\"}");
}

#[test]
fn numbers_are_written_as_their_text() {
    assert_eq!(generate(&single("a", number("1.50"))), r#"{"a": 1.50}"#);
    assert_eq!(generate(&single("a", number("5."))), r#"{"a": 5.}"#);
    assert_eq!(generate(&single("a", number("-1.5"))), r#"{"a": -1.5}"#);
    assert_eq!(generate(&single("a", number("inf"))), r#"{"a": inf}"#);
    assert_eq!(generate(&single("a", number("-inf"))), r#"{"a": -inf}"#);
    assert_eq!(generate(&single("a", number("NaN"))), r#"{"a": NaN}"#);
}

#[test]
fn generated_text_parses_back_to_the_tree() {
    for text in [
        r#"{}"#,
        r#"{"a": 1}"#,
        r#"{"a": null, "b": true, "c": false, "d": "text", "e": 12.5}"#,
        r#"{"a": [1, [2, [3, [4]]]], "b": {"c": {"d": {"e": "deep"}}}}"#,
        r#"{"a": [{"b": [{"c": [null]}]}], "": "", "k k": " x "}"#,
    ] {
        let tree = parse(text).unwrap();
        let written = generate(&tree);
        assert_eq!(written, text);
        assert_eq!(parse(&written).unwrap(), tree);
    }
}

#[test]
fn parsing_then_generating_normalises_whitespace_only() {
    let tree = parse("{ \"a\" :1 ,\n\"b\":[ true,false ]\t, \"a\": \"again\" }").unwrap();
    let written = generate(&tree);
    assert_eq!(written, r#"{"a": "again", "b": [true, false]}"#);
    assert_eq!(parse(&written).unwrap(), tree);
    assert_eq!(generate(&parse(&written).unwrap()), written);
}

#[test]
fn trees_that_no_parse_yields_need_not_parse_back() {
    let quoted = single("a", string("x\"y"));
    assert!(parse(&generate(&quoted)).is_err());
    let negative = single("a", number("-1"));
    assert!(parse(&generate(&negative)).is_err());
    let hollow = single("a", JsonValue::Array(Vec::new()));
    assert!(parse(&generate(&hollow)).is_err());
}
