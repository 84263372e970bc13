use json::{JsonNumber, JsonObject, JsonValue};

fn number(text: &str) -> JsonValue {
    JsonValue::Number(JsonNumber::from_text(text.to_string()).unwrap())
}

#[test]
fn number_text_may_be_a_decimal_literal() {
    for text in ["0", "7", "42", "007", "123.45", "0.5", "5.", "18446744073709551616.000000000000000001"] {
        let number = JsonNumber::from_text(text.to_string()).unwrap();
        assert_eq!(number.as_str(), text);
    }
}

#[test]
fn number_text_may_have_a_sign_or_be_infinite_or_no_number() {
    for text in ["-0", "-1", "-12.5", "-5.", "inf", "-inf", "NaN"] {
        let number = JsonNumber::from_text(text.to_string()).unwrap();
        assert_eq!(number.as_str(), text);
    }
}

#[test]
fn other_text_is_no_number() {
    for text in [
        "", "-", ".", ".5", "-.5", "--1", "+1", "1-", "1.2.3", "1..2", "1e5", "1E5", "1e+5", "0x10",
        "1_000", "1 ", " 1", "12a", "a12", "nan", "NAN", "Inf", "infinity", "-NaN", "+inf", "-inf ",
        "١٢", "1٫5",
    ] {
        assert_eq!(JsonNumber::from_text(text.to_string()), None, "{:?}", text);
    }
}

#[test]
fn numbers_are_equal_when_their_text_is() {
    assert_eq!(number("1.5"), number("1.5"));
    assert_ne!(number("1.5"), number("1.50"));
    assert_ne!(number("1"), JsonValue::String("1".to_string()));
}

#[test]
fn a_new_object_has_no_members() {
    let object = JsonObject::new();
    assert_eq!(object.len(), 0);
    assert!(object.is_empty());
    assert_eq!(object.get("a"), None);
    assert_eq!(object.get(""), None);
}

#[test]
fn insert_appends_new_keys_in_order() {
    let mut object = JsonObject::new();
    object.insert("b".to_string(), number("1"));
    object.insert("a".to_string(), number("2"));
    object.insert("".to_string(), number("3"));
    assert_eq!(object.len(), 3);
    assert!(!object.is_empty());
    assert_eq!(object.key_at(0), "b");
    assert_eq!(object.key_at(1), "a");
    assert_eq!(object.key_at(2), "");
    assert_eq!(object.value_at(0), &number("1"));
    assert_eq!(object.value_at(1), &number("2"));
    assert_eq!(object.value_at(2), &number("3"));
}

#[test]
fn insert_overwrites_in_place() {
    let mut object = JsonObject::new();
    object.insert("a".to_string(), number("1"));
    object.insert("b".to_string(), number("2"));
    object.insert("c".to_string(), number("3"));
    object.insert("b".to_string(), JsonValue::Null);
    assert_eq!(object.len(), 3);
    assert_eq!(object.key_at(0), "a");
    assert_eq!(object.key_at(1), "b");
    assert_eq!(object.key_at(2), "c");
    assert_eq!(object.value_at(1), &JsonValue::Null);
    assert_eq!(object.get("b"), Some(&JsonValue::Null));
    object.insert("a".to_string(), JsonValue::Boolean(true));
    assert_eq!(object.len(), 3);
    assert_eq!(object.value_at(0), &JsonValue::Boolean(true));
    assert_eq!(object.value_at(2), &number("3"));
}

#[test]
fn get_finds_by_whole_key() {
    let mut object = JsonObject::new();
    object.insert("key".to_string(), number("1"));
    object.insert("ke".to_string(), number("2"));
    object.insert("keys".to_string(), number("3"));
    object.insert("KEY".to_string(), number("4"));
    assert_eq!(object.get("key"), Some(&number("1")));
    assert_eq!(object.get("ke"), Some(&number("2")));
    assert_eq!(object.get("keys"), Some(&number("3")));
    assert_eq!(object.get("KEY"), Some(&number("4")));
    assert_eq!(object.get("k"), None);
    assert_eq!(object.get("key "), None);
    assert_eq!(object.get(""), None);
}

#[test]
fn keys_stay_unique_whatever_is_inserted() {
    let mut object = JsonObject::new();
    for round in 0..3 {
        for key in ["a", "b", "a", "c", "b", "a"] {
            object.insert(key.to_string(), number(&format!("{}", round)));
        }
    }
    assert_eq!(object.len(), 3);
    for i in 0..object.len() {
        for j in 0..i {
            assert_ne!(object.key_at(i), object.key_at(j));
        }
        assert_eq!(object.value_at(i), &number("2"));
    }
}

#[test]
fn objects_are_equal_when_members_and_order_are() {
    let mut ab = JsonObject::new();
    ab.insert("a".to_string(), number("1"));
    ab.insert("b".to_string(), number("2"));
    let mut ab_again = JsonObject::new();
    ab_again.insert("a".to_string(), number("0"));
    ab_again.insert("b".to_string(), number("2"));
    ab_again.insert("a".to_string(), number("1"));
    let mut ba = JsonObject::new();
    ba.insert("b".to_string(), number("2"));
    ba.insert("a".to_string(), number("1"));
    assert_eq!(ab, ab_again);
    assert_ne!(ab, ba);
}
