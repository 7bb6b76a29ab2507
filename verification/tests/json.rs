//! Documents: what is read, and what is written.

use chorda::{read_json, write_json, Json, Object};

#[test]
fn fields_come_out_in_the_order_of_their_names() {
    let value = read_json(r#"{ "b": 1, "a": { "d": [], "c": "x" } }"#).unwrap();
    assert_eq!(
        write_json(&value).unwrap(),
        "{\n  \"a\": {\n    \"c\": \"x\",\n    \"d\": []\n  },\n  \"b\": 1\n}"
    );
}

#[test]
fn the_last_of_several_fields_of_one_name_stands() {
    let value = read_json(r#"{ "a": 1, "a": 2 }"#).unwrap();
    assert_eq!(write_json(&value).unwrap(), "{\n  \"a\": 2\n}");
}

#[test]
fn numbers_are_read_and_written_as_they_print() {
    for (read, written) in [
        ("0", "0"),
        ("-1", "-1"),
        ("18446744073709551615", "18446744073709551615"),
        ("1.50", "1.5"),
        ("1e2", "100.0"),
        ("-0", "-0.0"),
        ("0.1", "0.1"),
    ] {
        let value = read_json(read).unwrap();
        let text = write_json(&value).unwrap();
        assert_eq!(text, written);
        assert!(read_json(&text).unwrap().same(&value));
    }
    assert_eq!(write_json(&read_json(" 42 ").unwrap()).unwrap(), "42");
}

#[test]
fn what_is_no_document_is_refused() {
    for text in ["", "[", "{,}", "nul", "1 2", "\"", "{\"a\":}"] {
        assert!(read_json(text).is_err(), "{text}");
    }
}

#[test]
fn documents_nest_as_deep_as_the_reader_goes() {
    let deep = |n: usize| format!("{}{}", "[".repeat(n), "]".repeat(n));
    let value = read_json(&deep(127)).expect("deep enough");
    assert!(read_json(&deep(128)).is_err());
    assert!(read_json(&write_json(&value).unwrap()).unwrap().same(&value));
}

#[test]
fn equality_looks_at_every_part() {
    let value = read_json(r#"[null, true, "x", 1, { "a": [] }]"#).unwrap();
    assert!(value.same(&value.copy()));
    for other in [
        r#"[null, true, "x", 1]"#,
        r#"[null, false, "x", 1, { "a": [] }]"#,
        r#"[null, true, "y", 1, { "a": [] }]"#,
        r#"[null, true, "x", 2, { "a": [] }]"#,
        r#"[null, true, "x", 1, { "b": [] }]"#,
        r#"[null, true, "x", 1, { "a": {} }]"#,
    ] {
        assert!(!value.same(&read_json(other).unwrap()), "{other}");
    }
    assert!(!Json::Null.same(&Json::Bool(false)));
}

#[test]
fn objects_keep_their_fields_in_order() {
    let mut object = Object::new();
    object.insert("b".to_owned(), Json::Bool(true));
    object.insert("a".to_owned(), Json::Null);
    object.insert("b".to_owned(), Json::Bool(false));
    assert!(matches!(object.get("b"), Some(Json::Bool(false))));
    assert!(object.get("c").is_none());
    assert_eq!(
        write_json(&Json::Object(object)).unwrap(),
        "{\n  \"a\": null,\n  \"b\": false\n}"
    );
}
