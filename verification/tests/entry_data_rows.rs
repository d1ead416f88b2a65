use serde_json::Value;
use timetracker::entry_data::{agent_session, data_text, parse_checked, rows, with_agent_label, with_agent_session, Json};

fn s(text: &str) -> Json {
    Json::Str(text.to_string())
}

fn n(text: &str) -> Json {
    Json::Number(text.to_string())
}

/// An object from fields written in ascending key order, as the store keeps them.
fn obj(fields: Vec<(&str, Json)>) -> Json {
    Json::Object(fields.into_iter().map(|(k, v)| (k.to_string(), v)).collect())
}

fn same(a: &Json, b: &Json) -> bool {
    format!("{a:?}") == format!("{b:?}")
}

/// The reader `--data` goes through: serde_json's value, held as the library's tree.
fn from_value(value: &Value) -> Json {
    match value {
        Value::Null => Json::Null,
        Value::Bool(b) => Json::Bool(*b),
        Value::Number(num) => Json::Number(num.to_string()),
        Value::String(text) => Json::Str(text.clone()),
        Value::Array(items) => Json::Array(items.iter().map(from_value).collect()),
        Value::Object(map) => Json::Object(map.iter().map(|(k, v)| (k.clone(), from_value(v))).collect()),
    }
}

fn parse(raw: &str) -> Result<Option<Json>, String> {
    match data_text(raw) {
        None => Ok(None),
        Some(text) => parse_checked(serde_json::from_str::<Value>(&text).map(|v| from_value(&v)).map_err(|e| e.to_string())),
    }
}

fn row(key: &str, value: &str) -> (String, String) {
    (key.to_string(), value.to_string())
}

#[test]
fn a_blank_value_is_no_data_not_an_error() {
    assert!(matches!(parse(""), Ok(None)));
    assert!(matches!(parse("   "), Ok(None)));
    assert_eq!(data_text(" {} "), Some("{}".to_string()));
}

#[test]
fn an_object_parses_to_itself() {
    let parsed = parse(r#"{"pr": 42, "reviewed": true}"#).unwrap().unwrap();
    assert!(same(&parsed, &obj(vec![("pr", n("42")), ("reviewed", Json::Bool(true))])), "{parsed:?}");
}

#[test]
fn malformed_json_is_an_error_not_a_dropped_field() {
    for bad in [r#"{"a": }"#, "{", "not json", r#"{"a": 1,}"#] {
        let err = parse(bad).expect_err(&format!("`{bad}` parsed instead of failing"));
        assert!(err.starts_with("invalid JSON: "), "{err}");
        assert!(!err.contains('\n'), "{err}");
    }
}

#[test]
fn a_reader_message_is_cut_to_its_first_line() {
    assert_eq!(parse_checked(Err("bad key\r\nat line 2".to_string())).unwrap_err(), "invalid JSON: bad key");
    assert_eq!(parse_checked(Err(String::new())).unwrap_err(), "invalid JSON: ");
}

#[test]
fn a_non_object_is_rejected_by_name() {
    assert_eq!(
        parse("[1, 2]").unwrap_err(),
        "expected a JSON object like {\"key\": \"value\"}, got an array".to_string()
    );
    assert!(parse("42").unwrap_err().ends_with("got a number"));
    assert!(parse("\"hi\"").unwrap_err().ends_with("got a string"));
    assert!(parse_checked(Ok(Json::Null)).unwrap_err().ends_with("got null"));
    assert!(parse_checked(Ok(Json::Bool(false))).unwrap_err().ends_with("got a boolean"));
}

#[test]
fn a_label_stamps_the_agent_namespace_onto_no_data_at_all() {
    let stamped = with_agent_label(None, "code").unwrap();
    assert!(same(&stamped, &obj(vec![("agent", obj(vec![("label", s("code"))]))])), "{stamped:?}");
}

#[test]
fn a_label_keeps_the_callers_own_keys_inside_and_outside_the_namespace() {
    let data = obj(vec![
        ("agent", obj(vec![("model", s("opus")), ("tokens", obj(vec![("input", n("1200"))]))])),
        ("pr", n("42")),
    ]);
    let stamped = with_agent_label(Some(data), "code").unwrap();
    let expected = obj(vec![
        ("agent", obj(vec![("label", s("code")), ("model", s("opus")), ("tokens", obj(vec![("input", n("1200"))]))])),
        ("pr", n("42")),
    ]);
    assert!(same(&stamped, &expected), "{stamped:?}");
}

#[test]
fn a_label_the_caller_already_wrote_wins() {
    let stamped = with_agent_label(Some(obj(vec![("agent", obj(vec![("label", s("mine"))]))])), "code").unwrap();
    assert!(same(&stamped, &obj(vec![("agent", obj(vec![("label", s("mine"))]))])), "{stamped:?}");
}

#[test]
fn a_namespace_that_is_not_an_object_is_rejected_by_name() {
    assert_eq!(
        with_agent_label(Some(obj(vec![("agent", s("code"))])), "code").unwrap_err(),
        "expected \"agent\" to be a JSON object, got a string".to_string()
    );
    assert!(with_agent_label(Some(obj(vec![("agent", Json::Array(vec![n("1")]))])), "code")
        .unwrap_err()
        .ends_with("got an array"));
}

#[test]
fn a_session_stamps_the_same_namespace_beside_the_label() {
    let labelled = with_agent_label(None, "code").unwrap();
    let stamped = with_agent_session(Some(labelled), "sess-1").unwrap();
    assert!(
        same(&stamped, &obj(vec![("agent", obj(vec![("label", s("code")), ("session", s("sess-1"))]))])),
        "{stamped:?}"
    );
}

#[test]
fn a_session_reads_back_out_of_the_namespace() {
    let stamped = with_agent_session(None, "sess-1").unwrap();
    assert_eq!(agent_session(&Some(stamped)), Some("sess-1".to_string()));
    assert_eq!(agent_session(&None), None);
    assert_eq!(agent_session(&Some(obj(vec![("pr", n("42"))]))), None);
    assert_eq!(
        agent_session(&Some(obj(vec![("agent", obj(vec![("label", s("code"))]))]))),
        None,
        "a labelled entry that names no session covers every session"
    );
}

#[test]
fn rows_flatten_nesting_into_one_line_each() {
    let value = obj(vec![
        ("files", Json::Array(vec![s("a.rs"), s("b.rs")])),
        ("pr", n("42")),
        ("review", obj(vec![("approved", Json::Bool(true)), ("by", s("linus"))])),
    ]);
    assert_eq!(
        rows(&value),
        vec![
            row("files[0]", "a.rs"),
            row("files[1]", "b.rs"),
            row("pr", "42"),
            row("review.approved", "true"),
            row("review.by", "linus"),
        ]
    );
}

#[test]
fn empty_containers_still_get_a_row() {
    assert_eq!(
        rows(&obj(vec![("a", obj(vec![])), ("b", Json::Array(vec![]))])),
        vec![row("a", "{}"), row("b", "[]")]
    );
    assert!(rows(&obj(vec![])).is_empty(), "nothing to show at all");
}

#[test]
fn a_bare_value_is_one_row_with_no_key() {
    assert_eq!(rows(&Json::Null), vec![row("", "null")]);
    assert_eq!(rows(&Json::Array(vec![n("7"), Json::Array(vec![s("x")])])), vec![row("[0]", "7"), row("[1][0]", "x")]);
}
