use serde_json::Value;
use session_editor::json::{json_to_string, Json, Member};

fn to_json(v: &Value) -> Json {
    match v {
        Value::Null => Json::Null,
        Value::Bool(b) => Json::Bool(*b),
        Value::Number(n) => Json::Number(n.to_string()),
        Value::String(s) => Json::Str(s.clone()),
        Value::Array(a) => Json::Array(a.iter().map(to_json).collect()),
        Value::Object(m) => Json::Object(
            m.iter().map(|(k, x)| Member { key: k.clone(), value: to_json(x) }).collect(),
        ),
    }
}

fn parse(s: &str) -> Json {
    to_json(&serde_json::from_str::<Value>(s).unwrap())
}

#[test]
fn compact_text_matches_serde_json() {
    let samples = [
        r#"{"b":1,"a":[true,false,null],"c":{"z":"q","y":-2.5}}"#,
        r#""tab\tquote\"back\\slash\nnl\u0001\u001f\u007f""#,
        r#"[]"#,
        r#"{}"#,
        r#"{"type":"user","message":{"role":"user","content":[{"type":"text","text":"привет"}]}}"#,
        r#"12345678901234567890"#,
        r#"["\b\f\r", "emoji 😀", "\u00e9"]"#,
    ];
    for s in samples.iter() {
        let v: Value = serde_json::from_str(s).unwrap();
        assert_eq!(json_to_string(&to_json(&v)), serde_json::to_string(&v).unwrap(), "{}", s);
    }
}

#[test]
fn lookups() {
    let j = parse(r#"{"type":"user","isSidechain":true,"n":3}"#);
    assert_eq!(j.get_str("type").map(|s| s.as_str()), Some("user"));
    assert_eq!(j.get_bool("isSidechain"), Some(true));
    assert_eq!(j.get_str("n"), None);
    assert_eq!(j.get_bool("type"), None);
    assert!(j.get("missing").is_none());
    assert!(matches!(j.get("n"), Some(Json::Number(t)) if t == "3"));
    assert!(Json::Null.get("type").is_none());
}

#[test]
fn set_field_replaces_or_inserts_in_key_order() {
    let mut j = parse(r#"{"a":1,"c":3}"#);
    j.set_field("b", Json::Str("two".into()));
    assert_eq!(json_to_string(&j), r#"{"a":1,"b":"two","c":3}"#);
    j.set_field("a", Json::Null);
    assert_eq!(json_to_string(&j), r#"{"a":null,"b":"two","c":3}"#);
    j.set_field("d", Json::Bool(false));
    assert_eq!(json_to_string(&j), r#"{"a":null,"b":"two","c":3,"d":false}"#);
}

#[test]
fn set_field_on_null_makes_object() {
    let mut j = Json::Null;
    j.set_field("k", Json::Number("1".into()));
    assert_eq!(json_to_string(&j), r#"{"k":1}"#);
}

#[test]
fn set_then_get_reads_what_was_written() {
    let mut j = parse(r#"{"parentUuid":"p","uuid":"u"}"#);
    j.set_field("parentUuid", Json::Str("q".into()));
    assert_eq!(j.get_str("parentUuid").map(|s| s.as_str()), Some("q"));
    assert_eq!(j.get_str("uuid").map(|s| s.as_str()), Some("u"));
}

#[test]
fn key_order_is_by_code_point() {
    let v: Value = serde_json::from_str(r#"{"é":1,"z":2,"Z":3,"a":4}"#).unwrap();
    let mut j = Json::Object(Vec::new());
    j.set_field("é", Json::Number("1".into()));
    j.set_field("z", Json::Number("2".into()));
    j.set_field("Z", Json::Number("3".into()));
    j.set_field("a", Json::Number("4".into()));
    assert_eq!(json_to_string(&j), serde_json::to_string(&v).unwrap());
}

#[test]
fn duplicate_is_equal_text() {
    let j = parse(r#"{"x":[1,{"y":"z"}]}"#);
    assert_eq!(json_to_string(&j.duplicate()), json_to_string(&j));
}
