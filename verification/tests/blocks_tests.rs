use serde_json::Value;
use session_editor::blocks::{extract_blocks, rendered_text};
use session_editor::json::{Json, Member};

fn to_json(v: &Value) -> Json {
    match v {
        Value::Null => Json::Null,
        Value::Bool(b) => Json::Bool(*b),
        Value::Number(n) => Json::Number(n.to_string()),
        Value::String(s) => Json::Str(s.clone()),
        Value::Array(a) => Json::Array(a.iter().map(to_json).collect()),
        Value::Object(m) => Json::Object(
            m.iter().map(|(k, x)| Member { key: k.clone(), value: to_json(x) }).collect(),
        ),
    }
}

fn parse(s: &str) -> Json {
    to_json(&serde_json::from_str::<Value>(s).unwrap())
}

#[test]
fn string_content_is_all_text() {
    let (t, th, tools) = extract_blocks(&parse(r#""just text""#));
    assert_eq!(t, "just text");
    assert_eq!(th, "");
    assert!(tools.is_empty());
}

#[test]
fn list_content_splits_into_parts() {
    let c = parse(
        r#"[
        {"type":"thinking","thinking":"hmm"},
        {"type":"text","text":"one"},
        {"type":"tool_use","name":"Bash","input":{"command":"ls"}},
        {"type":"text","text":"two"},
        {"type":"thinking","thinking":"more"},
        {"type":"tool_result","content":"line1\nline2"},
        {"type":"tool_result","content":[{"type":"text","text":"a"},{"type":"image"},{"text":"b\nc"}]},
        {"type":"tool_result","content":42},
        {"type":"tool_use","input":"x"},
        {"type":"other"}
    ]"#,
    );
    let (t, th, tools) = extract_blocks(&c);
    assert_eq!(t, "one\n\ntwo");
    assert_eq!(th, "hmm\n\nmore");
    assert_eq!(
        tools,
        vec![
            "→ Bash  {\"command\":\"ls\"}".to_string(),
            "← line1 line2".to_string(),
            "← a | b c".to_string(),
            "← [result]".to_string(),
            "→ tool  \"x\"".to_string(),
        ]
    );
}

#[test]
fn tool_input_is_cut() {
    let long: String = std::iter::repeat('a').take(300).collect();
    let c = Json::Array(vec![parse(&format!(r#"{{"type":"tool_use","name":"W","input":"{}"}}"#, long))]);
    let (_, _, tools) = extract_blocks(&c);
    let shown: String = std::iter::once('"').chain(std::iter::repeat('a').take(239)).collect();
    assert_eq!(tools, vec![format!("→ W  {}...", shown)]);
}

#[test]
fn other_content_is_empty() {
    let (t, th, tools) = extract_blocks(&Json::Null);
    assert_eq!((t.as_str(), th.as_str(), tools.len()), ("", "", 0));
}

#[test]
fn attachment_text_joins_rendered_blocks() {
    let r = parse(r#"{"type":"attachment","rendered":[{"content":"a"},{"x":1},{"content":"b"}]}"#);
    assert_eq!(rendered_text(&r), "a\n\nb");
    assert_eq!(rendered_text(&parse(r#"{"type":"attachment"}"#)), "");
}
