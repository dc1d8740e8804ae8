use serde_json::Value;
use session_editor::convs::{conversation_from, released_marker_name};
use session_editor::json::{Json, Member};
use session_editor::sections::split_lines;
use session_editor::summary::{iso_to_epoch_nanos, summarize_session};
use std::path::PathBuf;

fn to_json(v: &Value) -> Json {
    match v {
        Value::Null => Json::Null,
        Value::Bool(b) => Json::Bool(*b),
        Value::Number(n) => Json::Number(n.to_string()),
        Value::String(s) => Json::Str(s.clone()),
        Value::Array(a) => Json::Array(a.iter().map(to_json).collect()),
        Value::Object(m) => Json::Object(
            m.iter().map(|(k, x)| Member { key: k.clone(), value: to_json(x) }).collect(),
        ),
    }
}

fn records(lines: &[String]) -> Vec<Option<Json>> {
    lines.iter().map(|l| serde_json::from_str::<Value>(l).ok().map(|v| to_json(&v))).collect()
}

fn file() -> String {
    [
        r#"{"type":"user","uuid":"u1","gitBranch":"","message":{"content":"  Hello there  "},"timestamp":"2024-01-01T00:00:00Z"}"#,
        "\n",
        r#"{"type":"assistant","gitBranch":"main","message":{"content":[{"type":"text","text":"hi"}]},"timestamp":"2024-01-01T00:00:05.250Z"}"#,
        "\n",
        r#"{"type":"attachment","timestamp":"2024-01-02T00:00:00Z"}"#,
        "\n",
        r#"{"type":"user","uuid":"u2","gitBranch":"dev","message":{"content":[{"type":"tool_result","content":"x"}]},"timestamp":"bad"}"#,
        "\n"
    ]
    .concat()
}

#[test]
fn timestamps_to_nanoseconds() {
    assert_eq!(iso_to_epoch_nanos("2024-01-01T00:00:00Z"), Some(1_704_067_200_000_000_000));
    assert_eq!(iso_to_epoch_nanos("2024-01-01T03:00:00+03:00"), Some(1_704_067_200_000_000_000));
    assert_eq!(iso_to_epoch_nanos("2024-01-01T00:00:05.250Z"), Some(1_704_067_205_250_000_000));
    assert_eq!(iso_to_epoch_nanos("1969-12-31T23:59:59.500Z"), Some(-500_000_000));
    assert_eq!(iso_to_epoch_nanos("bad"), None);
    assert_eq!(iso_to_epoch_nanos(""), None);
}

#[test]
fn summary_of_a_file() {
    let lines = split_lines(&file());
    let s = summarize_session(&lines, &records(&lines)).unwrap();
    assert_eq!(s.title, "Hello there");
    assert_eq!(s.message_count, 3);
    assert_eq!(s.branch.as_deref(), Some("main"));
    assert_eq!(s.first_user_uuid.as_deref(), Some("u1"));
    assert_eq!(s.last_msg_time, Some(1_704_153_600_000_000_000));
}

#[test]
fn long_titles_are_cut() {
    let text: String = std::iter::repeat('w').take(100).collect();
    let line = format!(r#"{{"type":"user","message":{{"content":"{}"}}}}"#, text);
    let lines = vec![line];
    let s = summarize_session(&lines, &records(&lines)).unwrap();
    let want: String = std::iter::repeat('w').take(70).collect::<String>() + "...";
    assert_eq!(s.title, want);
    assert_eq!(s.last_msg_time, None);
    assert_eq!(s.first_user_uuid, None);
}

#[test]
fn file_without_user_text_gets_placeholder_title() {
    let lines = vec![r#"{"type":"assistant","message":{"content":"only me"}}"#.to_string()];
    let s = summarize_session(&lines, &records(&lines)).unwrap();
    assert_eq!(s.title, "(без юзерского текста)");
    assert_eq!(s.message_count, 1);
}

#[test]
fn file_without_messages_has_no_entry() {
    let lines = split_lines("{\"type\":\"summary\"}\n\nnot json\n");
    assert!(summarize_session(&lines, &records(&lines)).is_none());
    let r = conversation_from(PathBuf::from("/p/x.jsonl"), "x.jsonl".into(), "proj".into(), "{\"type\":\"summary\"}\n\nnot json\n", 5);
    assert!(r.is_none());
}

#[test]
fn entry_for_a_file() {
    let c = conversation_from(PathBuf::from("/p/a.jsonl"), "a.jsonl".into(), "proj".into(), &file(), 7).unwrap();
    assert_eq!(c.path, PathBuf::from("/p/a.jsonl"));
    assert_eq!(c.filename, "a.jsonl");
    assert_eq!(c.project, "proj");
    assert_eq!(c.title, "Hello there");
    assert_eq!(c.message_count, 3);
    assert_eq!(c.modified, 1_704_153_600_000_000_000);
    assert_eq!(c.branch.as_deref(), Some("main"));
    assert!(!c.is_rewind);
}

#[test]
fn entry_without_timestamps_uses_file_time() {
    let c = conversation_from(PathBuf::from("b"), "b.jsonl".into(), "p".into(), r#"{"type":"user","message":{"content":"q"}}"#, 42).unwrap();
    assert_eq!(c.modified, 42);
}

#[test]
fn release_marker_names() {
    assert_eq!(released_marker_name("abc.jsonl"), "abc.desktop-released.json");
    assert_eq!(released_marker_name("abc.jsonl.jsonl"), "abc.desktop-released.json");
    assert_eq!(released_marker_name("abc"), "abc.desktop-released.json");
    assert_eq!(released_marker_name(".jsonl"), ".desktop-released.json");
    assert_eq!(released_marker_name("a.json"), "a.json.desktop-released.json");
}
