use serde_json::Value;
use session_editor::batch::descending_unique;
use session_editor::json::{json_to_string, Json, Member};
use session_editor::lines::join_lines;
use session_editor::sections::split_lines;
use session_editor::session::{load_session, open_session, Session};

fn to_json(v: &Value) -> Json {
    match v {
        Value::Null => Json::Null,
        Value::Bool(b) => Json::Bool(*b),
        Value::Number(n) => Json::Number(n.to_string()),
        Value::String(s) => Json::Str(s.clone()),
        Value::Array(a) => Json::Array(a.iter().map(to_json).collect()),
        Value::Object(m) => Json::Object(
            m.iter().map(|(k, x)| Member { key: k.clone(), value: to_json(x) }).collect(),
        ),
    }
}

fn file() -> String {
    [
        r#"{"type":"user","uuid":"u1","parentUuid":null,"sessionId":"s","cwd":"/w","message":{"role":"user","content":"hi"},"timestamp":"2024-01-01T00:00:00Z"}"#,
        "\n",
        r#"{"type":"assistant","uuid":"a1","parentUuid":"u1","message":{"role":"assistant","content":[{"type":"thinking","thinking":"th"},{"type":"text","text":"hello"}]},"isSidechain":true}"#,
        "\n",
        "   ",
        "\n",
        "not json",
        "\n",
        r#"{"type":"user","uuid":"u2","parentUuid":"a1","message":{"role":"user","content":[{"type":"tool_result","content":"ok"}]}}"#,
        "\n",
        r#"{"type":"summary","summary":"x"}"#,
        "\n",
        r#"{"type":"attachment","uuid":"t1","parentUuid":"u2","rendered":[{"content":"env"}]}"#,
        "\n",
        r#"{"type":"user","uuid":"u3","parentUuid":"t1","message":{"role":"user","content":"  "}}"#,
        "\n"
    ]
    .concat()
}

fn open(text: &str) -> Session {
    open_session(text)
}

fn parsed_by_hand(text: &str) -> Session {
    let lines = split_lines(text);
    let records: Vec<Option<Json>> = lines
        .iter()
        .map(|l| serde_json::from_str::<Value>(l).ok().map(|v| to_json(&v)))
        .collect();
    load_session(lines, records)
}

fn field(line: &str, key: &str) -> Value {
    let v: Value = serde_json::from_str(line).unwrap();
    v.get(key).cloned().unwrap_or(Value::Null)
}

#[test]
fn loading_picks_the_messages() {
    let s = open(&file());
    assert_eq!(s.raw_lines.len(), 9);
    let idx: Vec<usize> = s.messages.iter().map(|m| m.line_idx).collect();
    assert_eq!(idx, vec![0, 1, 4, 6]);
    let roles: Vec<&str> = s.messages.iter().map(|m| m.role.as_str()).collect();
    assert_eq!(roles, vec!["user", "assistant", "user", "attachment"]);
    assert_eq!(s.messages[0].display_text, "hi");
    assert_eq!(s.messages[0].timestamp.as_deref(), Some("2024-01-01T00:00:00Z"));
    assert_eq!(s.messages[1].display_text, "hello");
    assert_eq!(s.messages[1].thinking_text, "th");
    assert!(s.messages[1].is_sidechain);
    assert_eq!(s.messages[2].display_text, "");
    assert_eq!(s.messages[2].tool_lines, vec!["← ok".to_string()]);
    assert_eq!(s.messages[3].display_text, "env");
    assert!(!s.dirty);
    assert!(s.messages.iter().all(|m| !m.editing && m.edit_buf == m.display_text));
}

#[test]
fn unedited_session_saves_unchanged() {
    let s = open(&file());
    assert_eq!(join_lines(&s.raw_lines), file());
}

#[test]
fn edit_rewrites_first_text_block() {
    let mut s = open(&file());
    s.set_editing(1, true);
    assert!(s.messages[1].editing);
    s.messages[1].edit_buf = "bye".to_string();
    s.commit_edit(1);
    let mut want: Value = serde_json::from_str(&split_lines(&file())[1]).unwrap();
    want["message"]["content"][1]["text"] = Value::String("bye".into());
    assert_eq!(s.raw_lines[1], serde_json::to_string(&want).unwrap());
    assert_eq!(s.messages[1].display_text, "bye");
    assert!(!s.messages[1].editing);
    assert!(s.dirty);
    assert_eq!(s.raw_lines[0], split_lines(&file())[0]);
}

#[test]
fn edit_of_string_content_and_attachment() {
    let mut s = open(&file());
    s.messages[0].edit_buf = "new \"q\"".to_string();
    s.messages[3].edit_buf = "rendered\ntext".to_string();
    s.commit_edits(&vec![0, 3]);
    assert_eq!(field(&s.raw_lines[0], "message")["content"], Value::String("new \"q\"".into()));
    let r = field(&s.raw_lines[6], "rendered");
    assert_eq!(serde_json::to_string(&r).unwrap(), r#"[{"content":"rendered\ntext"}]"#);
    assert_eq!(s.messages[3].display_text, "rendered\ntext");
}

#[test]
fn edit_adds_text_block_when_there_is_none() {
    let mut s = open(&file());
    s.messages[2].edit_buf = "added".to_string();
    s.commit_edit(2);
    let c = field(&s.raw_lines[4], "message")["content"].clone();
    assert_eq!(
        serde_json::to_string(&c).unwrap(),
        r#"[{"content":"ok","type":"tool_result"},{"text":"added","type":"text"}]"#
    );
}

#[test]
fn cancel_edit_drops_typed_text() {
    let mut s = open(&file());
    s.set_editing(0, true);
    s.messages[0].edit_buf = "typed".to_string();
    s.set_editing(0, false);
    assert_eq!(s.messages[0].edit_buf, "hi");
    assert!(!s.messages[0].editing);
    assert!(!s.dirty);
    assert_eq!(join_lines(&s.raw_lines), file());
}

#[test]
fn delete_relinks_children() {
    let mut s = open(&file());
    s.commit_delete(1);
    assert_eq!(s.raw_lines.len(), 8);
    assert_eq!(field(&s.raw_lines[3], "uuid"), Value::String("u2".into()));
    assert_eq!(field(&s.raw_lines[3], "parentUuid"), Value::String("u1".into()));
    let idx: Vec<usize> = s.messages.iter().map(|m| m.line_idx).collect();
    assert_eq!(idx, vec![0, 3, 5]);
    assert!(s.dirty);
}

#[test]
fn delete_of_root_gives_children_null_parent() {
    let mut s = open(&file());
    s.commit_delete(0);
    assert_eq!(field(&s.raw_lines[0], "uuid"), Value::String("a1".into()));
    assert_eq!(field(&s.raw_lines[0], "parentUuid"), Value::Null);
    assert!(s.raw_lines[0].contains("\"parentUuid\":null"));
}

#[test]
fn delete_out_of_range_changes_nothing() {
    let mut s = open(&file());
    s.commit_delete(17);
    assert_eq!(join_lines(&s.raw_lines), file());
    assert_eq!(s.messages.len(), 4);
    assert!(!s.dirty);
}

#[test]
fn batch_delete_goes_from_the_end() {
    let mut s = open(&file());
    s.commit_deletes(&vec![0, 3, 0]);
    let uuids: Vec<Value> = s.raw_lines.iter().filter_map(|l| serde_json::from_str::<Value>(l).ok()).map(|v| v["uuid"].clone()).collect();
    assert_eq!(
        uuids,
        vec![Value::String("a1".into()), Value::String("u2".into()), Value::Null, Value::String("u3".into())]
    );
    assert_eq!(s.messages.len(), 2);
    // u3's parent was the deleted attachment t1, whose parent was u2
    assert_eq!(field(&s.raw_lines[5], "parentUuid"), Value::String("u2".into()));
}

#[test]
fn insert_attachment_links_into_chain() {
    let mut s = open(&file());
    s.insert_attachment_after(0, "new-uuid".to_string(), "2024-05-06T07:08:09.123Z".to_string());
    assert_eq!(s.raw_lines.len(), 10);
    let want: Value = serde_json::from_str(
        r#"{"parentUuid":"u1","isSidechain":false,"type":"attachment","uuid":"new-uuid","timestamp":"2024-05-06T07:08:09.123Z","rendered":[{"content":""}],"sessionId":"s","cwd":"/w"}"#,
    )
    .unwrap();
    assert_eq!(s.raw_lines[1], serde_json::to_string(&want).unwrap());
    assert_eq!(field(&s.raw_lines[2], "parentUuid"), Value::String("new-uuid".into()));
    let idx: Vec<usize> = s.messages.iter().map(|m| m.line_idx).collect();
    assert_eq!(idx, vec![0, 1, 2, 5, 7]);
    assert!(s.messages[1].editing);
    assert_eq!(s.messages[1].role, "attachment");
    assert_eq!(s.messages[1].timestamp.as_deref(), Some("2024-05-06T07:08:09.123Z"));
    assert!(s.dirty);
}

#[test]
fn insert_after_out_of_range_changes_nothing() {
    let mut s = open(&file());
    s.insert_attachment_after(4, "x".to_string(), "t".to_string());
    assert_eq!(join_lines(&s.raw_lines), file());
}

#[test]
fn reload_only_when_clean_and_not_editing() {
    let mut s = open(&file());
    assert!(s.may_reload());
    s.set_editing(2, true);
    assert!(!s.may_reload());
    s.set_editing(2, false);
    s.commit_delete(0);
    assert!(!s.may_reload());
}

#[test]
fn deletion_order_is_descending_and_unique() {
    assert_eq!(descending_unique(&vec![2, 5, 2, 0, 5]), vec![5, 2, 0]);
    assert_eq!(descending_unique(&vec![]), Vec::<usize>::new());
    assert_eq!(descending_unique(&vec![1, 1, 1]), vec![1]);
}

#[test]
fn record_text_survives_json_round_trip() {
    let s = open(&file());
    for m in s.messages.iter() {
        let v: Value = serde_json::from_str(&s.raw_lines[m.line_idx]).unwrap();
        assert_eq!(json_to_string(&m.original), serde_json::to_string(&v).unwrap());
    }
}

#[test]
fn deleting_inserted_attachment_undoes_insert() {
    let before = open(&file());
    let mut s = open(&file());
    s.insert_attachment_after(0, "fresh-id".to_string(), "2024-05-06T07:08:09.123Z".to_string());
    s.commit_delete(1);
    assert_eq!(s.raw_lines.len(), before.raw_lines.len());
    for (i, (a, b)) in s.raw_lines.iter().zip(before.raw_lines.iter()).enumerate() {
        let va = serde_json::from_str::<Value>(a).ok();
        let vb = serde_json::from_str::<Value>(b).ok();
        assert_eq!(va, vb, "line {}", i);
        if i != 1 {
            assert_eq!(a, b, "line {}", i);
        }
    }
    let lines: Vec<usize> = s.messages.iter().map(|m| m.line_idx).collect();
    let lines_before: Vec<usize> = before.messages.iter().map(|m| m.line_idx).collect();
    assert_eq!(lines, lines_before);
    for (m, o) in s.messages.iter().zip(before.messages.iter()) {
        assert_eq!(json_to_string(&m.original), json_to_string(&o.original));
        assert_eq!(m.display_text, o.display_text);
    }
}

#[test]
fn written_lines_stay_single_lines() {
    let mut s = open(&file());
    s.messages[0].edit_buf = "multi\nline\r\ntext\t\u{1}".to_string();
    s.commit_edit(0);
    s.insert_attachment_after(1, "id\nwith\nbreaks".to_string(), "t\n".to_string());
    s.commit_delete(3);
    assert!(s.raw_lines.iter().all(|l| !l.contains('\n')));
    let saved = join_lines(&s.raw_lines);
    assert_eq!(split_lines(&saved), s.raw_lines);
    let v: Value = serde_json::from_str(&s.raw_lines[0]).unwrap();
    assert_eq!(v["message"]["content"], Value::String("multi\nline\r\ntext\t\u{1}".into()));
}

#[test]
fn opening_reads_each_line_as_serde_json_does() {
    let a = open(&file());
    let b = parsed_by_hand(&file());
    assert_eq!(a.raw_lines, b.raw_lines);
    assert_eq!(a.records.len(), b.records.len());
    for (x, y) in a.records.iter().zip(b.records.iter()) {
        assert_eq!(x.as_ref().map(json_to_string), y.as_ref().map(json_to_string));
    }
    let nested = r#"{"type":"user","message":{"content":[{"type":"text","text":"x","n":[1,-2,3.5,1e300,{"k":[true,null]}]}]},"b":{"z":1,"a":"\u00e9\n"}}"#;
    let s = open(nested);
    let v: Value = serde_json::from_str(nested).unwrap();
    assert_eq!(json_to_string(s.records[0].as_ref().unwrap()), serde_json::to_string(&v).unwrap());
    assert!(open("not json").records[0].is_none());
    assert!(open("").records[0].is_none());
}
