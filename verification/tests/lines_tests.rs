use session_editor::lines::join_lines;
use session_editor::sections::split_lines;

#[test]
fn joins_with_line_feeds() {
    let v = vec!["a".to_string(), "b".to_string(), "".to_string()];
    assert_eq!(join_lines(&v), "a\nb\n");
    assert_eq!(join_lines(&Vec::new()), "");
    assert_eq!(join_lines(&vec!["x".to_string()]), "x");
}

#[test]
fn split_then_join_gives_back_file() {
    for t in ["", "\n", "{\"a\":1}\n{\"b\":2}\n", "no newline", "a\n\nb"].iter() {
        assert_eq!(join_lines(&split_lines(t)), *t);
    }
}

#[test]
fn join_then_split_gives_back_lines() {
    let v: Vec<String> = vec!["{}".into(), "".into(), "x y".into()];
    assert_eq!(split_lines(&join_lines(&v)), v);
}
