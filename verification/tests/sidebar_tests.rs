use session_editor::convs::ConversationInfo;
use session_editor::sidebar::{count_projects, count_shown, group_header, scan_status, sidebar_count, sidebar_groups, ProjectGroup};
use std::path::PathBuf;

fn conv(name: &str, project: &str, title: &str, branch: Option<&str>, rewind: bool) -> ConversationInfo {
    ConversationInfo {
        path: PathBuf::from(name),
        filename: name.to_string(),
        project: project.to_string(),
        title: title.to_string(),
        message_count: 2,
        modified: 0,
        branch: branch.map(|b| b.to_string()),
        first_user_uuid: None,
        is_rewind: rewind,
    }
}

fn sample() -> Vec<ConversationInfo> {
    vec![
        conv("a.jsonl", "C--x-alpha", "Fix Bug", Some("Main"), false),
        conv("b.jsonl", "C--x-beta", "Старый", None, true),
        conv("c.jsonl", "C--x-alpha", "other", None, false),
        conv("d.jsonl", "C--x-beta", "ПРИВЕТ мир", None, false),
    ]
}

fn shape(gs: &[ProjectGroup]) -> Vec<(String, Vec<usize>)> {
    gs.iter().map(|g| (g.project.clone(), g.members.clone())).collect()
}

#[test]
fn counts_shown_and_hidden() {
    let cs = sample();
    assert_eq!(count_shown(&cs, false), 3);
    assert_eq!(count_shown(&cs, true), 4);
    assert_eq!(sidebar_count(&cs, false), "3 (+1 rewind)");
    assert_eq!(sidebar_count(&cs, true), "4");
    let tail: Vec<ConversationInfo> = sample().into_iter().skip(2).collect();
    assert_eq!(sidebar_count(&tail, false), "2");
    assert_eq!(sidebar_count(&Vec::new(), false), "0");
}

#[test]
fn projects_are_counted_once() {
    let cs = sample();
    assert_eq!(count_projects(&cs), 2);
    assert_eq!(count_projects(&Vec::new()), 0);
    assert_eq!(scan_status(&cs, "/home/u/chats"), "Проектов: 2 · диалогов: 4 · /home/u/chats");
}

#[test]
fn groups_without_search() {
    let cs = sample();
    assert_eq!(
        shape(&sidebar_groups(&cs, false, "")),
        vec![("C--x-alpha".to_string(), vec![0, 2]), ("C--x-beta".to_string(), vec![3])]
    );
    assert_eq!(
        shape(&sidebar_groups(&cs, true, "")),
        vec![("C--x-alpha".to_string(), vec![0, 2]), ("C--x-beta".to_string(), vec![1, 3])]
    );
}

#[test]
fn search_ignores_case() {
    let cs = sample();
    assert_eq!(shape(&sidebar_groups(&cs, false, "BUG")), vec![("C--x-alpha".to_string(), vec![0])]);
    assert_eq!(shape(&sidebar_groups(&cs, false, "main")), vec![("C--x-alpha".to_string(), vec![0])]);
    assert_eq!(shape(&sidebar_groups(&cs, false, "ALPHA")), vec![("C--x-alpha".to_string(), vec![0, 2])]);
    assert_eq!(shape(&sidebar_groups(&cs, false, "привет")), vec![("C--x-beta".to_string(), vec![3])]);
    assert_eq!(shape(&sidebar_groups(&cs, false, "c.JSONL")), vec![("C--x-alpha".to_string(), vec![2])]);
    assert!(sidebar_groups(&cs, false, "старый").is_empty());
    assert_eq!(shape(&sidebar_groups(&cs, true, "старый")), vec![("C--x-beta".to_string(), vec![1])]);
    assert!(sidebar_groups(&cs, true, "nothing like this").is_empty());
}

#[test]
fn search_spans_fields_with_spaces() {
    let cs = sample();
    assert_eq!(shape(&sidebar_groups(&cs, false, "bug a.jsonl")), vec![("C--x-alpha".to_string(), vec![0])]);
}

#[test]
fn every_listed_session_is_in_one_group() {
    let cs = sample();
    for show in [false, true].iter() {
        let gs = sidebar_groups(&cs, *show, "");
        let mut seen: Vec<usize> = gs.iter().flat_map(|g| g.members.clone()).collect();
        seen.sort();
        let want: Vec<usize> = (0..cs.len()).filter(|i| *show || !cs[*i].is_rewind).collect();
        assert_eq!(seen, want);
        for g in gs.iter() {
            assert!(g.members.iter().all(|i| cs[*i].project == g.project));
        }
    }
}

#[test]
fn group_headers() {
    assert_eq!(group_header("C--Users-me-my-app", false, 3), "−  app  (3)");
    assert_eq!(group_header("C--Users-me-my-app", true, 12), "+  app  (12)");
    assert_eq!(group_header("plain", false, 0), "−  plain  (0)");
}
