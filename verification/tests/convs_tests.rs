use session_editor::convs::{apply_rescan, mark_rewinds, order_conversations, sort_newest_first, ConversationInfo};
use std::path::PathBuf;

fn conv(name: &str, project: &str, modified: i128, first: Option<&str>) -> ConversationInfo {
    ConversationInfo {
        path: PathBuf::from(format!("/root/{}/{}", project, name)),
        filename: name.to_string(),
        project: project.to_string(),
        title: format!("title {}", name),
        message_count: 1,
        modified,
        branch: None,
        first_user_uuid: first.map(|s| s.to_string()),
        is_rewind: false,
    }
}

fn names(cs: &[ConversationInfo]) -> Vec<&str> {
    cs.iter().map(|c| c.filename.as_str()).collect()
}

#[test]
fn newest_first_and_stable() {
    let cs = vec![conv("a", "p", 1, None), conv("b", "p", 3, None), conv("c", "p", 1, None), conv("d", "p", 2, None)];
    let r = sort_newest_first(cs);
    assert_eq!(names(&r), vec!["b", "d", "a", "c"]);
}

#[test]
fn older_copies_of_a_conversation_are_rewinds() {
    let mut cs = vec![
        conv("old", "p", 10, Some("u")),
        conv("new", "q", 20, Some("u")),
        conv("alone", "p", 5, Some("v")),
        conv("untitled", "p", 1, None),
        conv("tie", "p", 20, Some("u")),
    ];
    mark_rewinds(&mut cs);
    let marks: Vec<bool> = cs.iter().map(|c| c.is_rewind).collect();
    assert_eq!(marks, vec![true, false, false, false, false]);
}

#[test]
fn order_marks_then_sorts() {
    let cs = vec![conv("old", "p", 10, Some("u")), conv("x", "p", 15, None), conv("new", "p", 20, Some("u"))];
    let r = order_conversations(cs);
    assert_eq!(names(&r), vec!["new", "x", "old"]);
    assert_eq!(r.iter().map(|c| c.is_rewind).collect::<Vec<_>>(), vec![false, false, true]);
}

#[test]
fn rescan_with_same_listing_keeps_everything() {
    let mut cs = vec![conv("a", "p", 2, None), conv("b", "p", 1, None)];
    let mut sel = Some(1);
    let mut fresh = vec![conv("a", "p", 2, None), conv("b", "p", 1, None)];
    fresh[0].title = "changed".to_string();
    apply_rescan(&mut cs, &mut sel, fresh);
    assert_eq!(cs[0].title, "title a");
    assert_eq!(sel, Some(1));
}

#[test]
fn rescan_follows_the_selected_file() {
    let mut cs = vec![conv("a", "p", 2, None), conv("b", "p", 1, None)];
    let mut sel = Some(1);
    let fresh = vec![conv("c", "p", 3, None), conv("a", "p", 2, None), conv("b", "p", 1, None)];
    apply_rescan(&mut cs, &mut sel, fresh);
    assert_eq!(names(&cs), vec!["c", "a", "b"]);
    assert_eq!(sel, Some(2));
}

#[test]
fn rescan_drops_selection_of_vanished_file() {
    let mut cs = vec![conv("a", "p", 2, None), conv("b", "p", 1, None)];
    let mut sel = Some(0);
    apply_rescan(&mut cs, &mut sel, vec![conv("b", "p", 1, None)]);
    assert_eq!(sel, None);
    let mut sel2 = Some(9);
    let mut cs2 = vec![conv("a", "p", 2, None)];
    apply_rescan(&mut cs2, &mut sel2, vec![conv("a", "p", 3, None)]);
    assert_eq!(sel2, None);
    assert_eq!(cs2[0].modified, 3);
}
