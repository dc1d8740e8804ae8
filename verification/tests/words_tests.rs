use session_editor::words::{
    ctrl_arrow_target, double_click_selection, word_boundary_left, word_boundary_right, word_delete, word_range_at,
};

#[test]
fn left_boundary_goes_to_word_start() {
    assert_eq!(word_boundary_left("hello world", 11), 6);
    assert_eq!(word_boundary_left("hello world   ", 14), 6);
    assert_eq!(word_boundary_left("hello", 3), 0);
    assert_eq!(word_boundary_left("a  b", 4), 3);
    assert_eq!(word_boundary_left("hello world", 0), 0);
    assert_eq!(word_boundary_left("hello world", 500), 6);
    assert_eq!(word_boundary_left("foo, bar!", 9), 5);
}

#[test]
fn right_boundary_goes_to_next_word_start() {
    assert_eq!(word_boundary_right("hello world", 0), 6);
    assert_eq!(word_boundary_right("hello world", 6), 11);
    assert_eq!(word_boundary_right("hello   world", 2), 8);
    assert_eq!(word_boundary_right("hello", 5), 5);
    assert_eq!(word_boundary_right("hello", 99), 5);
}

#[test]
fn boundaries_in_multibyte_text() {
    // "жук жаба": each Cyrillic letter takes two bytes
    assert_eq!(word_boundary_left("жук жаба", 15), 7);
    assert_eq!(word_boundary_right("жук жаба", 0), 7);
}

#[test]
fn double_click_word_ranges() {
    assert_eq!(word_range_at("hello world", 2), (0, 5));
    assert_eq!(word_range_at("hello world", 5), (5, 6));
    assert_eq!(word_range_at("hello world", 11), (6, 11));
    assert_eq!(word_range_at("foo_bar-baz", 1), (0, 7));
    assert_eq!(word_range_at("", 0), (0, 0));
    assert_eq!(word_range_at("привет мир", 2), (0, 12));
}

#[test]
fn ctrl_backspace_removes_previous_word() {
    let mut buf = String::from("hello world");
    let c = word_delete(&mut buf, Some((11, 11)), false);
    assert_eq!(buf, "hello ");
    assert_eq!(c, 6);
}

#[test]
fn ctrl_delete_removes_next_word() {
    let mut buf = String::from("hello world");
    let c = word_delete(&mut buf, Some((0, 0)), true);
    assert_eq!(buf, "world");
    assert_eq!(c, 0);
}

#[test]
fn word_delete_removes_selection() {
    let mut buf = String::from("hello world");
    let c = word_delete(&mut buf, Some((7, 2)), false);
    assert_eq!(buf, "heorld");
    assert_eq!(c, 2);
}

#[test]
fn word_delete_without_cursor() {
    let mut buf = String::from("hello world");
    let c = word_delete(&mut buf, None, true);
    assert_eq!(buf, "hello world");
    assert_eq!(c, 11);
    let c = word_delete(&mut buf, None, false);
    assert_eq!(buf, "hello ");
    assert_eq!(c, 6);
}

#[test]
fn ctrl_arrows_move_by_words() {
    assert_eq!(ctrl_arrow_target("hello world", Some((11, 11)), false, false), (6, 6));
    assert_eq!(ctrl_arrow_target("hello world", Some((11, 3)), false, true), (6, 3));
    assert_eq!(ctrl_arrow_target("hello world", Some((0, 0)), true, false), (6, 6));
    assert_eq!(ctrl_arrow_target("hello world", None, false, false), (6, 6));
}

#[test]
fn word_motions_never_go_the_wrong_way() {
    let texts = ["", "a", "hello world", "  lead", "trail  ", "x, y; z", "жук  жаба"];
    for t in texts.iter() {
        let n = t.chars().count();
        for c in 0..=n {
            let (l, _) = ctrl_arrow_target(t, Some((c, c)), false, false);
            let (r, _) = ctrl_arrow_target(t, Some((c, c)), true, false);
            assert!(l <= c && c <= r && r <= n, "{:?} at {}", t, c);
        }
    }
}

#[test]
fn double_click_selects_word_in_chars() {
    assert_eq!(double_click_selection("hello world", 2), (5, 0));
    assert_eq!(double_click_selection("hello world", 5), (6, 5));
    assert_eq!(double_click_selection("hello world", 40), (11, 6));
    assert_eq!(double_click_selection("", 3), (0, 0));
}
