use session_editor::text::{byte_length, char_idx_to_byte, short_project_name, summarize, truncate_chars};

#[test]
fn truncate_keeps_short_text() {
    assert_eq!(truncate_chars("hello", 5), "hello");
    assert_eq!(truncate_chars("", 0), "");
}

#[test]
fn truncate_cuts_and_marks() {
    assert_eq!(truncate_chars("hello world", 5), "hello...");
    assert_eq!(truncate_chars("привет мир", 6), "привет...");
    assert_eq!(truncate_chars("abc", 0), "...");
}

#[test]
fn summarize_flattens_lines() {
    assert_eq!(summarize("one\ntwo\nthree"), "one two three");
    let long: String = std::iter::repeat('x').take(250).collect();
    let want: String = std::iter::repeat('x').take(200).collect::<String>() + "...";
    assert_eq!(summarize(&long), want);
}

#[test]
fn short_names_of_project_folders() {
    assert_eq!(short_project_name("C--Users-name-projects-my-app"), "app");
    assert_eq!(short_project_name("plain"), "plain");
    assert_eq!(short_project_name("ends-with-"), "ends-with-");
    assert_eq!(short_project_name(""), "");
}

#[test]
fn char_index_to_byte_offset() {
    assert_eq!(char_idx_to_byte("abc", 1), 1);
    assert_eq!(char_idx_to_byte("жук", 2), 4);
    assert_eq!(char_idx_to_byte("жук", 3), 6);
    assert_eq!(char_idx_to_byte("жук", 10), 6);
    assert_eq!(char_idx_to_byte("", 0), 0);
}

#[test]
fn byte_length_is_utf8_length() {
    assert_eq!(byte_length("abc"), 3);
    assert_eq!(byte_length("жук"), 6);
    assert_eq!(byte_length("€𝄞"), 7);
}
