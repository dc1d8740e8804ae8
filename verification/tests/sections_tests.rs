use session_editor::sections::{hidden_tag_body, parse_inline_sections, split_code_blocks, split_lines, InlineSection};

fn rebuild(ss: &[InlineSection]) -> String {
    let mut out = String::new();
    for s in ss {
        match s {
            InlineSection::Plain(p) => out.push_str(p),
            InlineSection::Hidden { name, content } => {
                out.push_str(&format!("<{}>{}</{}>", name, content, name));
            }
        }
    }
    out
}

#[test]
fn splits_out_kebab_case_blocks() {
    let r = parse_inline_sections("before <system-reminder>x</system-reminder> after");
    assert_eq!(r.len(), 3);
    assert!(matches!(&r[0], InlineSection::Plain(p) if p == "before "));
    assert!(matches!(&r[1], InlineSection::Hidden { name, content } if name == "system-reminder" && content == "x"));
    assert!(matches!(&r[2], InlineSection::Plain(p) if p == " after"));
}

#[test]
fn plain_tags_stay_text() {
    let r = parse_inline_sections("<p>hi</p> and a < b");
    assert_eq!(r.len(), 1);
    assert!(matches!(&r[0], InlineSection::Plain(p) if p == "<p>hi</p> and a < b"));
}

#[test]
fn unclosed_block_stays_text() {
    let r = parse_inline_sections("x <command-name>never closed");
    assert_eq!(r.len(), 1);
    assert!(matches!(&r[0], InlineSection::Plain(p) if p == "x <command-name>never closed"));
}

#[test]
fn empty_text_has_no_sections() {
    assert!(parse_inline_sections("").is_empty());
}

#[test]
fn tag_name_must_start_with_letter() {
    let r = parse_inline_sections("<1-a>q</1-a>");
    assert_eq!(r.len(), 1);
    assert!(matches!(&r[0], InlineSection::Plain(p) if p == "<1-a>q</1-a>"));
}

#[test]
fn adjacent_blocks() {
    let r = parse_inline_sections("<a-b>1</a-b><c-d>2</c-d>");
    assert_eq!(r.len(), 2);
    assert!(matches!(&r[0], InlineSection::Hidden { name, content } if name == "a-b" && content == "1"));
    assert!(matches!(&r[1], InlineSection::Hidden { name, content } if name == "c-d" && content == "2"));
}

#[test]
fn sections_give_back_the_text() {
    let samples = [
        "before <system-reminder>x</system-reminder> after",
        "<a-b>1</a-b><c-d>2</c-d>",
        "a < b > c <x-y>unclosed",
        "<local-command-stdout>\nout\n</local-command-stdout>",
        "",
    ];
    for s in samples.iter() {
        let r = parse_inline_sections(s);
        assert_eq!(rebuild(&r), *s);
        for w in r.windows(2) {
            assert!(!(matches!(w[0], InlineSection::Plain(_)) && matches!(w[1], InlineSection::Plain(_))));
        }
    }
}

#[test]
fn lines_split_at_line_feeds() {
    assert_eq!(split_lines("a\nb\n"), vec!["a", "b", ""]);
    assert_eq!(split_lines(""), vec![""]);
    assert_eq!(split_lines("one"), vec!["one"]);
    assert_eq!(split_lines("\n\n"), vec!["", "", ""]);
}

#[test]
fn code_fences_split_body() {
    let r = split_code_blocks("intro\n```rust\nlet x = 1;\n```\noutro");
    assert_eq!(
        r,
        vec![
            ("intro".to_string(), false),
            ("let x = 1;".to_string(), true),
            ("outro".to_string(), false)
        ]
    );
}

#[test]
fn indented_fence_and_unclosed_code() {
    let r = split_code_blocks("  ```\ncode\nmore");
    assert_eq!(r, vec![("code\nmore".to_string(), true)]);
    assert!(split_code_blocks("").is_empty());
}

#[test]
fn block_body_trims_line_feeds() {
    assert_eq!(hidden_tag_body("\n\nbody\nline\n"), "body\nline");
    assert_eq!(hidden_tag_body("\n\n"), "");
    assert_eq!(hidden_tag_body(" x "), " x ");
}
