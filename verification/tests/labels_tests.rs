use session_editor::convs::ConversationInfo;
use session_editor::labels::{conv_meta, format_time, msg_time_style, opened_status, role_label, saved_status, TimeStyle};
use std::path::PathBuf;

const S: i128 = 1_000_000_000;
const NOW: i128 = 1_704_067_200 * S;

#[test]
fn before_epoch_is_a_dash() {
    assert_eq!(format_time(-1, NOW), "—");
}

#[test]
fn recent_times_are_relative() {
    assert_eq!(format_time(NOW, NOW), "0с назад");
    assert_eq!(format_time(NOW - 30 * S, NOW), "30с назад");
    assert_eq!(format_time(NOW - 59 * S, NOW), "59с назад");
    assert_eq!(format_time(NOW - 60 * S, NOW), "1мин назад");
    assert_eq!(format_time(NOW - 5 * 60 * S, NOW), "5мин назад");
    assert_eq!(format_time(NOW - 3 * 3600 * S, NOW), "3ч назад");
    assert_eq!(format_time(NOW - 2 * 86400 * S, NOW), "2д назад");
    assert_eq!(format_time(NOW - 29 * 86400 * S, NOW), "29д назад");
}

#[test]
fn whole_seconds_are_compared() {
    assert_eq!(format_time(99 * S + 900_000_000, 100 * S + 200_000_000), "1с назад");
    assert_eq!(format_time(NOW + 10 * S, NOW), "0с назад");
    assert_eq!(format_time(5 * S, -1), "0с назад");
}

#[test]
fn old_times_are_dates() {
    assert_eq!(format_time(NOW - 40 * 86400 * S, NOW), "22.11.2023");
    assert_eq!(format_time(0, NOW), "01.01.1970");
    assert_eq!(format_time(951_782_400 * S + 5, NOW), "29.02.2000");
}

#[test]
fn session_meta_line() {
    let mut c = ConversationInfo {
        path: PathBuf::from("x"),
        filename: "x.jsonl".into(),
        project: "p".into(),
        title: "t".into(),
        message_count: 7,
        modified: NOW - 30 * S,
        branch: None,
        first_user_uuid: None,
        is_rewind: false,
    };
    assert_eq!(conv_meta(&c, NOW), "7 сообщ. · — · 30с назад");
    c.branch = Some("main".into());
    assert_eq!(conv_meta(&c, NOW), "7 сообщ. · main · 30с назад");
}

#[test]
fn status_lines() {
    assert_eq!(opened_status("a.jsonl", 4), "Открыт a.jsonl — 4 сообщ.");
    assert_eq!(saved_status("a.jsonl"), "Сохранено: a.jsonl");
}

#[test]
fn role_names() {
    assert_eq!(role_label("user"), "BRIM");
    assert_eq!(role_label("attachment"), "attachment");
    assert_eq!(role_label("assistant"), "ALICE");
    assert_eq!(role_label(""), "ALICE");
}

#[test]
fn message_time_styles() {
    let today = (2024, 5, 6);
    let yesterday = (2024, 5, 5);
    assert_eq!(msg_time_style((2024, 5, 6), today, yesterday), TimeStyle::Today);
    assert_eq!(msg_time_style((2024, 5, 5), today, yesterday), TimeStyle::Yesterday);
    assert_eq!(msg_time_style((2024, 1, 2), today, yesterday), TimeStyle::ThisYear);
    assert_eq!(msg_time_style((2023, 12, 31), (2024, 1, 1), (2023, 12, 31)), TimeStyle::Yesterday);
    assert_eq!(msg_time_style((2023, 12, 30), (2024, 1, 1), (2023, 12, 31)), TimeStyle::Older);
}
