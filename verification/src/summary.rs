//! What the session list shows of a file: title, message count, git branch,
//! uuid of the first user message, time of the last message.

use vstd::prelude::*;
use crate::json::{Json, JsonV, str_field, same_text};
use crate::blocks::{content_parts, extract_blocks};
use crate::session::{message_content, record_type};
use crate::text::{trim_end_len, all_space, truncated, trimmed, chars_of, str_is_blank, is_blank, trim_bounds, truncate_vec, push_range, string_from_chars};

verus! {

/// The instant an RFC 3339 timestamp names, in milliseconds since
/// 1970-01-01T00:00:00Z, or `None` when the text is not such a timestamp.
pub uninterp spec fn rfc3339_millis(s: Seq<char>) -> Option<i64>;

/// `chrono::DateTime::parse_from_rfc3339` followed by
/// `DateTime::timestamp_millis`: parses an RFC 3339 timestamp and gives the
/// milliseconds since the Unix epoch it names. The result is named
/// `rfc3339_millis`; nothing more is claimed of it.
#[verifier::external_body]
fn iso_to_millis(iso: &str) -> (r: Option<i64>)
    ensures
        r == rfc3339_millis(iso@),
{
    match chrono::DateTime::parse_from_rfc3339(iso) {
        Ok(dt) => Some(dt.timestamp_millis()),
        Err(_) => None,
    }
}

/// Nanoseconds since the epoch of a record's timestamp text.
pub open spec fn timestamp_nanos(iso: Seq<char>) -> Option<int> {
    match rfc3339_millis(iso) {
        Some(ms) => Some(ms * 1_000_000),
        None => None,
    }
}

/// The instant (nanoseconds since the epoch) an RFC 3339 timestamp names.
pub fn iso_to_epoch_nanos(iso: &str) -> (r: Option<i128>)
    ensures
        r matches Some(n) ==> timestamp_nanos(iso@) == Some(n as int),
        r is None ==> timestamp_nanos(iso@) is None,
{
    match iso_to_millis(iso) {
        Some(ms) => Some(ms as i128 * 1_000_000),
        None => None,
    }
}

/// The summary of a session file.
pub struct SessionSummary {
    pub title: String,
    pub message_count: usize,
    pub branch: Option<String>,
    pub first_user_uuid: Option<String>,
    pub last_msg_time: Option<i128>,
}

pub struct SummaryV {
    pub title: Seq<char>,
    pub count: nat,
    pub branch: Option<Seq<char>>,
    pub first_user_uuid: Option<Seq<char>>,
    pub last_time: Option<int>,
}

pub open spec fn opt_str_view(s: Option<String>) -> Option<Seq<char>> {
    match s {
        Some(x) => Some(x@),
        None => None,
    }
}

pub open spec fn opt_int_view(t: Option<i128>) -> Option<int> {
    match t {
        Some(x) => Some(x as int),
        None => None,
    }
}

impl View for SessionSummary {
    type V = SummaryV;

    open spec fn view(&self) -> SummaryV {
        SummaryV {
            title: self.title@,
            count: self.message_count as nat,
            branch: opt_str_view(self.branch),
            first_user_uuid: opt_str_view(self.first_user_uuid),
            last_time: opt_int_view(self.last_msg_time),
        }
    }
}

/// The later of two optional instants.
pub open spec fn latest(a: Option<int>, t: int) -> Option<int> {
    match a {
        Some(x) => Some(if x >= t { x } else { t }),
        None => Some(t),
    }
}

/// One line of the file taken into the summary: the first non-empty
/// `gitBranch` is kept; the timestamp (`time`) of a user, assistant or
/// attachment record moves the last-message time; a user or assistant
/// record with text or tool lines counts as a message, the first user
/// message with text gives the title (trimmed, cut to 70 characters) and
/// the first user message the uuid.
pub open spec fn summary_step(acc: SummaryV, line: Seq<char>, rec: Option<JsonV>, time: Option<int>) -> SummaryV {
    match rec {
        None => acc,
        Some(v) => {
            if all_space(line) {
                acc
            } else {
                let t = record_type(v);
                let branch = if acc.branch is None && str_field(v, "gitBranch"@) is Some && str_field(v, "gitBranch"@)->0.len() > 0 {
                    str_field(v, "gitBranch"@)
                } else {
                    acc.branch
                };
                let last = if (t == "user"@ || t == "assistant"@ || t == "attachment"@) && time is Some {
                    latest(acc.last_time, time->0)
                } else {
                    acc.last_time
                };
                if t == "user"@ || t == "assistant"@ {
                    let parts = content_parts(message_content(v));
                    if !all_space(parts.0) || parts.2.len() > 0 {
                        SummaryV {
                            title: if acc.title.len() == 0 && t == "user"@ && !all_space(parts.0) {
                                truncated(trimmed(parts.0), 70)
                            } else {
                                acc.title
                            },
                            count: acc.count + 1,
                            branch,
                            first_user_uuid: if acc.first_user_uuid is None && t == "user"@ { str_field(v, "uuid"@) } else { acc.first_user_uuid },
                            last_time: last,
                        }
                    } else {
                        SummaryV { branch, last_time: last, ..acc }
                    }
                } else {
                    SummaryV { branch, last_time: last, ..acc }
                }
            }
        },
    }
}

pub open spec fn summary_over(lines: Seq<Seq<char>>, recs: Seq<Option<JsonV>>, times: Seq<Option<int>>, n: int) -> SummaryV
    decreases n,
{
    if n <= 0 {
        SummaryV { title: Seq::empty(), count: 0, branch: None, first_user_uuid: None, last_time: None }
    } else {
        summary_step(summary_over(lines, recs, times, n - 1), lines[n - 1], recs[n - 1], times[n - 1])
    }
}

/// Title of a session without a user message with text.
pub open spec fn untitled() -> Seq<char> {
    "(без юзерского текста)"@
}

/// The summary of a file, or `None` when it holds no message.
pub open spec fn session_summary(lines: Seq<Seq<char>>, recs: Seq<Option<JsonV>>, times: Seq<Option<int>>) -> Option<SummaryV> {
    let acc = summary_over(lines, recs, times, lines.len() as int);
    if acc.count == 0 {
        None
    } else if acc.title.len() == 0 {
        Some(SummaryV { title: untitled(), ..acc })
    } else {
        Some(acc)
    }
}

/// Summary of a file from its lines, the record of each line and the time
/// of each record's `timestamp` (nanoseconds since the epoch).
pub fn summarize_records(lines: &Vec<String>, records: &Vec<Option<Json>>, times: &Vec<Option<i128>>) -> (r: Option<SessionSummary>)
    requires
        records.len() == lines.len(),
        times.len() == lines.len(),
    ensures
        ({
            let want = session_summary(
                lines@.map_values(|l: String| l@),
                records@.map_values(|x: Option<Json>| crate::session::rec_view(x)),
                times@.map_values(|t: Option<i128>| opt_int_view(t)),
            );
            &&& r matches Some(s) ==> want == Some(s@)
            &&& r is None ==> want is None
        }),
{
    let ghost ls = lines@.map_values(|l: String| l@);
    let ghost rs = records@.map_values(|x: Option<Json>| crate::session::rec_view(x));
    let ghost ts = times@.map_values(|t: Option<i128>| opt_int_view(t));
    let mut title: Vec<char> = Vec::new();
    let mut count: usize = 0;
    let mut branch: Option<String> = None;
    let mut first_user_uuid: Option<String> = None;
    let mut last: Option<i128> = None;
    let mut i: usize = 0;
    while i < lines.len()
        invariant
            i <= lines.len() == records.len() == times.len(),
            ls == lines@.map_values(|l: String| l@),
            rs == records@.map_values(|x: Option<Json>| crate::session::rec_view(x)),
            ts == times@.map_values(|t: Option<i128>| opt_int_view(t)),
            count <= i,
            summary_over(ls, rs, ts, i as int) == (SummaryV {
                title: title@,
                count: count as nat,
                branch: opt_str_view(branch),
                first_user_uuid: opt_str_view(first_user_uuid),
                last_time: opt_int_view(last),
            }),
        decreases lines.len() - i,
    {
        assert(ls[i as int] == lines@[i as int]@);
        assert(rs[i as int] == crate::session::rec_view(records@[i as int]));
        assert(ts[i as int] == opt_int_view(times@[i as int]));
        match &records[i] {
            None => {},
            Some(v) => {
                if !str_is_blank(lines[i].as_str()) {
                    let t: String = match v.get_str("type") {
                        Some(t) => t.clone(),
                        None => String::new(),
                    };
                    assert(t@ == record_type(v@));
                    if branch.is_none() {
                        match v.get_str("gitBranch") {
                            Some(b) => {
                                if !b.as_str().is_empty() {
                                    branch = Some(b.clone());
                                }
                            },
                            None => {},
                        }
                    }
                    let is_user = same_text(t.as_str(), "user");
                    let is_chat = is_user || same_text(t.as_str(), "assistant");
                    if is_chat || same_text(t.as_str(), "attachment") {
                        match times[i] {
                            Some(ts_i) => {
                                last = Some(match last {
                                    Some(cur) => if cur >= ts_i { cur } else { ts_i },
                                    None => ts_i,
                                });
                            },
                            None => {},
                        }
                    }
                    if is_chat {
                        let content = match v.get("message") {
                            Some(m) => match m.get("content") {
                                Some(c) => c.duplicate(),
                                None => Json::Null,
                            },
                            None => Json::Null,
                        };
                        assert(content@ == message_content(v@));
                        let (text, _thinking, tools) = extract_blocks(&content);
                        let text_chars = chars_of(text.as_str());
                        let blank = is_blank(&text_chars);
                        if !blank || tools.len() > 0 {
                            count = count + 1;
                            if title.len() == 0 && is_user && !blank {
                                let (a, b) = trim_bounds(&text_chars);
                                let mut tr: Vec<char> = Vec::new();
                                push_range(&mut tr, &text_chars, a, b);
                                title = truncate_vec(&tr, 70);
                            }
                            if first_user_uuid.is_none() && is_user {
                                match v.get_str("uuid") {
                                    Some(u) => {
                                        first_user_uuid = Some(u.clone());
                                    },
                                    None => {},
                                }
                            }
                        }
                    }
                }
            },
        }
        i = i + 1;
    }
    assert(ls.len() == lines.len());
    if count == 0 {
        return None;
    }
    let final_title = if title.len() == 0 {
        "(без юзерского текста)".to_owned()
    } else {
        string_from_chars(&title)
    };
    Some(SessionSummary {
        title: final_title,
        message_count: count,
        branch,
        first_user_uuid,
        last_msg_time: last,
    })
}

/// The time of each record's `timestamp` text, where it has one.
pub open spec fn record_times(recs: Seq<Option<JsonV>>) -> Seq<Option<int>> {
    Seq::new(recs.len(), |i: int|
        match recs[i] {
            Some(v) => match str_field(v, "timestamp"@) {
                Some(s) => timestamp_nanos(s),
                None => None,
            },
            None => None,
        })
}

/// Summary of a file from its lines and the record of each line; the
/// records' timestamps are read with `iso_to_epoch_nanos`.
pub fn summarize_session(lines: &Vec<String>, records: &Vec<Option<Json>>) -> (r: Option<SessionSummary>)
    requires
        records.len() == lines.len(),
        forall|i: int| 0 <= i < records.len() ==> crate::session::rec_view(#[trigger] records@[i]) == crate::json::json_parse(lines@[i]@),
    ensures
        ({
            let rs = records@.map_values(|x: Option<Json>| crate::session::rec_view(x));
            let want = session_summary(lines@.map_values(|l: String| l@), rs, record_times(rs));
            &&& r matches Some(s) ==> want == Some(s@)
            &&& r is None ==> want is None
        }),
{
    let ghost rs = records@.map_values(|x: Option<Json>| crate::session::rec_view(x));
    let mut times: Vec<Option<i128>> = Vec::new();
    let mut i: usize = 0;
    while i < records.len()
        invariant
            i <= records.len(),
            rs == records@.map_values(|x: Option<Json>| crate::session::rec_view(x)),
            times.len() == i,
            forall|k: int| 0 <= k < i ==> opt_int_view(#[trigger] times@[k]) == record_times(rs)[k],
        decreases records.len() - i,
    {
        assert(rs[i as int] == crate::session::rec_view(records@[i as int]));
        let t = match &records[i] {
            Some(v) => match v.get_str("timestamp") {
                Some(s) => iso_to_epoch_nanos(s.as_str()),
                None => None,
            },
            None => None,
        };
        times.push(t);
        i = i + 1;
    }
    assert(times@.map_values(|t: Option<i128>| opt_int_view(t)) =~= record_times(rs));
    summarize_records(lines, records, &times)
}

// ---------- the title ----------

/// A line that can title a file: a user record, on a non-blank line, whose
/// message text is not blank.
pub open spec fn titles_file(line: Seq<char>, rec: Option<JsonV>) -> bool {
    rec matches Some(v) && !all_space(line) && str_field(v, "type"@) == Some("user"@)
        && !all_space(content_parts(message_content(v)).0)
}

proof fn lemma_trim_end_nonempty(x: Seq<char>)
    requires
        !all_space(x),
    ensures
        trim_end_len(x) > 0,
        !crate::text::is_space(x[trim_end_len(x) - 1]),
        trim_end_len(x) <= x.len(),
    decreases x.len(),
{
    if x.len() > 0 && crate::text::is_space(x.last()) {
        let y = x.drop_last();
        if all_space(y) {
            assert forall|i: int| 0 <= i < x.len() implies crate::text::is_space(#[trigger] x[i]) by {
                if i < y.len() {
                    assert(x[i] == y[i]);
                }
            }
        }
        lemma_trim_end_nonempty(y);
        assert(x[trim_end_len(x) - 1] == y[trim_end_len(y) - 1]);
    }
}

proof fn lemma_leading_space_short(y: Seq<char>)
    requires
        y.len() > 0,
        !crate::text::is_space(y.last()),
    ensures
        crate::text::leading_space(y) < y.len(),
    decreases y.len(),
{
    if crate::text::is_space(y[0]) {
        assert(y.len() > 1);
        assert(y.drop_first().last() == y.last());
        lemma_leading_space_short(y.drop_first());
    }
}

/// The trimmed form of a text that is not blank is not empty.
proof fn lemma_trimmed_nonempty(x: Seq<char>)
    requires
        !all_space(x),
    ensures
        trimmed(x).len() > 0,
        truncated(trimmed(x), 70).len() > 0,
{
    lemma_trim_end_nonempty(x);
    let e = trim_end_len(x) as int;
    let y = x.take(e);
    assert(y.last() == x[e - 1]);
    lemma_leading_space_short(y);
}

/// The title of a file is taken from its first user record with text: the
/// trimmed text, cut to 70 characters. Lines after it never change it.
pub proof fn lemma_title_is_first_user_text(lines: Seq<Seq<char>>, recs: Seq<Option<JsonV>>, times: Seq<Option<int>>, i: int)
    requires
        lines.len() == recs.len(),
        times.len() == recs.len(),
        0 <= i < lines.len(),
        titles_file(lines[i], recs[i]),
        forall|j: int| 0 <= j < i ==> !titles_file(#[trigger] lines[j], recs[j]),
    ensures
        session_summary(lines, recs, times) matches Some(sm)
            && sm.title == truncated(trimmed(content_parts(message_content(recs[i]->0)).0), 70),
{
    reveal_strlit("user");
    let want = truncated(trimmed(content_parts(message_content(recs[i]->0)).0), 70);
    lemma_trimmed_nonempty(content_parts(message_content(recs[i]->0)).0);
    lemma_title_prefix(lines, recs, times, i, i + 1);
    lemma_title_after(lines, recs, times, i, lines.len() as int);
}

proof fn lemma_title_prefix(lines: Seq<Seq<char>>, recs: Seq<Option<JsonV>>, times: Seq<Option<int>>, i: int, n: int)
    requires
        lines.len() == recs.len(),
        times.len() == recs.len(),
        0 <= i < lines.len(),
        0 <= n <= i + 1,
        titles_file(lines[i], recs[i]),
        forall|j: int| 0 <= j < i ==> !titles_file(#[trigger] lines[j], recs[j]),
    ensures
        n <= i ==> summary_over(lines, recs, times, n).title.len() == 0,
        n == i + 1 ==> summary_over(lines, recs, times, n).title == truncated(trimmed(content_parts(message_content(recs[i]->0)).0), 70)
            && summary_over(lines, recs, times, n).count > 0,
    decreases n,
{
    reveal_strlit("user");
    if n > 0 {
        lemma_title_prefix(lines, recs, times, i, n - 1);
        if n - 1 < i {
            assert(!titles_file(lines[n - 1], recs[n - 1]));
            if let Some(v) = recs[n - 1] {
                assert("user"@.len() == 4);
                if str_field(v, "type"@) is None {
                    assert(record_type(v) != "user"@);
                }
            }
        }
    }
}

proof fn lemma_title_after(lines: Seq<Seq<char>>, recs: Seq<Option<JsonV>>, times: Seq<Option<int>>, i: int, n: int)
    requires
        lines.len() == recs.len(),
        times.len() == recs.len(),
        0 <= i < lines.len(),
        i + 1 <= n <= lines.len(),
        titles_file(lines[i], recs[i]),
        forall|j: int| 0 <= j < i ==> !titles_file(#[trigger] lines[j], recs[j]),
        truncated(trimmed(content_parts(message_content(recs[i]->0)).0), 70).len() > 0,
    ensures
        summary_over(lines, recs, times, n).title == truncated(trimmed(content_parts(message_content(recs[i]->0)).0), 70),
        summary_over(lines, recs, times, n).count > 0,
    decreases n,
{
    if n == i + 1 {
        lemma_title_prefix(lines, recs, times, i, n);
    } else {
        lemma_title_after(lines, recs, times, i, n - 1);
    }
}

proof fn lemma_title_stays_empty(lines: Seq<Seq<char>>, recs: Seq<Option<JsonV>>, times: Seq<Option<int>>, n: int)
    requires
        lines.len() == recs.len(),
        times.len() == recs.len(),
        0 <= n <= lines.len(),
        forall|j: int| 0 <= j < lines.len() ==> !titles_file(#[trigger] lines[j], recs[j]),
    ensures
        summary_over(lines, recs, times, n).title.len() == 0,
    decreases n,
{
    reveal_strlit("user");
    if n > 0 {
        lemma_title_stays_empty(lines, recs, times, n - 1);
        assert(!titles_file(lines[n - 1], recs[n - 1]));
        if let Some(v) = recs[n - 1] {
            assert("user"@.len() == 4);
            if str_field(v, "type"@) is None {
                assert(record_type(v) != "user"@);
            }
        }
    }
}

/// A file in which no user record has text, but which has messages, gets
/// the placeholder title.
pub proof fn lemma_untitled_without_user_text(lines: Seq<Seq<char>>, recs: Seq<Option<JsonV>>, times: Seq<Option<int>>)
    requires
        lines.len() == recs.len(),
        times.len() == recs.len(),
        forall|j: int| 0 <= j < lines.len() ==> !titles_file(#[trigger] lines[j], recs[j]),
    ensures
        session_summary(lines, recs, times) matches Some(sm) ==> sm.title == untitled(),
{
    lemma_title_stays_empty(lines, recs, times, lines.len() as int);
}

} // verus!
