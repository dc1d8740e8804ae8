//! An open session file: its raw lines, the record each line holds, and the
//! messages the editor shows; with the edits the editor makes (rewrite a
//! message, delete one and repair the `parentUuid` chain, insert an
//! attachment record).

use vstd::prelude::*;
use crate::json::{Json, JsonV, field, str_field, bool_field, json_to_string, same_text};
use crate::blocks::{content_parts, attachment_text, extract_blocks, rendered_text, strings_view};
use crate::text::{all_space, str_is_blank};

verus! {

/// One message as the editor shows it.
pub struct Msg {
    /// Index of the line of the file that holds the record.
    pub line_idx: usize,
    /// The record's `type`: `user`, `assistant` or `attachment`.
    pub role: String,
    pub display_text: String,
    pub tool_lines: Vec<String>,
    pub thinking_text: String,
    pub is_sidechain: bool,
    pub editing: bool,
    pub edit_buf: String,
    /// The record as last read or written.
    pub original: Json,
    pub timestamp: Option<String>,
}

/// `Msg` over sequences and JSON models.
pub struct MsgV {
    pub line_idx: int,
    pub role: Seq<char>,
    pub display_text: Seq<char>,
    pub tool_lines: Seq<Seq<char>>,
    pub thinking_text: Seq<char>,
    pub is_sidechain: bool,
    pub editing: bool,
    pub edit_buf: Seq<char>,
    pub original: JsonV,
    pub timestamp: Option<Seq<char>>,
}

pub open spec fn opt_view(s: Option<String>) -> Option<Seq<char>> {
    match s {
        Some(x) => Some(x@),
        None => None,
    }
}

impl View for Msg {
    type V = MsgV;

    open spec fn view(&self) -> MsgV {
        MsgV {
            line_idx: self.line_idx as int,
            role: self.role@,
            display_text: self.display_text@,
            tool_lines: strings_view(self.tool_lines@),
            thinking_text: self.thinking_text@,
            is_sidechain: self.is_sidechain,
            editing: self.editing,
            edit_buf: self.edit_buf@,
            original: self.original@,
            timestamp: opt_view(self.timestamp),
        }
    }
}

/// The open file.
pub struct Session {
    /// The file's lines, as they will be written back.
    pub raw_lines: Vec<String>,
    /// The record each line holds: what the line reads as JSON (`None` for a
    /// line that is not JSON), or the record the line was last written from.
    pub records: Vec<Option<Json>>,
    /// The messages shown, in file order.
    pub messages: Vec<Msg>,
    /// Changed since the last save.
    pub dirty: bool,
}

/// `Session` over sequences and JSON models.
pub struct SessionV {
    pub raw_lines: Seq<Seq<char>>,
    pub records: Seq<Option<JsonV>>,
    pub messages: Seq<MsgV>,
    pub dirty: bool,
}

pub open spec fn rec_view(r: Option<Json>) -> Option<JsonV> {
    match r {
        Some(j) => Some(j@),
        None => None,
    }
}

impl View for Session {
    type V = SessionV;

    open spec fn view(&self) -> SessionV {
        SessionV {
            raw_lines: self.raw_lines@.map_values(|l: String| l@),
            records: self.records@.map_values(|r: Option<Json>| rec_view(r)),
            messages: self.messages@.map_values(|m: Msg| m@),
            dirty: self.dirty,
        }
    }
}

/// Line `line` holds the record `rec`: `rec` is what the line reads as
/// JSON, or the line was written as `rec`'s JSON text.
pub open spec fn line_holds(line: Seq<char>, rec: Option<JsonV>) -> bool {
    ||| rec == crate::json::json_parse(line)
    ||| rec is Some && line == crate::json::json_text(rec->0)
}

/// Each line holds its record (see `line_holds`), each message sits on its
/// own non-blank line, in file order, and its `original` is an object.
pub open spec fn session_wf(s: SessionV) -> bool {
    &&& s.records.len() == s.raw_lines.len()
    &&& forall|i: int| 0 <= i < s.raw_lines.len() ==> line_holds(#[trigger] s.raw_lines[i], s.records[i])
    &&& forall|i: int| 0 <= i < s.messages.len() ==> {
        let m = #[trigger] s.messages[i];
        &&& 0 <= m.line_idx < s.raw_lines.len()
        &&& !all_space(s.raw_lines[m.line_idx])
        &&& m.original is Object
    }
    &&& forall|i: int, j: int|
        0 <= i < j < s.messages.len() ==> (#[trigger] s.messages[i]).line_idx < (#[trigger] s.messages[j]).line_idx
}

// ---------- reading a file ----------

/// `message.content` of a record, or `null`.
pub open spec fn message_content(v: JsonV) -> JsonV {
    match field(v, "message"@) {
        Some(m) => match field(m, "content"@) {
            Some(c) => c,
            None => JsonV::Null,
        },
        None => JsonV::Null,
    }
}

/// The record's `type`, or the empty string.
pub open spec fn record_type(v: JsonV) -> Seq<char> {
    match str_field(v, "type"@) {
        Some(t) => t,
        None => Seq::empty(),
    }
}

/// The message that line `i` shows, if any: user and assistant records show
/// their content, attachment records their rendered text (when it is not
/// empty); a user record with neither text nor tool lines is left out, and
/// so is any other line.
pub open spec fn message_at(i: int, line: Seq<char>, rec: Option<JsonV>) -> Option<MsgV> {
    match rec {
        None => None,
        Some(v) => {
            let t = record_type(v);
            let parts: Option<(Seq<char>, Seq<char>, Seq<Seq<char>>)> = if t == "user"@ || t == "assistant"@ {
                Some(content_parts(message_content(v)))
            } else if t == "attachment"@ && attachment_text(v).len() > 0 {
                Some((attachment_text(v), Seq::empty(), Seq::empty()))
            } else {
                None
            };
            if all_space(line) || parts is None {
                None
            } else {
                let p = parts->0;
                if t == "user"@ && all_space(p.0) && p.2.len() == 0 {
                    None
                } else {
                    Some(MsgV {
                        line_idx: i,
                        role: t,
                        display_text: p.0,
                        tool_lines: p.2,
                        thinking_text: p.1,
                        is_sidechain: match bool_field(v, "isSidechain"@) {
                            Some(b) => b,
                            None => false,
                        },
                        editing: false,
                        edit_buf: p.0,
                        original: v,
                        timestamp: str_field(v, "timestamp"@),
                    })
                }
            }
        },
    }
}

/// Messages of the first `n` lines.
pub open spec fn messages_of(lines: Seq<Seq<char>>, recs: Seq<Option<JsonV>>, n: int) -> Seq<MsgV>
    decreases n,
{
    if n <= 0 {
        Seq::empty()
    } else {
        let rest = messages_of(lines, recs, n - 1);
        match message_at(n - 1, lines[n - 1], recs[n - 1]) {
            Some(m) => rest.push(m),
            None => rest,
        }
    }
}

proof fn lemma_messages_of(lines: Seq<Seq<char>>, recs: Seq<Option<JsonV>>, n: int)
    requires
        0 <= n <= lines.len(),
        recs.len() == lines.len(),
    ensures
        forall|i: int| 0 <= i < messages_of(lines, recs, n).len() ==> {
            let m = #[trigger] messages_of(lines, recs, n)[i];
            &&& 0 <= m.line_idx < n
            &&& recs[m.line_idx] == Some(m.original)
            &&& !all_space(lines[m.line_idx])
            &&& m.original is Object
        },
        forall|i: int, j: int|
            0 <= i < j < messages_of(lines, recs, n).len() ==> (#[trigger] messages_of(lines, recs, n)[i]).line_idx
                < (#[trigger] messages_of(lines, recs, n)[j]).line_idx,
    decreases n,
{
    if n > 0 {
        lemma_messages_of(lines, recs, n - 1);
        let rest = messages_of(lines, recs, n - 1);
        match message_at(n - 1, lines[n - 1], recs[n - 1]) {
            Some(m) => {
                assert(field(m.original, "type"@) is Some) by {
                    reveal_strlit("user");
                    reveal_strlit("assistant");
                    reveal_strlit("attachment");
                    assert(record_type(m.original).len() > 0);
                }
                assert forall|i: int| 0 <= i < rest.push(m).len() implies {
                    let x = #[trigger] rest.push(m)[i];
                    &&& 0 <= x.line_idx < n
                    &&& recs[x.line_idx] == Some(x.original)
                    &&& !all_space(lines[x.line_idx])
                    &&& x.original is Object
                } by {
                    if i < rest.len() {
                        assert(rest.push(m)[i] == rest[i]);
                    }
                }
            },
            None => {},
        }
    }
}

/// `message_at(i, line, Some(v))`.
fn message_for_line(i: usize, line: &String, v: &Json) -> (r: Option<Msg>)
    ensures
        r matches Some(m) ==> message_at(i as int, line@, Some(v@)) == Some(m@),
        r is None ==> message_at(i as int, line@, Some(v@)) is None,
{
    let t: String = match v.get_str("type") {
        Some(t) => t.clone(),
        None => String::new(),
    };
    assert(t@ == record_type(v@));
    let is_user = same_text(t.as_str(), "user");
    let is_chat = is_user || same_text(t.as_str(), "assistant");
    let is_attachment = same_text(t.as_str(), "attachment");
    let parts: Option<(String, String, Vec<String>)> = if is_chat {
        let content = match v.get("message") {
            Some(m) => match m.get("content") {
                Some(c) => c.duplicate(),
                None => Json::Null,
            },
            None => Json::Null,
        };
        assert(content@ == message_content(v@));
        Some(extract_blocks(&content))
    } else if is_attachment {
        let a = rendered_text(v);
        if !a.as_str().is_empty() {
            let e: Vec<String> = Vec::new();
            assert(strings_view(e@) =~= Seq::<Seq<char>>::empty());
            Some((a, String::new(), e))
        } else {
            None
        }
    } else {
        None
    };
    if str_is_blank(line.as_str()) {
        return None;
    }
    match parts {
        None => None,
        Some((display, thinking, tools)) => {
            if is_user && str_is_blank(display.as_str()) && tools.len() == 0 {
                return None;
            }
            let sidechain = match v.get_bool("isSidechain") {
                Some(b) => b,
                None => false,
            };
            let timestamp = match v.get_str("timestamp") {
                Some(ts) => Some(ts.clone()),
                None => None,
            };
            let edit_buf = display.clone();
            let m = Msg {
                line_idx: i,
                role: t,
                display_text: display,
                tool_lines: tools,
                thinking_text: thinking,
                is_sidechain: sidechain,
                editing: false,
                edit_buf,
                original: v.duplicate(),
                timestamp,
            };
            assert(m@ == message_at(i as int, line@, Some(v@))->0);
            Some(m)
        },
    }
}

/// Opens the file with text `contents`: it is split at each line feed, each
/// line is read as JSON, and the messages are those `message_at` gives.
pub fn open_session(contents: &str) -> (r: Session)
    ensures
        r@.raw_lines == crate::sections::lines_from(contents@, 0),
        r@.records == crate::convs::parsed_lines(r@.raw_lines),
        r@.messages == messages_of(r@.raw_lines, r@.records, r@.raw_lines.len() as int),
        !r@.dirty,
        session_wf(r@),
        messages_tied(r@),
        forall|k: int| 0 <= k < r@.messages.len() ==> Some((#[trigger] r@.messages[k]).original)
            == crate::json::json_parse(r@.raw_lines[r@.messages[k].line_idx]),
{
    let (lines, records) = crate::lines::parse_lines(contents);
    let ghost ls = lines@.map_values(|l: String| l@);
    assert(ls =~= strings_view(lines@));
    let r = load_session(lines, records);
    assert(r@.records =~= crate::convs::parsed_lines(r@.raw_lines));
    r
}

/// Reads a file's lines (and the record parsed from each) into a session:
/// the messages are those `message_at` gives, in line order.
pub fn load_session(raw_lines: Vec<String>, records: Vec<Option<Json>>) -> (r: Session)
    requires
        records.len() == raw_lines.len(),
        forall|i: int| 0 <= i < records.len() ==> rec_view(#[trigger] records@[i]) == crate::json::json_parse(raw_lines@[i]@),
    ensures
        forall|k: int| 0 <= k < r@.messages.len() ==> Some((#[trigger] r@.messages[k]).original)
            == crate::json::json_parse(r@.raw_lines[r@.messages[k].line_idx]),
        messages_tied(r@),
        r@.raw_lines == raw_lines@.map_values(|l: String| l@),
        r@.records == records@.map_values(|x: Option<Json>| rec_view(x)),
        r@.messages == messages_of(r@.raw_lines, r@.records, raw_lines.len() as int),
        !r@.dirty,
        session_wf(r@),
{
    let ghost lines = raw_lines@.map_values(|l: String| l@);
    let ghost recs = records@.map_values(|x: Option<Json>| rec_view(x));
    let mut messages: Vec<Msg> = Vec::new();
    let mut i: usize = 0;
    assert(messages@.map_values(|m: Msg| m@) =~= Seq::<MsgV>::empty());
    while i < raw_lines.len()
        invariant
            i <= raw_lines.len() == records.len(),
            lines == raw_lines@.map_values(|l: String| l@),
            recs == records@.map_values(|x: Option<Json>| rec_view(x)),
            messages@.map_values(|m: Msg| m@) == messages_of(lines, recs, i as int),
        decreases raw_lines.len() - i,
    {
        let ghost before = messages@.map_values(|m: Msg| m@);
        assert(lines[i as int] == raw_lines@[i as int]@);
        assert(recs[i as int] == rec_view(records@[i as int]));
        match &records[i] {
            None => {},
            Some(v) => {
                match message_for_line(i, &raw_lines[i], v) {
                    Some(m) => {
                        messages.push(m);
                        assert(messages@.map_values(|m: Msg| m@) =~= before.push(m@));
                    },
                    None => {},
                }
            },
        }
        i = i + 1;
    }
    proof {
        lemma_messages_of(lines, recs, raw_lines.len() as int);
    }
    let s = Session { raw_lines, records, messages, dirty: false };
    s
}


// ---------- editing a message ----------

/// Index of the first block at or after `i` whose `type` is `text`.
pub open spec fn first_text_from(items: Seq<JsonV>, i: int) -> Option<int>
    decreases items.len() - i,
{
    if i < 0 || i >= items.len() {
        None
    } else if str_field(items[i], "type"@) == Some("text"@) {
        Some(i)
    } else {
        first_text_from(items, i + 1)
    }
}

/// A message's `content` with its text replaced by `new`: a string is
/// replaced; in a list the first `text` block gets the new text (a text
/// block is appended when there is none); anything else becomes the string.
pub open spec fn content_with_text(c: JsonV, new: Seq<char>) -> JsonV {
    match c {
        JsonV::Array(items) => match first_text_from(items, 0) {
            Some(k) => JsonV::Array(items.update(k, crate::json::set_key(items[k], "text"@, JsonV::Str(new)))),
            None => JsonV::Array(items.push(JsonV::Object(seq![("text"@, JsonV::Str(new)), ("type"@, JsonV::Str("text"@))]))),
        },
        _ => JsonV::Str(new),
    }
}

/// The record of a message after its text is edited to `new`: an attachment
/// gets a `rendered` list of one block holding the text; a user or
/// assistant record gets its `message.content` rewritten (a record without
/// one is kept as it is).
pub open spec fn edited_record(v: JsonV, role: Seq<char>, new: Seq<char>) -> JsonV {
    if role == "attachment"@ {
        crate::json::set_key(v, "rendered"@, JsonV::Array(seq![JsonV::Object(seq![("content"@, JsonV::Str(new))])]))
    } else {
        match field(v, "message"@) {
            Some(m) => match field(m, "content"@) {
                Some(c) => crate::json::set_key(v, "message"@, crate::json::set_key(m, "content"@, content_with_text(c, new))),
                None => v,
            },
            None => v,
        }
    }
}

/// The session after message `k`'s edit buffer is committed: the message
/// shows the new text and stops editing, its record is rewritten, and the
/// record's line becomes that record's JSON text.
pub open spec fn after_edit(s: SessionV, k: int) -> SessionV {
    let m = s.messages[k];
    let v = edited_record(m.original, m.role, m.edit_buf);
    SessionV {
        raw_lines: s.raw_lines.update(m.line_idx, crate::json::json_text(v)),
        records: s.records.update(m.line_idx, Some(v)),
        messages: s.messages.update(k, MsgV { display_text: m.edit_buf, edit_buf: m.edit_buf, editing: false, original: v, ..m }),
        dirty: true,
    }
}

/// The JSON text of an object is never blank: it starts with `{`.
pub proof fn lemma_json_text_not_blank(v: JsonV)
    requires
        v is Object,
    ensures
        !all_space(crate::json::json_text(v)),
{
    assert(crate::json::json_text(v)[0] == '{');
}

fn is_text_block(b: &Json) -> (r: bool)
    ensures
        r == (str_field(b@, "type"@) == Some("text"@)),
{
    match b.get_str("type") {
        Some(t) => same_text(t.as_str(), "text"),
        None => false,
    }
}

/// `content_with_text(c, new)`.
fn new_content(c: &Json, new: &String) -> (r: Json)
    ensures
        r@ == content_with_text(c@, new@),
{
    match c {
        Json::Array(items) => {
            let ghost iv = crate::json::items_view(items@);
            proof {
                crate::json::lemma_items_view(items@);
            }
            let mut k: usize = 0;
            while k < items.len() && !is_text_block(&items[k])
                invariant
                    k <= items.len(),
                    iv == crate::json::items_view(items@),
                    iv.len() == items.len(),
                    forall|i: int| 0 <= i < items.len() ==> #[trigger] iv[i] == items@[i]@,
                    first_text_from(iv, 0) == first_text_from(iv, k as int),
                decreases items.len() - k,
            {
                k = k + 1;
            }
            let mut copy = c.duplicate();
            let mut taken = Json::Null;
            std::mem::swap(&mut copy, &mut taken);
            match taken {
                Json::Array(mut out) => {
                    proof {
                        crate::json::lemma_items_view(out@);
                    }
                    if k < items.len() {
                        let mut b = items[k].duplicate();
                        assert(b@ is Object);
                        b.set_field("text", Json::Str(new.clone()));
                        let ghost before = out@;
                        out.set(k, b);
                        proof {
                            crate::json::lemma_items_view(out@);
                            assert(crate::json::items_view(out@) =~= iv.update(k as int, crate::json::set_key(iv[k as int], "text"@, JsonV::Str(new@))));
                        }
                        Json::Array(out)
                    } else {
                        let mut b = Json::Null;
                        b.set_field("text", Json::Str(new.clone()));
                        b.set_field("type", Json::Str("text".to_owned()));
                        proof {
                            reveal_strlit("text");
                            reveal_strlit("type");
                            reveal_with_fuel(crate::json::key_less, 3);
                            assert("text"@.drop_first()[0] == 'e');
                            assert("type"@.drop_first()[0] == 'y');
                            assert(crate::json::key_less("text"@, "type"@));
                            assert(!crate::json::key_less("type"@, "text"@));
                            assert("text"@[1] != "type"@[1]);
                            let one = seq![("text"@, JsonV::Str(new@))];
                            assert(one.drop_first() =~= Seq::<(Seq<char>, JsonV)>::empty());
                            assert("text"@ != "type"@);
                            assert(one[0].0 == "text"@);
                            assert(crate::json::lookup(one.drop_first(), "type"@) is None);
                            assert(crate::json::lookup(one, "type"@) is None);
                            assert(crate::json::insert_sorted(one.drop_first(), ("type"@, JsonV::Str("text"@))) == seq![("type"@, JsonV::Str("text"@))]);
                            assert(crate::json::insert_sorted(one, ("type"@, JsonV::Str("text"@))) =~= seq![("text"@, JsonV::Str(new@)), ("type"@, JsonV::Str("text"@))]);
                            assert(b@ == JsonV::Object(seq![("text"@, JsonV::Str(new@)), ("type"@, JsonV::Str("text"@))]));
                        }
                        let ghost before = out@;
                        out.push(b);
                        proof {
                            crate::json::lemma_items_view(out@);
                            assert(crate::json::items_view(out@) =~= iv.push(b@));
                        }
                        Json::Array(out)
                    }
                },
                _ => Json::Null,
            }
        },
        _ => Json::Str(new.clone()),
    }
}


/// `edited_record(v, role, new)`.
fn edited(v: &Json, role: &String, new: &String) -> (r: Json)
    requires
        v@ is Object,
    ensures
        r@ == edited_record(v@, role@, new@),
        r@ is Object,
{
    let mut out = v.duplicate();
    if same_text(role.as_str(), "attachment") {
        let mut block = Json::Null;
        block.set_field("content", Json::Str(new.clone()));
        let mut arr: Vec<Json> = Vec::new();
        arr.push(block);
        proof {
            crate::json::lemma_items_view(arr@);
            assert(crate::json::items_view(arr@) =~= seq![block@]);
        }
        out.set_field("rendered", Json::Array(arr));
    } else {
        match v.get("message") {
            Some(m) => match m.get("content") {
                Some(c) => {
                    let nc = new_content(c, new);
                    let mut m2 = m.duplicate();
                    m2.set_field("content", nc);
                    out.set_field("message", m2);
                },
                None => {},
            },
            None => {},
        }
    }
    out
}

/// An empty placeholder message: line 0, no role, no text, not editing,
/// a `null` record, no timestamp.
fn blank_msg() -> (r: Msg)
    ensures
        r@ == (MsgV {
            line_idx: 0,
            role: Seq::empty(),
            display_text: Seq::empty(),
            tool_lines: Seq::empty(),
            thinking_text: Seq::empty(),
            is_sidechain: false,
            editing: false,
            edit_buf: Seq::empty(),
            original: JsonV::Null,
            timestamp: None,
        }),
{
    let r = Msg {
        line_idx: 0,
        role: String::new(),
        display_text: String::new(),
        tool_lines: Vec::new(),
        thinking_text: String::new(),
        is_sidechain: false,
        editing: false,
        edit_buf: String::new(),
        original: Json::Null,
        timestamp: None,
    };
    assert(r@.role =~= Seq::<char>::empty());
    assert(r@.display_text =~= Seq::<char>::empty());
    assert(r@.tool_lines =~= Seq::<Seq<char>>::empty());
    assert(r@.thinking_text =~= Seq::<char>::empty());
    assert(r@.edit_buf =~= Seq::<char>::empty());
    r
}

impl Session {
    /// Commits the edit buffer of message `msg_idx`: its record is rewritten
    /// with the new text and the record's line is replaced by its JSON text.
    pub fn commit_edit(&mut self, msg_idx: usize)
        requires
            session_wf(old(self)@),
            msg_idx < old(self).messages.len(),
        ensures
            final(self)@ == after_edit(old(self)@, msg_idx as int),
            session_wf(final(self)@),
    {
        let ghost s0 = self@;
        assert(s0.messages[msg_idx as int] == self.messages@[msg_idx as int]@);
        let mut m = blank_msg();
        self.messages.set_and_swap(msg_idx, &mut m);
        let new_text = m.edit_buf.clone();
        let v = edited(&m.original, &m.role, &new_text);
        let line = m.line_idx;
        let text = json_to_string(&v);
        let ghost lines0 = self.raw_lines@;
        let ghost recs0 = self.records@;
        self.raw_lines.set(line, text);
        self.records.set(line, Some(v.duplicate()));
        m.display_text = new_text.clone();
        m.edit_buf = new_text;
        m.editing = false;
        m.original = v;
        let ghost msgs_mid = self.messages@;
        self.messages.set(msg_idx, m);
        self.dirty = true;
        proof {
            let s1 = self@;
            let e = after_edit(s0, msg_idx as int);
            assert(s1.raw_lines =~= e.raw_lines);
            assert(s1.records =~= e.records);
            assert(s1.messages =~= e.messages);
            lemma_json_text_not_blank(edited_record(s0.messages[msg_idx as int].original, s0.messages[msg_idx as int].role, s0.messages[msg_idx as int].edit_buf));
            assert forall|i: int| 0 <= i < s1.messages.len() implies {
                let x = #[trigger] s1.messages[i];
                &&& 0 <= x.line_idx < s1.raw_lines.len()
                &&& !all_space(s1.raw_lines[x.line_idx])
                &&& x.original is Object
            } by {
                if i != msg_idx {
                    assert(s1.messages[i] == s0.messages[i]);
                    if i < msg_idx {
                        assert(s0.messages[i].line_idx < s0.messages[msg_idx as int].line_idx);
                    } else {
                        assert(s0.messages[msg_idx as int].line_idx < s0.messages[i].line_idx);
                    }
                }
            }
            assert forall|i: int, j: int| 0 <= i < j < s1.messages.len() implies (#[trigger] s1.messages[i]).line_idx
                < (#[trigger] s1.messages[j]).line_idx by {
                assert(s1.messages[i].line_idx == s0.messages[i].line_idx);
                assert(s1.messages[j].line_idx == s0.messages[j].line_idx);
            }
        }
    }
}

/// The session with message `k`'s editor opened (`on`) or closed and its
/// edit buffer reset to the text shown.
pub open spec fn editing_set(s: SessionV, k: int, on: bool) -> SessionV {
    SessionV {
        messages: s.messages.update(k, MsgV { editing: on, edit_buf: s.messages[k].display_text, ..s.messages[k] }),
        ..s
    }
}

/// Opening a message's editor and closing it again, typing in between or
/// not, leaves the session as it was before the editor opened.
pub proof fn lemma_cancel_restores(s: SessionV, k: int, typed: Seq<char>)
    requires
        0 <= k < s.messages.len(),
        !s.messages[k].editing,
        s.messages[k].edit_buf == s.messages[k].display_text,
    ensures
        ({
            let opened = editing_set(s, k, true);
            let typing = SessionV {
                messages: opened.messages.update(k, MsgV { edit_buf: typed, ..opened.messages[k] }),
                ..opened
            };
            editing_set(typing, k, false) == s
        }),
{
    let opened = editing_set(s, k, true);
    let typing = SessionV { messages: opened.messages.update(k, MsgV { edit_buf: typed, ..opened.messages[k] }), ..opened };
    assert(editing_set(typing, k, false).messages =~= s.messages);
}

impl Session {
    /// Opens (`on`) or closes the editor of message `msg_idx`; either way the
    /// edit buffer starts again from the text shown, so closing drops what
    /// was typed. Nothing is written.
    pub fn set_editing(&mut self, msg_idx: usize, on: bool)
        requires
            session_wf(old(self)@),
            msg_idx < old(self).messages.len(),
        ensures
            final(self)@ == editing_set(old(self)@, msg_idx as int, on),
            session_wf(final(self)@),
    {
        let ghost s0 = self@;
        assert(s0.messages[msg_idx as int] == self.messages@[msg_idx as int]@);
        let mut m = blank_msg();
        self.messages.set_and_swap(msg_idx, &mut m);
        m.edit_buf = m.display_text.clone();
        m.editing = on;
        self.messages.set(msg_idx, m);
        proof {
            let s1 = self@;
            assert(s1.messages =~= editing_set(s0, msg_idx as int, on).messages);
            assert forall|i: int, j: int| 0 <= i < j < s1.messages.len() implies (#[trigger] s1.messages[i]).line_idx
                < (#[trigger] s1.messages[j]).line_idx by {
                assert(s1.messages[i].line_idx == s0.messages[i].line_idx);
                assert(s1.messages[j].line_idx == s0.messages[j].line_idx);
            }
        }
    }
}


// ---------- re-pointing the parent chain ----------

/// Line `line` (holding `rec`) is a record whose `parentUuid` is `from`.
pub open spec fn links_to(line: Seq<char>, rec: Option<JsonV>, from: Seq<char>) -> bool {
    rec is Some && !all_space(line) && str_field(rec->0, "parentUuid"@) == Some(from)
}

/// `rec` with its `parentUuid` set to `to`.
pub open spec fn reparented(rec: JsonV, to: JsonV) -> JsonV {
    crate::json::set_key(rec, "parentUuid"@, to)
}

/// The lines after every record but the one on line `skip` whose
/// `parentUuid` is `from` is re-pointed at `to` and written back.
pub open spec fn relinked_lines(lines: Seq<Seq<char>>, recs: Seq<Option<JsonV>>, skip: int, from: Seq<char>, to: JsonV) -> Seq<Seq<char>> {
    Seq::new(lines.len(), |i: int|
        if i != skip && links_to(lines[i], recs[i], from) {
            crate::json::json_text(reparented(recs[i]->0, to))
        } else {
            lines[i]
        })
}

/// The records after the same re-pointing.
pub open spec fn relinked_records(lines: Seq<Seq<char>>, recs: Seq<Option<JsonV>>, skip: int, from: Seq<char>, to: JsonV) -> Seq<Option<JsonV>> {
    Seq::new(recs.len(), |i: int|
        if i != skip && links_to(lines[i], recs[i], from) {
            Some(reparented(recs[i]->0, to))
        } else {
            recs[i]
        })
}

/// The messages after the same re-pointing of their records.
pub open spec fn relinked_messages(msgs: Seq<MsgV>, from: Seq<char>, to: JsonV) -> Seq<MsgV> {
    Seq::new(msgs.len(), |i: int|
        if str_field(msgs[i].original, "parentUuid"@) == Some(from) {
            MsgV { original: reparented(msgs[i].original, to), ..msgs[i] }
        } else {
            msgs[i]
        })
}

/// The session with every record (but the one on line `skip`) whose
/// `parentUuid` is `from` re-pointed at `to`.
pub open spec fn relink(s: SessionV, skip: int, from: Seq<char>, to: JsonV) -> SessionV {
    SessionV {
        raw_lines: relinked_lines(s.raw_lines, s.records, skip, from, to),
        records: relinked_records(s.raw_lines, s.records, skip, from, to),
        messages: relinked_messages(s.messages, from, to),
        dirty: s.dirty,
    }
}

proof fn lemma_relink_wf(s: SessionV, skip: int, from: Seq<char>, to: JsonV)
    requires
        session_wf(s),
    ensures
        session_wf(relink(s, skip, from, to)),
{
    let r = relink(s, skip, from, to);
    assert forall|i: int| 0 <= i < r.messages.len() implies {
        let m = #[trigger] r.messages[i];
        &&& 0 <= m.line_idx < r.raw_lines.len()
        &&& !all_space(r.raw_lines[m.line_idx])
        &&& m.original is Object
    } by {
        let l = s.messages[i].line_idx;
        if l != skip && links_to(s.raw_lines[l], s.records[l], from) {
            lemma_json_text_not_blank(reparented(s.records[l]->0, to));
        }
    }
    assert forall|i: int, j: int| 0 <= i < j < r.messages.len() implies (#[trigger] r.messages[i]).line_idx
        < (#[trigger] r.messages[j]).line_idx by {
        assert(s.messages[i].line_idx < s.messages[j].line_idx);
    }
}

/// Re-points, in place, what `relink` re-points.
fn relink_in_place(sess: &mut Session, skip: usize, from: &String, to: &Json)
    requires
        session_wf(old(sess)@),
    ensures
        final(sess)@ == relink(old(sess)@, skip as int, from@, to@),
{
    let ghost s0 = sess@;
    let n = sess.raw_lines.len();
    let mut i: usize = 0;
    while i < n
        invariant
            i <= n == sess.raw_lines.len() == sess.records.len(),
            s0.raw_lines.len() == n,
            s0.records.len() == n,
            sess@.messages == s0.messages,
            sess@.dirty == s0.dirty,
            sess@.raw_lines == Seq::new(n as nat, |t: int|
                if t < i { relinked_lines(s0.raw_lines, s0.records, skip as int, from@, to@)[t] } else { s0.raw_lines[t] }),
            sess@.records == Seq::new(n as nat, |t: int|
                if t < i { relinked_records(s0.raw_lines, s0.records, skip as int, from@, to@)[t] } else { s0.records[t] }),
        decreases n - i,
    {
        let ghost lines_before = sess@.raw_lines;
        let ghost recs_before = sess@.records;
        assert(lines_before[i as int] == sess.raw_lines@[i as int]@);
        assert(recs_before[i as int] == rec_view(sess.records@[i as int]));
        let hit: Option<Json> = if i != skip && !str_is_blank(sess.raw_lines[i].as_str()) {
            match &sess.records[i] {
                Some(r) => match r.get_str("parentUuid") {
                    Some(p) => {
                        if same_text(p.as_str(), from.as_str()) {
                            let mut r2 = r.duplicate();
                            assert(r2@ is Object);
                            r2.set_field("parentUuid", to.duplicate());
                            Some(r2)
                        } else {
                            None
                        }
                    },
                    None => None,
                },
                None => None,
            }
        } else {
            None
        };
        let ghost should = i != skip && links_to(s0.raw_lines[i as int], s0.records[i as int], from@);
        assert(lines_before[i as int] == s0.raw_lines[i as int]);
        assert(recs_before[i as int] == s0.records[i as int]);
        assert(hit is Some == should);
        match hit {
            Some(r2) => {
                assert(r2@ == reparented(s0.records[i as int]->0, to@));
                let text = json_to_string(&r2);
                sess.raw_lines.set(i, text);
                sess.records.set(i, Some(r2));
                assert(sess@.raw_lines == lines_before.update(i as int, crate::json::json_text(r2@)));
                assert(sess@.records == recs_before.update(i as int, Some(r2@)));
            },
            None => {},
        }
        proof {
            assert(sess@.raw_lines =~= Seq::new(n as nat, |t: int|
                if t < i + 1 { relinked_lines(s0.raw_lines, s0.records, skip as int, from@, to@)[t] } else { s0.raw_lines[t] }));
            assert(sess@.records =~= Seq::new(n as nat, |t: int|
                if t < i + 1 { relinked_records(s0.raw_lines, s0.records, skip as int, from@, to@)[t] } else { s0.records[t] }));
        }
        i = i + 1;
    }
    let m = sess.messages.len();
    let mut j: usize = 0;
    while j < m
        invariant
            j <= m == sess.messages.len(),
            s0.messages.len() == m,
            sess@.raw_lines == relinked_lines(s0.raw_lines, s0.records, skip as int, from@, to@),
            sess@.records == relinked_records(s0.raw_lines, s0.records, skip as int, from@, to@),
            sess@.dirty == s0.dirty,
            session_wf(s0),
            sess@.messages == Seq::new(m as nat, |t: int|
                if t < j { relinked_messages(s0.messages, from@, to@)[t] } else { s0.messages[t] }),
        decreases m - j,
    {
        assert(sess@.messages[j as int] == sess.messages@[j as int]@);
        let hit = match sess.messages[j].original.get_str("parentUuid") {
            Some(p) => same_text(p.as_str(), from.as_str()),
            None => false,
        };
        let ghost msgs_before = sess@.messages;
        assert(msgs_before[j as int] == s0.messages[j as int]);
        assert(hit == (str_field(s0.messages[j as int].original, "parentUuid"@) == Some(from@)));
        if hit {
            let mut x = blank_msg();
            sess.messages.set_and_swap(j, &mut x);
            assert(x@ == s0.messages[j as int]);
            assert(x.original@ is Object);
            x.original.set_field("parentUuid", to.duplicate());
            let ghost xv = x@;
            sess.messages.set(j, x);
            assert(sess@.messages =~= msgs_before.update(j as int, xv));
            assert(xv == MsgV { original: reparented(s0.messages[j as int].original, to@), ..s0.messages[j as int] });
        }
        proof {
            assert(sess@.messages =~= Seq::new(m as nat, |t: int|
                if t < j + 1 { relinked_messages(s0.messages, from@, to@)[t] } else { s0.messages[t] }));
        }
        j = j + 1;
    }
    proof {
        assert(sess@.raw_lines =~= relink(s0, skip as int, from@, to@).raw_lines);
        assert(sess@.records =~= relink(s0, skip as int, from@, to@).records);
        assert(sess@.messages =~= relink(s0, skip as int, from@, to@).messages);
    }
}


// ---------- deleting a message ----------

/// The value a deleted record's children get as their new `parentUuid`: the
/// deleted record's own `parentUuid`, or `null`.
pub open spec fn parent_of(v: JsonV) -> JsonV {
    match field(v, "parentUuid"@) {
        Some(p) => p,
        None => JsonV::Null,
    }
}

/// Messages with the ones after line `l` moved up a line.
pub open spec fn shifted_up(msgs: Seq<MsgV>, l: int) -> Seq<MsgV> {
    Seq::new(msgs.len(), |i: int|
        if msgs[i].line_idx > l { MsgV { line_idx: msgs[i].line_idx - 1, ..msgs[i] } } else { msgs[i] })
}

/// The session after message `k` is deleted: the records whose
/// `parentUuid` is its `uuid` take its `parentUuid` (so the chain stays
/// connected), its line is removed, and the messages below it move up.
pub open spec fn after_delete(s: SessionV, k: int) -> SessionV {
    if k < 0 || k >= s.messages.len() {
        s
    } else {
        let m = s.messages[k];
        let l = m.line_idx;
        let r = match str_field(m.original, "uuid"@) {
            Some(u) => relink(s, l, u, parent_of(m.original)),
            None => s,
        };
        SessionV {
            raw_lines: r.raw_lines.remove(l),
            records: r.records.remove(l),
            messages: shifted_up(r.messages, l).remove(k),
            dirty: true,
        }
    }
}

impl Session {
    /// Deletes message `msg_idx` and its line, re-pointing the records that
    /// named it as parent at its own parent. Out-of-range indices change
    /// nothing.
    pub fn commit_delete(&mut self, msg_idx: usize)
        requires
            session_wf(old(self)@),
        ensures
            final(self)@ == after_delete(old(self)@, msg_idx as int),
            session_wf(final(self)@),
    {
        if msg_idx >= self.messages.len() {
            return;
        }
        let ghost s0 = self@;
        assert(s0.messages[msg_idx as int] == self.messages@[msg_idx as int]@);
        let line_idx = self.messages[msg_idx].line_idx;
        let uuid: Option<String> = match self.messages[msg_idx].original.get_str("uuid") {
            Some(u) => Some(u.clone()),
            None => None,
        };
        let new_parent: Json = match self.messages[msg_idx].original.get("parentUuid") {
            Some(p) => p.duplicate(),
            None => Json::Null,
        };
        assert(new_parent@ == parent_of(s0.messages[msg_idx as int].original));
        match &uuid {
            Some(u) => {
                relink_in_place(self, line_idx, u, &new_parent);
                proof {
                    lemma_relink_wf(s0, line_idx as int, u@, new_parent@);
                }
            },
            None => {},
        }
        let ghost s1 = self@;
        assert(s1.messages[msg_idx as int].line_idx == line_idx);
        let ghost lines1 = self.raw_lines@;
        let ghost recs1 = self.records@;
        self.raw_lines.remove(line_idx);
        self.records.remove(line_idx);
        assert(self.raw_lines@.map_values(|l: String| l@) =~= lines1.map_values(|l: String| l@).remove(line_idx as int));
        assert(self.records@.map_values(|x: Option<Json>| rec_view(x)) =~= recs1.map_values(|x: Option<Json>| rec_view(x)).remove(line_idx as int));
        let ghost lines2 = self@.raw_lines;
        let ghost recs2 = self@.records;
        let m = self.messages.len();
        let mut j: usize = 0;
        while j < m
            invariant
                j <= m == self.messages.len(),
                s1.messages.len() == m,
                self@.raw_lines == lines2,
                self@.records == recs2,
                self@.messages == Seq::new(m as nat, |t: int|
                    if t < j { shifted_up(s1.messages, line_idx as int)[t] } else { s1.messages[t] }),
            decreases m - j,
        {
            let ghost before = self@.messages;
            assert(before[j as int] == self.messages@[j as int]@);
            if self.messages[j].line_idx > line_idx {
                let mut x = blank_msg();
                self.messages.set_and_swap(j, &mut x);
                x.line_idx = x.line_idx - 1;
                let ghost xv = x@;
                self.messages.set(j, x);
                assert(self@.messages =~= before.update(j as int, xv));
            }
            proof {
                assert(self@.messages =~= Seq::new(m as nat, |t: int|
                    if t < j + 1 { shifted_up(s1.messages, line_idx as int)[t] } else { s1.messages[t] }));
            }
            j = j + 1;
        }
        let ghost shifted = self@.messages;
        self.messages.remove(msg_idx);
        self.dirty = true;
        proof {
            let e = after_delete(s0, msg_idx as int);
            assert(self@.raw_lines =~= e.raw_lines);
            assert(self@.records =~= e.records);
            assert(shifted =~= shifted_up(s1.messages, line_idx as int));
            assert(self@.messages =~= e.messages);
            let sf = self@;
            assert forall|i: int| 0 <= i < sf.messages.len() implies {
                let x = #[trigger] sf.messages[i];
                &&& 0 <= x.line_idx < sf.raw_lines.len()
                &&& !all_space(sf.raw_lines[x.line_idx])
                &&& x.original is Object
            } by {
                let o = if i < msg_idx { i } else { i + 1 };
                assert(sf.messages[i] == shifted_up(s1.messages, line_idx as int)[o]);
                if o < msg_idx {
                    assert(s1.messages[o].line_idx < s1.messages[msg_idx as int].line_idx);
                } else {
                    assert(s1.messages[msg_idx as int].line_idx < s1.messages[o].line_idx);
                }
            }
            assert forall|i: int, j: int| 0 <= i < j < sf.messages.len() implies (#[trigger] sf.messages[i]).line_idx
                < (#[trigger] sf.messages[j]).line_idx by {
                let oi = if i < msg_idx { i } else { i + 1 };
                let oj = if j < msg_idx { j } else { j + 1 };
                assert(s1.messages[oi].line_idx < s1.messages[oj].line_idx);
                assert(s1.messages[oi].line_idx != line_idx);
                assert(s1.messages[oj].line_idx != line_idx);
            }
        }
    }
}


// ---------- inserting an attachment ----------

/// `acc` with member `key` copied from `sample` when `sample` has it.
pub open spec fn copy_key(acc: JsonV, sample: JsonV, key: Seq<char>) -> JsonV {
    match field(sample, key) {
        Some(v) => crate::json::set_key(acc, key, v),
        None => acc,
    }
}

/// A new, empty attachment record placed under the record with uuid
/// `parent` (or with a `null` parent), with uuid `uuid` and timestamp `ts`,
/// taking `sessionId`, `gitBranch`, `cwd`, `version`, `entrypoint` and
/// `userType` from `sample` where it has them.
pub open spec fn new_attachment(parent: Option<Seq<char>>, uuid: Seq<char>, ts: Seq<char>, sample: JsonV) -> JsonV {
    let p = match parent {
        Some(u) => JsonV::Str(u),
        None => JsonV::Null,
    };
    let base = crate::json::set_key(
        crate::json::set_key(
            crate::json::set_key(
                crate::json::set_key(
                    crate::json::set_key(crate::json::set_key(JsonV::Null, "parentUuid"@, p), "isSidechain"@, JsonV::Bool(false)),
                    "type"@,
                    JsonV::Str("attachment"@),
                ),
                "uuid"@,
                JsonV::Str(uuid),
            ),
            "timestamp"@,
            JsonV::Str(ts),
        ),
        "rendered"@,
        JsonV::Array(seq![JsonV::Object(seq![("content"@, JsonV::Str(Seq::empty()))])]),
    );
    copy_key(copy_key(copy_key(copy_key(copy_key(copy_key(base, sample, "sessionId"@), sample, "gitBranch"@), sample,
        "cwd"@), sample, "version"@), sample, "entrypoint"@), sample, "userType"@)
}

/// Messages with the ones at or after line `l` moved down a line.
pub open spec fn shifted_down(msgs: Seq<MsgV>, l: int) -> Seq<MsgV> {
    Seq::new(msgs.len(), |i: int|
        if msgs[i].line_idx >= l { MsgV { line_idx: msgs[i].line_idx + 1, ..msgs[i] } } else { msgs[i] })
}

/// The session after an attachment is inserted below message `a`: the
/// records whose `parentUuid` is message `a`'s `uuid` are re-pointed at the
/// new record, whose own parent is message `a`; its line goes right below
/// message `a`'s line, and it is shown (being edited) right below message `a`.
pub open spec fn after_insert(s: SessionV, a: int, uuid: Seq<char>, ts: Seq<char>) -> SessionV {
    if a < 0 || a >= s.messages.len() {
        s
    } else {
        let m = s.messages[a];
        let l = m.line_idx;
        let au = str_field(m.original, "uuid"@);
        let r = match au {
            Some(u) => relink(s, l, u, JsonV::Str(uuid)),
            None => s,
        };
        let rec = new_attachment(au, uuid, ts, m.original);
        SessionV {
            raw_lines: r.raw_lines.insert(l + 1, crate::json::json_text(rec)),
            records: r.records.insert(l + 1, Some(rec)),
            messages: shifted_down(r.messages, l + 1).insert(a + 1, MsgV {
                line_idx: l + 1,
                role: "attachment"@,
                display_text: Seq::empty(),
                tool_lines: Seq::empty(),
                thinking_text: Seq::empty(),
                is_sidechain: false,
                editing: true,
                edit_buf: Seq::empty(),
                original: rec,
                timestamp: Some(ts),
            }),
            dirty: true,
        }
    }
}

fn copy_key_from(acc: &mut Json, sample: &Json, key: &str)
    requires
        old(acc)@ is Object,
    ensures
        final(acc)@ == copy_key(old(acc)@, sample@, key@),
        final(acc)@ is Object,
{
    match sample.get(key) {
        Some(v) => acc.set_field(key, v.duplicate()),
        None => {},
    }
}

/// `new_attachment(parent, uuid, ts, sample)`.
fn build_attachment(parent: &Option<String>, uuid: &String, ts: &String, sample: &Json) -> (r: Json)
    ensures
        r@ == new_attachment(opt_view(*parent), uuid@, ts@, sample@),
        r@ is Object,
{
    let mut rec = Json::Null;
    let p = match parent {
        Some(u) => Json::Str(u.clone()),
        None => Json::Null,
    };
    rec.set_field("parentUuid", p);
    rec.set_field("isSidechain", Json::Bool(false));
    rec.set_field("type", Json::Str("attachment".to_owned()));
    rec.set_field("uuid", Json::Str(uuid.clone()));
    rec.set_field("timestamp", Json::Str(ts.clone()));
    let mut block = Json::Null;
    block.set_field("content", Json::Str(String::new()));
    let mut arr: Vec<Json> = Vec::new();
    arr.push(block);
    proof {
        crate::json::lemma_items_view(arr@);
        assert(crate::json::items_view(arr@) =~= seq![block@]);
        assert(block@ == JsonV::Object(seq![("content"@, JsonV::Str(Seq::empty()))]));
    }
    rec.set_field("rendered", Json::Array(arr));
    copy_key_from(&mut rec, sample, "sessionId");
    copy_key_from(&mut rec, sample, "gitBranch");
    copy_key_from(&mut rec, sample, "cwd");
    copy_key_from(&mut rec, sample, "version");
    copy_key_from(&mut rec, sample, "entrypoint");
    copy_key_from(&mut rec, sample, "userType");
    rec
}

proof fn lemma_after_insert_wf(s: SessionV, a: int, uuid: Seq<char>, ts: Seq<char>)
    requires
        session_wf(s),
        0 <= a < s.messages.len(),
    ensures
        session_wf(after_insert(s, a, uuid, ts)),
{
    let m = s.messages[a];
    let l = m.line_idx;
    let au = str_field(m.original, "uuid"@);
    let r = match au {
        Some(u) => relink(s, l, u, JsonV::Str(uuid)),
        None => s,
    };
    match au {
        Some(u) => lemma_relink_wf(s, l, u, JsonV::Str(uuid)),
        None => {},
    }
    let rec = new_attachment(au, uuid, ts, m.original);
    lemma_json_text_not_blank(rec);
    let sf = after_insert(s, a, uuid, ts);
    let sh = shifted_down(r.messages, l + 1);
    assert(r.messages[a].line_idx == l);
    assert forall|i: int| 0 <= i < sf.messages.len() implies {
        let x = #[trigger] sf.messages[i];
        &&& 0 <= x.line_idx < sf.raw_lines.len()
        &&& !all_space(sf.raw_lines[x.line_idx])
        &&& x.original is Object
    } by {
        if i != a + 1 {
            let o = if i <= a { i } else { i - 1 };
            assert(sf.messages[i] == sh[o]);
        }
    }
    assert forall|i: int, j: int| 0 <= i < j < sf.messages.len() implies (#[trigger] sf.messages[i]).line_idx
        < (#[trigger] sf.messages[j]).line_idx by {
        if i <= a && j <= a {
            assert(r.messages[i].line_idx < r.messages[j].line_idx);
        } else if i <= a && j == a + 1 {
            if i < a {
                assert(r.messages[i].line_idx < r.messages[a].line_idx);
            }
        } else if i <= a {
            assert(r.messages[i].line_idx < r.messages[j - 1].line_idx);
            if i < a {
                assert(r.messages[i].line_idx < r.messages[a].line_idx);
            }
            assert(r.messages[a].line_idx < r.messages[j - 1].line_idx);
        } else if i == a + 1 {
            assert(r.messages[a].line_idx < r.messages[j - 1].line_idx);
        } else {
            assert(r.messages[i - 1].line_idx < r.messages[j - 1].line_idx);
        }
    }
}

impl Session {
    /// Inserts an empty attachment record (uuid `new_uuid`, timestamp
    /// `timestamp`) right below message `after_msg_idx` and opens it for
    /// editing; the records that were children of that message become
    /// children of the new one. Out-of-range indices change nothing.
    pub fn insert_attachment_after(&mut self, after_msg_idx: usize, new_uuid: String, timestamp: String)
        requires
            session_wf(old(self)@),
        ensures
            final(self)@ == after_insert(old(self)@, after_msg_idx as int, new_uuid@, timestamp@),
            session_wf(final(self)@),
    {
        if after_msg_idx >= self.messages.len() {
            return;
        }
        let ghost s0 = self@;
        assert(s0.messages[after_msg_idx as int] == self.messages@[after_msg_idx as int]@);
        let after_line = self.messages[after_msg_idx].line_idx;
        assert(after_line < self.raw_lines.len());
        let after_uuid: Option<String> = match self.messages[after_msg_idx].original.get_str("uuid") {
            Some(u) => Some(u.clone()),
            None => None,
        };
        assert(opt_view(after_uuid) == str_field(s0.messages[after_msg_idx as int].original, "uuid"@));
        let sample = self.messages[after_msg_idx].original.duplicate();
        let new_value = Json::Str(new_uuid.clone());
        match &after_uuid {
            Some(u) => {
                relink_in_place(self, after_line, u, &new_value);
                proof {
                    lemma_relink_wf(s0, after_line as int, u@, new_value@);
                }
            },
            None => {},
        }
        let ghost s1 = self@;
        let record = build_attachment(&after_uuid, &new_uuid, &timestamp, &sample);
        let insert_line = after_line + 1;
        let line_text = json_to_string(&record);
        let ghost lines1 = self.raw_lines@;
        let ghost recs1 = self.records@;
        self.raw_lines.insert(insert_line, line_text);
        self.records.insert(insert_line, Some(record.duplicate()));
        assert(self@.raw_lines =~= s1.raw_lines.insert(insert_line as int, crate::json::json_text(record@)));
        assert(self@.records =~= s1.records.insert(insert_line as int, Some(record@)));
        let ghost lines2 = self@.raw_lines;
        let ghost recs2 = self@.records;
        let m = self.messages.len();
        let mut j: usize = 0;
        while j < m
            invariant
                j <= m == self.messages.len(),
                s1.messages.len() == m,
                session_wf(s1),
                s1.raw_lines.len() == lines1.len(),
                lines1.len() <= usize::MAX,
                self@.raw_lines == lines2,
                self@.records == recs2,
                self@.messages == Seq::new(m as nat, |t: int|
                    if t < j { shifted_down(s1.messages, insert_line as int)[t] } else { s1.messages[t] }),
            decreases m - j,
        {
            let ghost before = self@.messages;
            assert(before[j as int] == self.messages@[j as int]@);
            if self.messages[j].line_idx >= insert_line {
                let mut x = blank_msg();
                self.messages.set_and_swap(j, &mut x);
                assert(x@ == s1.messages[j as int]);
                x.line_idx = x.line_idx + 1;
                let ghost xv = x@;
                self.messages.set(j, x);
                assert(self@.messages =~= before.update(j as int, xv));
            }
            proof {
                assert(self@.messages =~= Seq::new(m as nat, |t: int|
                    if t < j + 1 { shifted_down(s1.messages, insert_line as int)[t] } else { s1.messages[t] }));
            }
            j = j + 1;
        }
        let ghost shifted = self@.messages;
        let ts_copy = timestamp.clone();
        let msg = Msg {
            line_idx: insert_line,
            role: "attachment".to_owned(),
            display_text: String::new(),
            tool_lines: Vec::new(),
            thinking_text: String::new(),
            is_sidechain: false,
            editing: true,
            edit_buf: String::new(),
            original: record,
            timestamp: Some(ts_copy),
        };
        let ghost mv = msg@;
        self.messages.insert(after_msg_idx + 1, msg);
        self.dirty = true;
        proof {
            assert(strings_view(Seq::<String>::empty()) =~= Seq::<Seq<char>>::empty());
            let e = after_insert(s0, after_msg_idx as int, new_uuid@, timestamp@);
            assert(self@.raw_lines =~= e.raw_lines);
            assert(self@.records =~= e.records);
            assert(shifted =~= shifted_down(s1.messages, insert_line as int));
            assert(self@.messages =~= e.messages);
            lemma_after_insert_wf(s0, after_msg_idx as int, new_uuid@, timestamp@);
        }
    }
}


// ---------- laws of the parent chain ----------

proof fn lemma_reparented_parent(rec: JsonV, to: JsonV)
    requires
        rec is Object,
    ensures
        field(reparented(rec, to), "parentUuid"@) == Some(to),
        forall|k: Seq<char>| k != "parentUuid"@ ==> field(#[trigger] reparented(rec, to), k) == field(rec, k),
{
    crate::json::lemma_set_key_field(rec, "parentUuid"@, to, "parentUuid"@);
    assert forall|k: Seq<char>| k != "parentUuid"@ implies field(#[trigger] reparented(rec, to), k) == field(rec, k) by {
        crate::json::lemma_set_key_field(rec, "parentUuid"@, to, k);
    }
}

/// Deleting a message keeps the transcript chain connected. Of the lines
/// that remain (line `i` of the result was line `i` or `i + 1` before), a
/// record that named the deleted record (uuid `u`) as its parent now names
/// the deleted record's parent, with every other member unchanged, and is
/// written back as its JSON text; every other line is unchanged. So, unless
/// the deleted record was its own parent, no remaining record names it.
pub proof fn lemma_delete_keeps_chain(s: SessionV, k: int, u: Seq<char>)
    requires
        session_wf(s),
        0 <= k < s.messages.len(),
        str_field(s.messages[k].original, "uuid"@) == Some(u),
    ensures
        ({
            let d = after_delete(s, k);
            let l = s.messages[k].line_idx;
            let p = parent_of(s.messages[k].original);
            &&& d.raw_lines.len() == s.raw_lines.len() - 1
            &&& d.records.len() == d.raw_lines.len()
            &&& forall|i: int| 0 <= i < d.records.len() ==> {
                let o = if i < l { i } else { i + 1 };
                &&& links_to(s.raw_lines[o], s.records[o], u) ==> {
                    &&& #[trigger] d.records[i] == Some(reparented(s.records[o]->0, p))
                    &&& field(d.records[i]->0, "parentUuid"@) == Some(p)
                    &&& forall|key: Seq<char>| key != "parentUuid"@ ==> field(d.records[i]->0, key) == field(s.records[o]->0, key)
                    &&& d.raw_lines[i] == crate::json::json_text(reparented(s.records[o]->0, p))
                }
                &&& !links_to(s.raw_lines[o], s.records[o], u) ==> d.records[i] == s.records[o] && d.raw_lines[i]
                    == s.raw_lines[o]
                &&& p != JsonV::Str(u) ==> !links_to(d.raw_lines[i], d.records[i], u)
            }
        }),
{
    let d = after_delete(s, k);
    let l = s.messages[k].line_idx;
    let p = parent_of(s.messages[k].original);
    assert forall|i: int| 0 <= i < d.records.len() implies {
        let o = if i < l { i } else { i + 1 };
        &&& links_to(s.raw_lines[o], s.records[o], u) ==> {
            &&& #[trigger] d.records[i] == Some(reparented(s.records[o]->0, p))
            &&& field(d.records[i]->0, "parentUuid"@) == Some(p)
            &&& forall|key: Seq<char>| key != "parentUuid"@ ==> field(d.records[i]->0, key) == field(s.records[o]->0, key)
            &&& d.raw_lines[i] == crate::json::json_text(reparented(s.records[o]->0, p))
        }
        &&& !links_to(s.raw_lines[o], s.records[o], u) ==> d.records[i] == s.records[o] && d.raw_lines[i] == s.raw_lines[o]
        &&& p != JsonV::Str(u) ==> !links_to(d.raw_lines[i], d.records[i], u)
    } by {
        let o = if i < l { i } else { i + 1 };
        if links_to(s.raw_lines[o], s.records[o], u) {
            lemma_reparented_parent(s.records[o]->0, p);
        }
    }
}

/// Inserting an attachment below a message (uuid `u`) puts the new record
/// between that message and its children: the new record names `u` as its
/// parent, and every record that named `u` before (other than the message's
/// own) now names the new record, with its other members unchanged. Every
/// other line is unchanged; line `i` of the result was line `i` (above the
/// new line) or `i - 1` (below it).
pub proof fn lemma_insert_keeps_chain(s: SessionV, a: int, u: Seq<char>, uuid: Seq<char>, ts: Seq<char>)
    requires
        session_wf(s),
        0 <= a < s.messages.len(),
        str_field(s.messages[a].original, "uuid"@) == Some(u),
    ensures
        ({
            let d = after_insert(s, a, uuid, ts);
            let l = s.messages[a].line_idx;
            &&& d.raw_lines.len() == s.raw_lines.len() + 1
            &&& d.records[l + 1] is Some
            &&& str_field(d.records[l + 1]->0, "parentUuid"@) == Some(u)
            &&& str_field(d.records[l + 1]->0, "uuid"@) == Some(uuid)
            &&& str_field(d.records[l + 1]->0, "type"@) == Some("attachment"@)
            &&& d.raw_lines[l + 1] == crate::json::json_text(d.records[l + 1]->0)
            &&& d.messages[a + 1].line_idx == l + 1
            &&& forall|i: int| 0 <= i < d.records.len() && i != l + 1 ==> {
                let o = if i <= l { i } else { i - 1 };
                &&& (o != l && links_to(s.raw_lines[o], s.records[o], u)) ==> {
                    &&& #[trigger] d.records[i] == Some(reparented(s.records[o]->0, JsonV::Str(uuid)))
                    &&& str_field(d.records[i]->0, "parentUuid"@) == Some(uuid)
                    &&& forall|key: Seq<char>| key != "parentUuid"@ ==> field(d.records[i]->0, key) == field(s.records[o]->0, key)
                }
                &&& !(o != l && links_to(s.raw_lines[o], s.records[o], u)) ==> d.records[i] == s.records[o]
                    && d.raw_lines[i] == s.raw_lines[o]
            }
        }),
{
    let d = after_insert(s, a, uuid, ts);
    let l = s.messages[a].line_idx;
    let rec = new_attachment(Some(u), uuid, ts, s.messages[a].original);
    lemma_new_attachment_fields(u, uuid, ts, s.messages[a].original);
    assert(d.records[l + 1] == Some(rec));
    assert forall|i: int| 0 <= i < d.records.len() && i != l + 1 implies {
        let o = if i <= l { i } else { i - 1 };
        &&& (o != l && links_to(s.raw_lines[o], s.records[o], u)) ==> {
            &&& #[trigger] d.records[i] == Some(reparented(s.records[o]->0, JsonV::Str(uuid)))
            &&& str_field(d.records[i]->0, "parentUuid"@) == Some(uuid)
            &&& forall|key: Seq<char>| key != "parentUuid"@ ==> field(d.records[i]->0, key) == field(s.records[o]->0, key)
        }
        &&& !(o != l && links_to(s.raw_lines[o], s.records[o], u)) ==> d.records[i] == s.records[o] && d.raw_lines[i]
            == s.raw_lines[o]
    } by {
        let o = if i <= l { i } else { i - 1 };
        if o != l && links_to(s.raw_lines[o], s.records[o], u) {
            lemma_reparented_parent(s.records[o]->0, JsonV::Str(uuid));
        }
    }
}

/// A record re-pointed from `u` to `x` and back is the record it was.
proof fn lemma_reparent_back(rec: JsonV, u: Seq<char>, x: Seq<char>)
    requires
        str_field(rec, "parentUuid"@) == Some(u),
    ensures
        rec is Object,
        reparented(reparented(rec, JsonV::Str(x)), JsonV::Str(u)) == rec,
        str_field(reparented(rec, JsonV::Str(x)), "parentUuid"@) == Some(x),
        reparented(rec, JsonV::Str(x)) is Object,
{
    assert(field(rec, "parentUuid"@) == Some(JsonV::Str(u)));
    crate::json::lemma_set_key_restore(rec, "parentUuid"@, JsonV::Str(x));
    lemma_reparented_parent(rec, JsonV::Str(x));
}

/// Deleting the attachment just inserted below a message undoes the
/// insertion: every record and every message is as it was, and only the
/// lines of the records that were re-pointed to the new record and back
/// are now written as their records' JSON text. This holds for a new uuid
/// that differs from the message's own and that no record names as parent.
#[verifier::spinoff_prover]
#[verifier::rlimit(50)]
pub proof fn lemma_delete_undoes_insert(s: SessionV, a: int, u: Seq<char>, uuid: Seq<char>, ts: Seq<char>)
    requires
        session_wf(s),
        0 <= a < s.messages.len(),
        str_field(s.messages[a].original, "uuid"@) == Some(u),
        uuid != u,
        forall|i: int| 0 <= i < s.raw_lines.len() ==> !links_to(s.raw_lines[i], s.records[i], uuid),
        forall|i: int| 0 <= i < s.messages.len() ==> str_field(#[trigger] s.messages[i].original, "parentUuid"@) != Some(uuid),
    ensures
        ({
            let d = after_delete(after_insert(s, a, uuid, ts), a + 1);
            let l = s.messages[a].line_idx;
            &&& d.records == s.records
            &&& d.messages == s.messages
            &&& d.dirty
            &&& d.raw_lines == Seq::new(s.raw_lines.len(), |i: int|
                if i != l && links_to(s.raw_lines[i], s.records[i], u) {
                    crate::json::json_text(s.records[i]->0)
                } else {
                    s.raw_lines[i]
                })
        }),
{
    let m = s.messages[a];
    let l = m.line_idx;
    let r1 = relink(s, l, u, JsonV::Str(uuid));
    let rec = new_attachment(Some(u), uuid, ts, m.original);
    lemma_new_attachment_fields(u, uuid, ts, m.original);
    let ins = after_insert(s, a, uuid, ts);
    let nm = ins.messages[a + 1];
    assert(nm.original == rec);
    assert(nm.line_idx == l + 1);
    assert(field(rec, "parentUuid"@) == Some(JsonV::Str(u)));
    assert(parent_of(rec) == JsonV::Str(u));
    let r2 = relink(ins, l + 1, uuid, JsonV::Str(u));
    let d = after_delete(ins, a + 1);
    assert(d.raw_lines == r2.raw_lines.remove(l + 1));
    assert(d.records == r2.records.remove(l + 1));
    assert(d.messages == shifted_up(r2.messages, l + 1).remove(a + 1));
    let want = Seq::new(s.raw_lines.len(), |i: int|
        if i != l && links_to(s.raw_lines[i], s.records[i], u) {
            crate::json::json_text(s.records[i]->0)
        } else {
            s.raw_lines[i]
        });
    assert forall|i: int|
        #![trigger d.records[i]]
        #![trigger d.raw_lines[i]]
        0 <= i < s.raw_lines.len() implies d.records[i] == s.records[i] && d.raw_lines[i] == want[i] by {
        let j = if i <= l { i } else { i + 1 };
        assert(ins.records[j] == r1.records[i]);
        assert(ins.raw_lines[j] == r1.raw_lines[i]);
        if i != l && links_to(s.raw_lines[i], s.records[i], u) {
            let ri = s.records[i]->0;
            lemma_reparent_back(ri, u, uuid);
            lemma_json_text_not_blank(reparented(ri, JsonV::Str(uuid)));
            assert(links_to(ins.raw_lines[j], ins.records[j], uuid));
        } else {
            assert(!links_to(ins.raw_lines[j], ins.records[j], uuid));
        }
    }
    assert(r1.records.len() == s.records.len());
    assert(ins.records.len() == s.records.len() + 1);
    assert(r2.records.len() == ins.records.len());
    assert(d.records.len() == s.records.len());
    assert(d.records =~= s.records);
    assert(d.raw_lines =~= want);
    assert forall|i: int| #![trigger d.messages[i]] 0 <= i < s.messages.len() implies d.messages[i] == s.messages[i] by {
        let j = if i <= a { i } else { i + 1 };
        let mi = s.messages[i];
        let r1m = relinked_messages(s.messages, u, JsonV::Str(uuid));
        assert(ins.messages[j] == shifted_down(r1m, l + 1)[i]);
        if i < a {
            assert(mi.line_idx < l);
        } else if i > a {
            assert(mi.line_idx > l);
        }
        if str_field(mi.original, "parentUuid"@) == Some(u) {
            lemma_reparent_back(mi.original, u, uuid);
        }
        assert(str_field(mi.original, "parentUuid"@) != Some(uuid));
    }
    assert(d.messages =~= s.messages);
}

/// The fields a new attachment record is built with survive the members
/// copied from the sample afterwards.
proof fn lemma_new_attachment_fields(u: Seq<char>, uuid: Seq<char>, ts: Seq<char>, sample: JsonV)
    ensures
        str_field(new_attachment(Some(u), uuid, ts, sample), "parentUuid"@) == Some(u),
        str_field(new_attachment(Some(u), uuid, ts, sample), "uuid"@) == Some(uuid),
        str_field(new_attachment(Some(u), uuid, ts, sample), "type"@) == Some("attachment"@),
        new_attachment(Some(u), uuid, ts, sample) is Object,
{
    reveal_strlit("parentUuid");
    reveal_strlit("isSidechain");
    reveal_strlit("type");
    reveal_strlit("uuid");
    reveal_strlit("timestamp");
    reveal_strlit("rendered");
    reveal_strlit("sessionId");
    reveal_strlit("gitBranch");
    reveal_strlit("cwd");
    reveal_strlit("version");
    reveal_strlit("entrypoint");
    reveal_strlit("userType");
    let p = JsonV::Str(u);
    let b1 = crate::json::set_key(JsonV::Null, "parentUuid"@, p);
    let b2 = crate::json::set_key(b1, "isSidechain"@, JsonV::Bool(false));
    let b3 = crate::json::set_key(b2, "type"@, JsonV::Str("attachment"@));
    let b4 = crate::json::set_key(b3, "uuid"@, JsonV::Str(uuid));
    let b5 = crate::json::set_key(b4, "timestamp"@, JsonV::Str(ts));
    let b6 = crate::json::set_key(b5, "rendered"@, JsonV::Array(seq![JsonV::Object(seq![("content"@, JsonV::Str(Seq::empty()))])]));
    let c1 = copy_key(b6, sample, "sessionId"@);
    let c2 = copy_key(c1, sample, "gitBranch"@);
    let c3 = copy_key(c2, sample, "cwd"@);
    let c4 = copy_key(c3, sample, "version"@);
    let c5 = copy_key(c4, sample, "entrypoint"@);
    let c6 = copy_key(c5, sample, "userType"@);
    assert(c6 == new_attachment(Some(u), uuid, ts, sample));
    assert forall|t: Seq<char>| t == "parentUuid"@ || t == "uuid"@ || t == "type"@ implies field(c6, t) == field(b6, t) && c6 is Object by {
        lemma_copy_key_field(b6, sample, "sessionId"@, t);
        lemma_copy_key_field(c1, sample, "gitBranch"@, t);
        lemma_copy_key_field(c2, sample, "cwd"@, t);
        lemma_copy_key_field(c3, sample, "version"@, t);
        lemma_copy_key_field(c4, sample, "entrypoint"@, t);
        lemma_copy_key_field(c5, sample, "userType"@, t);
    }
    crate::json::lemma_set_key_field(JsonV::Null, "parentUuid"@, p, "parentUuid"@);
    crate::json::lemma_set_key_field(b1, "isSidechain"@, JsonV::Bool(false), "parentUuid"@);
    crate::json::lemma_set_key_field(b2, "type"@, JsonV::Str("attachment"@), "parentUuid"@);
    crate::json::lemma_set_key_field(b2, "type"@, JsonV::Str("attachment"@), "type"@);
    crate::json::lemma_set_key_field(b3, "uuid"@, JsonV::Str(uuid), "parentUuid"@);
    crate::json::lemma_set_key_field(b3, "uuid"@, JsonV::Str(uuid), "type"@);
    crate::json::lemma_set_key_field(b3, "uuid"@, JsonV::Str(uuid), "uuid"@);
    crate::json::lemma_set_key_field(b4, "timestamp"@, JsonV::Str(ts), "parentUuid"@);
    crate::json::lemma_set_key_field(b4, "timestamp"@, JsonV::Str(ts), "type"@);
    crate::json::lemma_set_key_field(b4, "timestamp"@, JsonV::Str(ts), "uuid"@);
    let arr = JsonV::Array(seq![JsonV::Object(seq![("content"@, JsonV::Str(Seq::empty()))])]);
    crate::json::lemma_set_key_field(b5, "rendered"@, arr, "parentUuid"@);
    crate::json::lemma_set_key_field(b5, "rendered"@, arr, "type"@);
    crate::json::lemma_set_key_field(b5, "rendered"@, arr, "uuid"@);
    assert(field(c6, "parentUuid"@) == field(b6, "parentUuid"@));
    assert(field(c6, "uuid"@) == field(b6, "uuid"@));
    assert(field(c6, "type"@) == field(b6, "type"@));
}

proof fn lemma_copy_key_field(acc: JsonV, sample: JsonV, key: Seq<char>, k: Seq<char>)
    requires
        acc is Object,
    ensures
        k != key ==> field(copy_key(acc, sample, key), k) == field(acc, k),
        copy_key(acc, sample, key) is Object,
{
    match field(sample, key) {
        Some(v) => {
            crate::json::lemma_set_key_field(acc, key, v, k);
        },
        None => {},
    }
}

// ---------- one record per line ----------

/// The file is still one record per line: no line holds a line feed, and
/// every record (on its line and in its message) has plain numbers.
pub open spec fn lines_intact(s: SessionV) -> bool {
    &&& forall|i: int| 0 <= i < s.raw_lines.len() ==> crate::lines::single_line(#[trigger] s.raw_lines[i])
    &&& forall|i: int| 0 <= i < s.records.len() && s.records[i] is Some ==> crate::json::plain_numbers(#[trigger] s.records[i]->0)
    &&& forall|i: int| 0 <= i < s.messages.len() ==> crate::json::plain_numbers(#[trigger] s.messages[i].original)
}

proof fn lemma_reparented_plain(rec: JsonV, to: JsonV)
    requires
        rec is Object,
        crate::json::plain_numbers(rec),
        crate::json::plain_numbers(to),
    ensures
        crate::json::plain_numbers(reparented(rec, to)),
        crate::lines::single_line(crate::json::json_text(reparented(rec, to))),
        reparented(rec, to) is Object,
{
    crate::json::lemma_set_key_plain(rec, "parentUuid"@, to);
    crate::json::lemma_json_text_single_line(reparented(rec, to));
}

proof fn lemma_relink_intact(s: SessionV, skip: int, from: Seq<char>, to: JsonV)
    requires
        s.records.len() == s.raw_lines.len(),
        lines_intact(s),
        crate::json::plain_numbers(to),
    ensures
        lines_intact(relink(s, skip, from, to)),
{
    let r = relink(s, skip, from, to);
    assert forall|i: int| 0 <= i < r.raw_lines.len() implies crate::lines::single_line(#[trigger] r.raw_lines[i]) by {
        if i != skip && links_to(s.raw_lines[i], s.records[i], from) {
            lemma_reparented_plain(s.records[i]->0, to);
        }
    }
    assert forall|i: int| 0 <= i < r.records.len() && r.records[i] is Some implies crate::json::plain_numbers(#[trigger] r.records[i]->0) by {
        if i != skip && links_to(s.raw_lines[i], s.records[i], from) {
            lemma_reparented_plain(s.records[i]->0, to);
        }
    }
    assert forall|i: int| 0 <= i < r.messages.len() implies crate::json::plain_numbers(#[trigger] r.messages[i].original) by {
        if str_field(s.messages[i].original, "parentUuid"@) == Some(from) {
            lemma_reparented_plain(s.messages[i].original, to);
        }
    }
}

proof fn lemma_content_with_text_plain(c: JsonV, new: Seq<char>)
    requires
        crate::json::plain_numbers(c),
    ensures
        crate::json::plain_numbers(content_with_text(c, new)),
{
    if let JsonV::Array(items) = c {
        crate::json::lemma_items_plain_iff(items);
        lemma_first_text_from(items, 0);
        match first_text_from(items, 0) {
            Some(k) => {
                crate::json::lemma_set_key_plain(items[k], "text"@, JsonV::Str(new));
                let u = items.update(k, crate::json::set_key(items[k], "text"@, JsonV::Str(new)));
                assert forall|i: int| 0 <= i < u.len() implies crate::json::plain_numbers(#[trigger] u[i]) by {
                    if i != k {
                        assert(u[i] == items[i]);
                    }
                }
                crate::json::lemma_items_plain_iff(u);
            },
            None => {
                let block = JsonV::Object(seq![("text"@, JsonV::Str(new)), ("type"@, JsonV::Str("text"@))]);
                crate::json::lemma_members_plain_iff(seq![("text"@, JsonV::Str(new)), ("type"@, JsonV::Str("text"@))]);
                let u = items.push(block);
                assert forall|i: int| 0 <= i < u.len() implies crate::json::plain_numbers(#[trigger] u[i]) by {
                    if i < items.len() {
                        assert(u[i] == items[i]);
                    }
                }
                crate::json::lemma_items_plain_iff(u);
            },
        }
    }
}

proof fn lemma_first_text_from(items: Seq<JsonV>, i: int)
    requires
        0 <= i,
    ensures
        first_text_from(items, i) matches Some(k) ==> i <= k < items.len() && str_field(items[k], "type"@) == Some("text"@)
            && items[k] is Object,
    decreases items.len() - i,
{
    if i < items.len() && str_field(items[i], "type"@) != Some("text"@) {
        lemma_first_text_from(items, i + 1);
    }
}

proof fn lemma_edited_record_plain(v: JsonV, role: Seq<char>, new: Seq<char>)
    requires
        v is Object,
        crate::json::plain_numbers(v),
    ensures
        crate::json::plain_numbers(edited_record(v, role, new)),
        edited_record(v, role, new) is Object,
{
    if role == "attachment"@ {
        let block = JsonV::Object(seq![("content"@, JsonV::Str(new))]);
        crate::json::lemma_members_plain_iff(seq![("content"@, JsonV::Str(new))]);
        crate::json::lemma_items_plain_iff(seq![block]);
        crate::json::lemma_set_key_plain(v, "rendered"@, JsonV::Array(seq![block]));
    } else {
        crate::json::lemma_field_plain(v, "message"@);
        match field(v, "message"@) {
            Some(m) => {
                crate::json::lemma_field_plain(m, "content"@);
                match field(m, "content"@) {
                    Some(c) => {
                        lemma_content_with_text_plain(c, new);
                        crate::json::lemma_set_key_plain(m, "content"@, content_with_text(c, new));
                        crate::json::lemma_set_key_plain(v, "message"@, crate::json::set_key(m, "content"@, content_with_text(c, new)));
                    },
                    None => {},
                }
            },
            None => {},
        }
    }
}

/// Committing an edit keeps the file one record per line.
pub proof fn lemma_edit_keeps_lines_intact(s: SessionV, k: int)
    requires
        session_wf(s),
        lines_intact(s),
        0 <= k < s.messages.len(),
    ensures
        lines_intact(after_edit(s, k)),
{
    let m = s.messages[k];
    let v = edited_record(m.original, m.role, m.edit_buf);
    lemma_edited_record_plain(m.original, m.role, m.edit_buf);
    crate::json::lemma_json_text_single_line(v);
    let e = after_edit(s, k);
    assert forall|i: int| 0 <= i < e.raw_lines.len() implies crate::lines::single_line(#[trigger] e.raw_lines[i]) by {
        if i != m.line_idx {
            assert(e.raw_lines[i] == s.raw_lines[i]);
        }
    }
    assert forall|i: int| 0 <= i < e.records.len() && e.records[i] is Some implies crate::json::plain_numbers(#[trigger] e.records[i]->0) by {
        if i != m.line_idx {
            assert(e.records[i] == s.records[i]);
        }
    }
    assert forall|i: int| 0 <= i < e.messages.len() implies crate::json::plain_numbers(#[trigger] e.messages[i].original) by {
        if i != k {
            assert(e.messages[i] == s.messages[i]);
        }
    }
}

/// Deleting a message keeps the file one record per line.
pub proof fn lemma_delete_keeps_lines_intact(s: SessionV, k: int)
    requires
        session_wf(s),
        lines_intact(s),
    ensures
        lines_intact(after_delete(s, k)),
{
    if 0 <= k < s.messages.len() {
        let m = s.messages[k];
        let l = m.line_idx;
        crate::json::lemma_field_plain(m.original, "parentUuid"@);
        let p = parent_of(m.original);
        let r = match str_field(m.original, "uuid"@) {
            Some(u) => relink(s, l, u, p),
            None => s,
        };
        if let Some(u) = str_field(m.original, "uuid"@) {
            lemma_relink_intact(s, l, u, p);
        }
        let d = after_delete(s, k);
        assert forall|i: int| 0 <= i < d.raw_lines.len() implies crate::lines::single_line(#[trigger] d.raw_lines[i]) by {
            let o = if i < l { i } else { i + 1 };
            assert(d.raw_lines[i] == r.raw_lines[o]);
        }
        assert forall|i: int| 0 <= i < d.records.len() && d.records[i] is Some implies crate::json::plain_numbers(#[trigger] d.records[i]->0) by {
            let o = if i < l { i } else { i + 1 };
            assert(d.records[i] == r.records[o]);
        }
        assert forall|i: int| 0 <= i < d.messages.len() implies crate::json::plain_numbers(#[trigger] d.messages[i].original) by {
            let o = if i < k { i } else { i + 1 };
            assert(d.messages[i].original == r.messages[o].original);
        }
    }
}

proof fn lemma_new_attachment_plain(parent: Option<Seq<char>>, uuid: Seq<char>, ts: Seq<char>, sample: JsonV)
    requires
        crate::json::plain_numbers(sample),
    ensures
        crate::json::plain_numbers(new_attachment(parent, uuid, ts, sample)),
        new_attachment(parent, uuid, ts, sample) is Object,
{
    let p = match parent {
        Some(u) => JsonV::Str(u),
        None => JsonV::Null,
    };
    let block = JsonV::Object(seq![("content"@, JsonV::Str(Seq::empty()))]);
    crate::json::lemma_members_plain_iff(seq![("content"@, JsonV::Str(Seq::empty()))]);
    crate::json::lemma_items_plain_iff(seq![block]);
    let b1 = crate::json::set_key(JsonV::Null, "parentUuid"@, p);
    crate::json::lemma_set_key_plain(JsonV::Null, "parentUuid"@, p);
    let b2 = crate::json::set_key(b1, "isSidechain"@, JsonV::Bool(false));
    crate::json::lemma_set_key_plain(b1, "isSidechain"@, JsonV::Bool(false));
    let b3 = crate::json::set_key(b2, "type"@, JsonV::Str("attachment"@));
    crate::json::lemma_set_key_plain(b2, "type"@, JsonV::Str("attachment"@));
    let b4 = crate::json::set_key(b3, "uuid"@, JsonV::Str(uuid));
    crate::json::lemma_set_key_plain(b3, "uuid"@, JsonV::Str(uuid));
    let b5 = crate::json::set_key(b4, "timestamp"@, JsonV::Str(ts));
    crate::json::lemma_set_key_plain(b4, "timestamp"@, JsonV::Str(ts));
    let base = crate::json::set_key(b5, "rendered"@, JsonV::Array(seq![block]));
    crate::json::lemma_set_key_plain(b5, "rendered"@, JsonV::Array(seq![block]));
    let c1 = copy_key(base, sample, "sessionId"@);
    lemma_copy_key_plain(base, sample, "sessionId"@);
    let c2 = copy_key(c1, sample, "gitBranch"@);
    lemma_copy_key_plain(c1, sample, "gitBranch"@);
    let c3 = copy_key(c2, sample, "cwd"@);
    lemma_copy_key_plain(c2, sample, "cwd"@);
    let c4 = copy_key(c3, sample, "version"@);
    lemma_copy_key_plain(c3, sample, "version"@);
    let c5 = copy_key(c4, sample, "entrypoint"@);
    lemma_copy_key_plain(c4, sample, "entrypoint"@);
    lemma_copy_key_plain(c5, sample, "userType"@);
}

proof fn lemma_copy_key_plain(acc: JsonV, sample: JsonV, key: Seq<char>)
    requires
        acc is Object,
        crate::json::plain_numbers(acc),
        crate::json::plain_numbers(sample),
    ensures
        crate::json::plain_numbers(copy_key(acc, sample, key)),
        copy_key(acc, sample, key) is Object,
{
    crate::json::lemma_field_plain(sample, key);
    if let Some(v) = field(sample, key) {
        crate::json::lemma_set_key_plain(acc, key, v);
    }
}

/// Inserting an attachment keeps the file one record per line.
pub proof fn lemma_insert_keeps_lines_intact(s: SessionV, a: int, uuid: Seq<char>, ts: Seq<char>)
    requires
        session_wf(s),
        lines_intact(s),
    ensures
        lines_intact(after_insert(s, a, uuid, ts)),
{
    if 0 <= a < s.messages.len() {
        let m = s.messages[a];
        let l = m.line_idx;
        let au = str_field(m.original, "uuid"@);
        let r = match au {
            Some(u) => relink(s, l, u, JsonV::Str(uuid)),
            None => s,
        };
        if let Some(u) = au {
            lemma_relink_intact(s, l, u, JsonV::Str(uuid));
        }
        let rec = new_attachment(au, uuid, ts, m.original);
        lemma_new_attachment_plain(au, uuid, ts, m.original);
        crate::json::lemma_json_text_single_line(rec);
        let d = after_insert(s, a, uuid, ts);
        assert forall|i: int| 0 <= i < d.raw_lines.len() implies crate::lines::single_line(#[trigger] d.raw_lines[i]) by {
            if i < l + 1 {
                assert(d.raw_lines[i] == r.raw_lines[i]);
            } else if i > l + 1 {
                assert(d.raw_lines[i] == r.raw_lines[i - 1]);
            }
        }
        assert forall|i: int| 0 <= i < d.records.len() && d.records[i] is Some implies crate::json::plain_numbers(#[trigger] d.records[i]->0) by {
            if i < l + 1 {
                assert(d.records[i] == r.records[i]);
            } else if i > l + 1 {
                assert(d.records[i] == r.records[i - 1]);
            }
        }
        assert forall|i: int| 0 <= i < d.messages.len() implies crate::json::plain_numbers(#[trigger] d.messages[i].original) by {
            if i < a + 1 {
                assert(d.messages[i].original == r.messages[i].original);
            } else if i > a + 1 {
                assert(d.messages[i].original == r.messages[i - 1].original);
            }
        }
    }
}

/// What is saved is what is read back: when the file is one record per
/// line, splitting the saved text (its lines joined by line feeds) gives the
/// session's lines again. (A session left with no line at all saves as the
/// empty file, which reads back as one empty line.)
pub proof fn lemma_saved_file_reads_back(s: SessionV)
    requires
        lines_intact(s),
        s.raw_lines.len() >= 1,
    ensures
        crate::sections::lines_from(crate::blocks::join_with(s.raw_lines, seq!['\n']), 0) == s.raw_lines,
{
    crate::lines::lemma_split_join(s.raw_lines);
}

// ---------- messages and their lines ----------

/// Every message's record is the one its line holds.
pub open spec fn messages_tied(s: SessionV) -> bool {
    forall|k: int| 0 <= k < s.messages.len() ==> s.records[(#[trigger] s.messages[k]).line_idx] == Some(s.messages[k].original)
}

/// In a well-formed session whose messages are tied to their lines, each
/// message's line reads as the message's record, or was written as that
/// record's JSON text.
pub proof fn lemma_message_lines(s: SessionV)
    requires
        session_wf(s),
        messages_tied(s),
    ensures
        forall|k: int| 0 <= k < s.messages.len() ==> {
            let m = #[trigger] s.messages[k];
            ||| crate::json::json_parse(s.raw_lines[m.line_idx]) == Some(m.original)
            ||| s.raw_lines[m.line_idx] == crate::json::json_text(m.original)
        },
{
    assert forall|k: int| 0 <= k < s.messages.len() implies {
        let m = #[trigger] s.messages[k];
        ||| crate::json::json_parse(s.raw_lines[m.line_idx]) == Some(m.original)
        ||| s.raw_lines[m.line_idx] == crate::json::json_text(m.original)
    } by {
        let m = s.messages[k];
        assert(line_holds(s.raw_lines[m.line_idx], s.records[m.line_idx]));
    }
}

/// Committing an edit keeps every message tied to its line.
pub proof fn lemma_edit_keeps_messages_tied(s: SessionV, k: int)
    requires
        session_wf(s),
        messages_tied(s),
        0 <= k < s.messages.len(),
    ensures
        messages_tied(after_edit(s, k)),
{
    let e = after_edit(s, k);
    let l = s.messages[k].line_idx;
    assert forall|j: int| 0 <= j < e.messages.len() implies e.records[(#[trigger] e.messages[j]).line_idx] == Some(e.messages[j].original) by {
        if j != k {
            assert(e.messages[j] == s.messages[j]);
            if j < k {
                assert(s.messages[j].line_idx < l);
            } else {
                assert(l < s.messages[j].line_idx);
            }
        }
    }
}

/// Deleting a message keeps every remaining message tied to its line: a
/// message whose record names the deleted one as parent is re-pointed the
/// same way as its line's record.
pub proof fn lemma_delete_keeps_messages_tied(s: SessionV, k: int)
    requires
        session_wf(s),
        messages_tied(s),
    ensures
        messages_tied(after_delete(s, k)),
{
    if 0 <= k < s.messages.len() {
        let m = s.messages[k];
        let l = m.line_idx;
        let p = parent_of(m.original);
        let r = match str_field(m.original, "uuid"@) {
            Some(u) => relink(s, l, u, p),
            None => s,
        };
        let d = after_delete(s, k);
        assert forall|j: int| 0 <= j < d.messages.len() implies d.records[(#[trigger] d.messages[j]).line_idx] == Some(d.messages[j].original) by {
            let o = if j < k { j } else { j + 1 };
            let mo = s.messages[o];
            if o < k {
                assert(mo.line_idx < l);
            } else {
                assert(l < mo.line_idx);
            }
            assert(s.records[mo.line_idx] == Some(mo.original));
            assert(!all_space(s.raw_lines[mo.line_idx]));
            assert(shifted_up(r.messages, l)[o].line_idx == (if r.messages[o].line_idx > l { r.messages[o].line_idx - 1 } else { r.messages[o].line_idx }));
            assert(d.messages[j] == shifted_up(r.messages, l)[o]);
        }
    }
}

/// Inserting an attachment keeps every message tied to its line, unless the
/// message below which it goes names itself as its parent.
pub proof fn lemma_insert_keeps_messages_tied(s: SessionV, a: int, uuid: Seq<char>, ts: Seq<char>)
    requires
        session_wf(s),
        messages_tied(s),
        0 <= a < s.messages.len(),
        str_field(s.messages[a].original, "uuid"@) is Some ==> str_field(s.messages[a].original, "parentUuid"@)
            != str_field(s.messages[a].original, "uuid"@),
    ensures
        messages_tied(after_insert(s, a, uuid, ts)),
{
    let m = s.messages[a];
    let l = m.line_idx;
    let au = str_field(m.original, "uuid"@);
    let r = match au {
        Some(u) => relink(s, l, u, JsonV::Str(uuid)),
        None => s,
    };
    let d = after_insert(s, a, uuid, ts);
    assert forall|j: int| 0 <= j < d.messages.len() implies d.records[(#[trigger] d.messages[j]).line_idx] == Some(d.messages[j].original) by {
        if j != a + 1 {
            let o = if j <= a { j } else { j - 1 };
            let mo = s.messages[o];
            if o < a {
                assert(mo.line_idx < l);
            } else if o > a {
                assert(l < mo.line_idx);
            }
            assert(s.records[mo.line_idx] == Some(mo.original));
            assert(!all_space(s.raw_lines[mo.line_idx]));
            assert(d.messages[j] == shifted_down(r.messages, l + 1)[o]);
        }
    }
}

/// After a delete, every remaining message sits on a line of the file, and
/// that line reads as the message's record or was written as that record's
/// JSON text (what serde_json reads back from a line this library wrote is
/// not stated).
pub proof fn lemma_delete_keeps_message_lines(s: SessionV, k: int)
    requires
        session_wf(s),
        messages_tied(s),
    ensures
        ({
            let d = after_delete(s, k);
            forall|j: int| 0 <= j < d.messages.len() ==> {
                let m = #[trigger] d.messages[j];
                &&& 0 <= m.line_idx < d.raw_lines.len()
                &&& (crate::json::json_parse(d.raw_lines[m.line_idx]) == Some(m.original)
                    || d.raw_lines[m.line_idx] == crate::json::json_text(m.original))
            }
        }),
{
    lemma_delete_keeps_messages_tied(s, k);
    let d = after_delete(s, k);
    if 0 <= k < s.messages.len() {
        let m = s.messages[k];
        let l = m.line_idx;
        let p = parent_of(m.original);
        let r = match str_field(m.original, "uuid"@) {
            Some(u) => relink(s, l, u, p),
            None => s,
        };
        assert forall|i: int| 0 <= i < d.raw_lines.len() implies line_holds(#[trigger] d.raw_lines[i], d.records[i]) by {
            let o = if i < l { i } else { i + 1 };
            assert(d.raw_lines[i] == r.raw_lines[o]);
            assert(d.records[i] == r.records[o]);
            assert(line_holds(s.raw_lines[o], s.records[o]));
        }
        assert forall|j: int| 0 <= j < d.messages.len() implies {
            let mm = #[trigger] d.messages[j];
            &&& 0 <= mm.line_idx < d.raw_lines.len()
            &&& (crate::json::json_parse(d.raw_lines[mm.line_idx]) == Some(mm.original)
                || d.raw_lines[mm.line_idx] == crate::json::json_text(mm.original))
        } by {
            let o = if j < k { j } else { j + 1 };
            let mo = s.messages[o];
            if o < k {
                assert(mo.line_idx < l);
            } else {
                assert(l < mo.line_idx);
            }
            assert(d.messages[j] == shifted_up(r.messages, l)[o]);
            let mm = d.messages[j];
            assert(line_holds(d.raw_lines[mm.line_idx], d.records[mm.line_idx]));
        }
    }
}

// ---------- which lines show a message ----------

/// A line that must show a message: a non-blank line holding an assistant
/// record (whatever its content), or a user record with text or tool lines.
pub open spec fn shows_message(line: Seq<char>, rec: Option<JsonV>) -> bool {
    rec matches Some(v) && !all_space(line) && {
        ||| str_field(v, "type"@) == Some("assistant"@)
        ||| str_field(v, "type"@) == Some("user"@) && (!all_space(content_parts(message_content(v)).0)
            || content_parts(message_content(v)).2.len() > 0)
    }
}

proof fn lemma_message_kept(lines: Seq<Seq<char>>, recs: Seq<Option<JsonV>>, i: int, n: int)
    requires
        lines.len() == recs.len(),
        0 <= i < n <= lines.len(),
        shows_message(lines[i], recs[i]),
    ensures
        exists|k: int| 0 <= k < messages_of(lines, recs, n).len() && {
            let m = #[trigger] messages_of(lines, recs, n)[k];
            &&& m.line_idx == i
            &&& Some(m.original) == recs[i]
            &&& Some(m.role) == str_field(recs[i]->0, "type"@)
            &&& m.display_text == content_parts(message_content(recs[i]->0)).0
            &&& m.thinking_text == content_parts(message_content(recs[i]->0)).1
            &&& m.tool_lines == content_parts(message_content(recs[i]->0)).2
        },
    decreases n,
{
    reveal_strlit("user");
    reveal_strlit("assistant");
    reveal_strlit("attachment");
    let v = recs[i]->0;
    let prev = messages_of(lines, recs, n - 1);
    if n - 1 == i {
        assert(record_type(v) == str_field(v, "type"@)->0);
        let m = message_at(i, lines[i], recs[i])->0;
        assert(message_at(i, lines[i], recs[i]) is Some);
        assert(messages_of(lines, recs, n) == prev.push(m));
        let k = prev.len() as int;
        assert(messages_of(lines, recs, n)[k] == m);
    } else {
        lemma_message_kept(lines, recs, i, n - 1);
        let k = choose|k: int| 0 <= k < prev.len() && {
            let m = #[trigger] prev[k];
            &&& m.line_idx == i
            &&& Some(m.original) == recs[i]
            &&& Some(m.role) == str_field(recs[i]->0, "type"@)
            &&& m.display_text == content_parts(message_content(recs[i]->0)).0
            &&& m.thinking_text == content_parts(message_content(recs[i]->0)).1
            &&& m.tool_lines == content_parts(message_content(recs[i]->0)).2
        };
        match message_at(n - 1, lines[n - 1], recs[n - 1]) {
            Some(x) => {
                assert(messages_of(lines, recs, n) == prev.push(x));
                assert(messages_of(lines, recs, n)[k] == prev[k]);
            },
            None => {},
        }
    }
}

/// Every line that must show a message does: an assistant record on a
/// non-blank line is never left out (even with no text, say only
/// thinking), and neither is a user record with text or tool lines. Its
/// message carries the record, its type as role, and the record's text,
/// thinking and tool lines.
pub proof fn lemma_lines_show_messages(lines: Seq<Seq<char>>, recs: Seq<Option<JsonV>>, i: int)
    requires
        lines.len() == recs.len(),
        0 <= i < lines.len(),
        shows_message(lines[i], recs[i]),
    ensures
        exists|k: int| 0 <= k < messages_of(lines, recs, lines.len() as int).len() && {
            let m = #[trigger] messages_of(lines, recs, lines.len() as int)[k];
            &&& m.line_idx == i
            &&& Some(m.original) == recs[i]
            &&& Some(m.role) == str_field(recs[i]->0, "type"@)
            &&& m.display_text == content_parts(message_content(recs[i]->0)).0
            &&& m.thinking_text == content_parts(message_content(recs[i]->0)).1
            &&& m.tool_lines == content_parts(message_content(recs[i]->0)).2
        },
{
    lemma_message_kept(lines, recs, i, lines.len() as int);
}

} // verus!
