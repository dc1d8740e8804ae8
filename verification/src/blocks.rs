//! What a record's message content shows: its text, its thinking, and one
//! summary line per tool call or tool result.

use vstd::prelude::*;
use crate::json::{Json, JsonV, field, str_field, json_text, items_view, lemma_items_view, same_text, write_json};
use crate::text::{truncated, one_line, push_str, push_range, string_from_chars, truncate_vec, chars_of};

verus! {

/// Parts joined the way the viewer joins message blocks: a blank line
/// (`"\n\n"`) goes between a part and the text before it, unless that text
/// is still empty.
pub open spec fn join_parts(parts: Seq<Seq<char>>) -> Seq<char>
    decreases parts.len(),
{
    if parts.len() == 0 {
        Seq::empty()
    } else {
        let acc = join_parts(parts.drop_last());
        if acc.len() == 0 {
            parts.last()
        } else {
            acc + seq!['\n', '\n'] + parts.last()
        }
    }
}

/// `parts` joined with `sep` between neighbours (`[T]::join`).
pub open spec fn join_with(parts: Seq<Seq<char>>, sep: Seq<char>) -> Seq<char>
    decreases parts.len(),
{
    if parts.len() == 0 {
        Seq::empty()
    } else if parts.len() == 1 {
        parts[0]
    } else {
        join_with(parts.drop_last(), sep) + sep + parts.last()
    }
}

/// The string field `key` of the blocks of `items` whose `type` is `kind`,
/// in order (blocks of that kind without such a string are skipped).
pub open spec fn typed_strings(items: Seq<JsonV>, kind: Seq<char>, key: Seq<char>) -> Seq<Seq<char>>
    decreases items.len(),
{
    if items.len() == 0 {
        Seq::empty()
    } else {
        let rest = typed_strings(items.drop_last(), kind, key);
        let b = items.last();
        if str_field(b, "type"@) == Some(kind) && str_field(b, key) is Some {
            rest.push(str_field(b, key)->0)
        } else {
            rest
        }
    }
}

/// The string `key` of each of `items` that has one, in order.
pub open spec fn strings_of(items: Seq<JsonV>, key: Seq<char>) -> Seq<Seq<char>>
    decreases items.len(),
{
    if items.len() == 0 {
        Seq::empty()
    } else {
        let rest = strings_of(items.drop_last(), key);
        if str_field(items.last(), key) is Some {
            rest.push(str_field(items.last(), key)->0)
        } else {
            rest
        }
    }
}

/// One-line preview of a text: line feeds become spaces, cut to 200 characters.
pub open spec fn preview(s: Seq<char>) -> Seq<char> {
    truncated(one_line(s), 200)
}

/// Summary of a tool result's `content`: the preview of a string, the
/// previews of the text parts of a list joined by ` | `, or `[result]`.
pub open spec fn result_summary(content: Option<JsonV>) -> Seq<char> {
    match content {
        Some(JsonV::Str(s)) => preview(s),
        Some(JsonV::Array(parts)) => join_with(strings_of(parts, "text"@).map_values(|p: Seq<char>| preview(p)), " | "@),
        _ => "[result]"@,
    }
}

/// The line a block adds to the tool list: `→ name  input` for a tool call
/// (input as compact JSON cut to 240 characters), `← summary` for a tool
/// result; nothing for other blocks.
pub open spec fn tool_line(b: JsonV) -> Option<Seq<char>> {
    if str_field(b, "type"@) == Some("tool_use"@) {
        let name = match str_field(b, "name"@) {
            Some(n) => n,
            None => "tool"@,
        };
        let input = match field(b, "input"@) {
            Some(v) => truncated(json_text(v), 240),
            None => Seq::empty(),
        };
        Some("→ "@ + name + "  "@ + input)
    } else if str_field(b, "type"@) == Some("tool_result"@) {
        Some("← "@ + result_summary(field(b, "content"@)))
    } else {
        None
    }
}

pub open spec fn tool_lines(items: Seq<JsonV>) -> Seq<Seq<char>>
    decreases items.len(),
{
    if items.len() == 0 {
        Seq::empty()
    } else {
        let rest = tool_lines(items.drop_last());
        match tool_line(items.last()) {
            Some(l) => rest.push(l),
            None => rest,
        }
    }
}

/// (text, thinking, tool lines) of a message's `content`: a string is all
/// text; a list contributes its `text` blocks, its `thinking` blocks and its
/// tool blocks; anything else contributes nothing.
pub open spec fn content_parts(content: JsonV) -> (Seq<char>, Seq<char>, Seq<Seq<char>>) {
    match content {
        JsonV::Str(s) => (s, Seq::empty(), Seq::empty()),
        JsonV::Array(items) => (
            join_parts(typed_strings(items, "text"@, "text"@)),
            join_parts(typed_strings(items, "thinking"@, "thinking"@)),
            tool_lines(items),
        ),
        _ => (Seq::empty(), Seq::empty(), Seq::empty()),
    }
}

pub open spec fn strings_view(v: Seq<String>) -> Seq<Seq<char>> {
    v.map_values(|s: String| s@)
}

/// Appends `part` to `acc` the way `join_parts` joins.
fn join_onto(acc: &mut Vec<char>, part: &str)
    ensures
        final(acc)@ == (if old(acc)@.len() == 0 { part@ } else { old(acc)@ + seq!['\n', '\n'] + part@ }),
{
    if acc.len() > 0 {
        acc.push('\n');
        acc.push('\n');
    }
    push_str(acc, part);
    assert(acc@ =~= (if old(acc)@.len() == 0 { part@ } else { old(acc)@ + seq!['\n', '\n'] + part@ }));
}

/// Previews of the `text` strings of `parts`, joined by ` | `.
fn joined_previews(parts: &Vec<Json>) -> (r: Vec<char>)
    ensures
        r@ == join_with(strings_of(items_view(parts@), "text"@).map_values(|p: Seq<char>| preview(p)), " | "@),
{
    let ghost iv = items_view(parts@);
    proof {
        lemma_items_view(parts@);
    }
    let mut out: Vec<char> = Vec::new();
    let mut count: usize = 0;
    let mut i: usize = 0;
    while i < parts.len()
        invariant
            i <= parts.len(),
            iv == items_view(parts@),
            iv.len() == parts.len(),
            forall|k: int| 0 <= k < parts.len() ==> #[trigger] iv[k] == parts@[k]@,
            count == strings_of(iv.take(i as int), "text"@).len(),
            count <= i,
            out@ == join_with(strings_of(iv.take(i as int), "text"@).map_values(|p: Seq<char>| preview(p)), " | "@),
        decreases parts.len() - i,
    {
        let ghost prev = strings_of(iv.take(i as int), "text"@);
        proof {
            assert(iv.take(i + 1).drop_last() =~= iv.take(i as int));
            assert(iv.take(i + 1).last() == iv[i as int]);
        }
        match parts[i].get_str("text") {
            Some(s) => {
                let cs = chars_of(s.as_str());
                let mut flat: Vec<char> = Vec::new();
                let mut k: usize = 0;
                while k < cs.len()
                    invariant
                        k <= cs.len(),
                        flat@ == one_line(cs@.take(k as int)),
                    decreases cs.len() - k,
                {
                    let c = cs[k];
                    flat.push(if c == '\n' { ' ' } else { c });
                    k = k + 1;
                    assert(one_line(cs@.take(k as int)) =~= one_line(cs@.take(k - 1)).push(
                        if c == '\n' { ' ' } else { c },
                    ));
                }
                assert(cs@.take(cs.len() as int) =~= cs@);
                let p = truncate_vec(&flat, 200);
                let ghost now = prev.push(s@);
                proof {
                    assert(strings_of(iv.take(i + 1), "text"@) == now);
                    assert(now.map_values(|p: Seq<char>| preview(p)) =~= prev.map_values(|p: Seq<char>| preview(p)).push(preview(s@)));
                    assert(now.map_values(|p: Seq<char>| preview(p)).drop_last() =~= prev.map_values(|p: Seq<char>| preview(p)));
                }
                if count > 0 {
                    push_str(&mut out, " | ");
                }
                let ghost before = out@;
                push_range(&mut out, &p, 0, p.len());
                assert(p@.subrange(0, p.len() as int) =~= p@);
                proof {
                    if count == 0 {
                        assert(prev.len() == 0);
                        assert(out@ =~= preview(s@));
                    }
                }
                count = count + 1;
            },
            None => {
                assert(strings_of(iv.take(i + 1), "text"@) == prev);
            },
        }
        i = i + 1;
    }
    assert(iv.take(parts.len() as int) =~= iv);
    out
}

/// The summary line of one block, if it has one.
fn block_tool_line(b: &Json) -> (r: Option<String>)
    ensures
        r matches Some(s) ==> tool_line(b@) == Some(s@),
        r is None ==> tool_line(b@) is None,
{
    let kind = b.get_str("type");
    let is_use = match kind {
        Some(t) => same_text(t.as_str(), "tool_use"),
        None => false,
    };
    let is_result = match kind {
        Some(t) => same_text(t.as_str(), "tool_result"),
        None => false,
    };
    if is_use {
        let mut line: Vec<char> = Vec::new();
        push_str(&mut line, "→ ");
        match b.get_str("name") {
            Some(n) => push_str(&mut line, n.as_str()),
            None => push_str(&mut line, "tool"),
        }
        push_str(&mut line, "  ");
        match b.get("input") {
            Some(v) => {
                let mut text: Vec<char> = Vec::new();
                write_json(&mut text, v);
                let short = truncate_vec(&text, 240);
                push_range(&mut line, &short, 0, short.len());
                assert(short@.subrange(0, short.len() as int) =~= short@);
            },
            None => {},
        }
        assert(line@ =~= tool_line(b@)->0);
        Some(string_from_chars(&line))
    } else if is_result {
        let mut line: Vec<char> = Vec::new();
        push_str(&mut line, "← ");
        match b.get("content") {
            Some(Json::Str(s)) => {
                let p = crate::text::summarize(s.as_str());
                push_str(&mut line, p.as_str());
            },
            Some(Json::Array(parts)) => {
                let j = joined_previews(parts);
                push_range(&mut line, &j, 0, j.len());
                assert(j@.subrange(0, j.len() as int) =~= j@);
            },
            _ => {
                push_str(&mut line, "[result]");
            },
        }
        assert(line@ =~= tool_line(b@)->0);
        Some(string_from_chars(&line))
    } else {
        None
    }
}

/// Text, thinking and tool summary lines of a message's `content`.
pub fn extract_blocks(content: &Json) -> (r: (String, String, Vec<String>))
    ensures
        r.0@ == content_parts(content@).0,
        r.1@ == content_parts(content@).1,
        strings_view(r.2@) == content_parts(content@).2,
{
    match content {
        Json::Str(s) => {
            let t = s.clone();
            let e: Vec<String> = Vec::new();
            assert(strings_view(e@) =~= Seq::<Seq<char>>::empty());
            (t, String::new(), e)
        },
        Json::Array(items) => {
            let ghost iv = items_view(items@);
            proof {
                lemma_items_view(items@);
            }
            let mut text: Vec<char> = Vec::new();
            let mut thinking: Vec<char> = Vec::new();
            let mut tools: Vec<String> = Vec::new();
            let mut i: usize = 0;
            while i < items.len()
                invariant
                    i <= items.len(),
                    iv == items_view(items@),
                    iv.len() == items.len(),
                    *content == Json::Array(*items),
                    forall|k: int| 0 <= k < items.len() ==> #[trigger] iv[k] == items@[k]@,
                    text@ == join_parts(typed_strings(iv.take(i as int), "text"@, "text"@)),
                    thinking@ == join_parts(typed_strings(iv.take(i as int), "thinking"@, "thinking"@)),
                    strings_view(tools@) == tool_lines(iv.take(i as int)),
                decreases items.len() - i,
            {
                let b = &items[i];
                proof {
                    assert(iv.take(i + 1).drop_last() =~= iv.take(i as int));
                    assert(iv.take(i + 1).last() == b@);
                }
                let kind = b.get_str("type");
                let is_text = match kind {
                    Some(t) => same_text(t.as_str(), "text"),
                    None => false,
                };
                let is_thinking = match kind {
                    Some(t) => same_text(t.as_str(), "thinking"),
                    None => false,
                };
                let ghost tparts = typed_strings(iv.take(i as int), "text"@, "text"@);
                let ghost hparts = typed_strings(iv.take(i as int), "thinking"@, "thinking"@);
                if is_text {
                    match b.get_str("text") {
                        Some(s) => {
                            join_onto(&mut text, s.as_str());
                            assert(tparts.push(s@).drop_last() =~= tparts);
                        },
                        None => {},
                    }
                }
                if is_thinking {
                    match b.get_str("thinking") {
                        Some(s) => {
                            join_onto(&mut thinking, s.as_str());
                            assert(hparts.push(s@).drop_last() =~= hparts);
                        },
                        None => {},
                    }
                }
                let ghost before = strings_view(tools@);
                match block_tool_line(b) {
                    Some(l) => {
                        tools.push(l);
                        assert(strings_view(tools@) =~= before.push(tool_line(b@)->0));
                    },
                    None => {},
                }
                proof {
                    reveal_strlit("text");
                    reveal_strlit("thinking");
                    assert("text"@.len() != "thinking"@.len());
                }
                i = i + 1;
            }
            assert(iv.take(items.len() as int) =~= iv);
            (string_from_chars(&text), string_from_chars(&thinking), tools)
        },
        _ => {
            let e: Vec<String> = Vec::new();
            assert(strings_view(e@) =~= Seq::<Seq<char>>::empty());
            (String::new(), String::new(), e)
        },
    }
}

/// Text that an attachment record shows: the `content` strings of the
/// entries of its `rendered` list, joined like message blocks.
pub open spec fn attachment_text(record: JsonV) -> Seq<char> {
    match field(record, "rendered"@) {
        Some(JsonV::Array(items)) => join_parts(strings_of(items, "content"@)),
        _ => Seq::empty(),
    }
}

pub fn rendered_text(record: &Json) -> (r: String)
    ensures
        r@ == attachment_text(record@),
{
    match record.get("rendered") {
        Some(Json::Array(items)) => {
            let ghost iv = items_view(items@);
            proof {
                lemma_items_view(items@);
            }
            let mut text: Vec<char> = Vec::new();
            let mut i: usize = 0;
            while i < items.len()
                invariant
                    i <= items.len(),
                    iv == items_view(items@),
                    iv.len() == items.len(),
                    forall|k: int| 0 <= k < items.len() ==> #[trigger] iv[k] == items@[k]@,
                    text@ == join_parts(strings_of(iv.take(i as int), "content"@)),
                decreases items.len() - i,
            {
                proof {
                    assert(iv.take(i + 1).drop_last() =~= iv.take(i as int));
                    assert(iv.take(i + 1).last() == items@[i as int]@);
                }
                let ghost parts = strings_of(iv.take(i as int), "content"@);
                match items[i].get_str("content") {
                    Some(s) => {
                        join_onto(&mut text, s.as_str());
                        assert(parts.push(s@).drop_last() =~= parts);
                    },
                    None => {},
                }
                i = i + 1;
            }
            assert(iv.take(items.len() as int) =~= iv);
            string_from_chars(&text)
        },
        _ => String::new(),
    }
}

} // verus!
