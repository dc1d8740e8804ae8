//! Splitting message text into plain runs and the kebab-case XML-like
//! blocks that chat transcripts embed (`<system-reminder>...</system-reminder>`,
//! `<command-name>...</command-name>`, ...), which the viewer shows as
//! blocks of their own.

use vstd::prelude::*;
use crate::text::{push_range, string_of_range, chars_of};

verus! {

/// A run of message text: ordinary text, or a block wrapped in a tag whose
/// name holds a `-`.
pub enum InlineSection {
    Plain(String),
    Hidden { name: String, content: String },
}

/// `InlineSection` with its strings as character sequences.
pub enum Section {
    Plain(Seq<char>),
    Hidden(Seq<char>, Seq<char>),
}

impl View for InlineSection {
    type V = Section;

    open spec fn view(&self) -> Section {
        match self {
            InlineSection::Plain(s) => Section::Plain(s@),
            InlineSection::Hidden { name, content } => Section::Hidden(name@, content@),
        }
    }
}

/// Characters allowed in a tag name.
pub open spec fn is_name_char(c: char) -> bool {
    ('a' <= c && c <= 'z') || ('A' <= c && c <= 'Z') || ('0' <= c && c <= '9') || c == '-' || c == '_'
}

pub open spec fn is_ascii_letter(c: char) -> bool {
    ('a' <= c && c <= 'z') || ('A' <= c && c <= 'Z')
}

/// First index at or after `from` holding `c`.
pub open spec fn find_char(t: Seq<char>, c: char, from: int) -> Option<int>
    decreases t.len() - from,
{
    if from >= t.len() {
        None
    } else if t[from] == c {
        Some(from)
    } else {
        find_char(t, c, from + 1)
    }
}

/// First index at or after `from` where `pat` occurs in `t`.
pub open spec fn find_seq(t: Seq<char>, pat: Seq<char>, from: int) -> Option<int>
    decreases t.len() + 1 - from,
{
    if from + pat.len() > t.len() || from < 0 {
        None
    } else if t.subrange(from, from + pat.len()) == pat {
        Some(from)
    } else {
        find_seq(t, pat, from + 1)
    }
}

/// End of the run of name characters starting at `i` (the index of the
/// first character that is not a name character, or the end).
pub open spec fn name_scan(t: Seq<char>, i: int) -> int
    decreases t.len() - i,
{
    if i >= t.len() || i < 0 {
        t.len() as int
    } else if !is_name_char(t[i]) {
        i
    } else {
        name_scan(t, i + 1)
    }
}

/// An opening tag starts at `open` (which holds `<`): name characters up to a
/// `>`, at least one of them, the first an ASCII letter, one of them `-`.
pub open spec fn opening_tag_at(t: Seq<char>, open: int) -> bool {
    let k = name_scan(t, open + 1);
    &&& 0 <= open
    &&& k < t.len()
    &&& t[k] == '>'
    &&& k > open + 1
    &&& is_ascii_letter(t[open + 1])
    &&& t.subrange(open + 1, k).contains('-')
}

/// Name of the tag opened at `open`.
pub open spec fn tag_name(t: Seq<char>, open: int) -> Seq<char> {
    t.subrange(open + 1, name_scan(t, open + 1))
}

/// `</name>`.
pub open spec fn closing_tag(name: Seq<char>) -> Seq<char> {
    seq!['<', '/'] + name + seq!['>']
}

/// The pieces of `t[cursor..]`, before neighbouring plain pieces are merged:
/// text up to the next `<` that opens a tag with a matching closing tag,
/// then that block; a `<` that opens no such block stays in the plain text.
pub open spec fn split_pieces(t: Seq<char>, cursor: int) -> Seq<Section>
    decreases t.len() - cursor,
{
    if cursor < 0 || cursor >= t.len() {
        Seq::empty()
    } else {
        match find_char(t, '<', cursor) {
            None => seq![Section::Plain(t.subrange(cursor, t.len() as int))],
            Some(open) => {
                proof {
                    lemma_find_char_spec(t, '<', cursor);
                }
                let content_start = name_scan(t, open + 1) + 1;
                let close = closing_tag(tag_name(t, open));
                if opening_tag_at(t, open) && find_seq(t, close, content_start) is Some {
                    let content_end = find_seq(t, close, content_start)->0;
                    proof {
                        lemma_name_scan_bound(t, open + 1);
                        lemma_find_seq_spec(t, close, content_start);
                    }
                    seq![
                        Section::Plain(t.subrange(cursor, open)),
                        Section::Hidden(tag_name(t, open), t.subrange(content_start, content_end)),
                    ] + split_pieces(t, content_end + close.len())
                } else {
                    seq![Section::Plain(t.subrange(cursor, open + 1))] + split_pieces(t, open + 1)
                }
            },
        }
    }
}

/// Adds a piece to a list of sections: an empty plain piece is dropped, a
/// plain piece after a plain section is joined to it.
pub open spec fn push_piece(out: Seq<Section>, p: Section) -> Seq<Section> {
    match p {
        Section::Plain(s) => {
            if s.len() == 0 {
                out
            } else if out.len() > 0 && out.last() is Plain {
                out.drop_last().push(Section::Plain(out.last()->Plain_0 + s))
            } else {
                out.push(p)
            }
        },
        Section::Hidden(_, _) => out.push(p),
    }
}

/// `push_piece` of each of `ps` in turn onto `out`.
pub open spec fn merge_into(out: Seq<Section>, ps: Seq<Section>) -> Seq<Section>
    decreases ps.len(),
{
    if ps.len() == 0 {
        out
    } else {
        merge_into(push_piece(out, ps[0]), ps.drop_first())
    }
}

/// The sections of `t`.
pub open spec fn inline_sections(t: Seq<char>) -> Seq<Section> {
    merge_into(Seq::empty(), split_pieces(t, 0))
}

// ---------- laws ----------

/// The text a section stands for: a block is its tags around its content.
pub open spec fn section_text(s: Section) -> Seq<char> {
    match s {
        Section::Plain(p) => p,
        Section::Hidden(name, content) => seq!['<'] + name + seq!['>'] + content + closing_tag(name),
    }
}

/// The texts of `ss`, one after another.
pub open spec fn sections_text(ss: Seq<Section>) -> Seq<char>
    decreases ss.len(),
{
    if ss.len() == 0 {
        Seq::empty()
    } else {
        sections_text(ss.drop_last()) + section_text(ss.last())
    }
}

/// A block is named by a tag name (a non-empty run of name characters, the
/// first an ASCII letter, one of them `-`) and its content does not hold
/// its closing tag.
pub open spec fn block_ok(s: Section) -> bool {
    match s {
        Section::Hidden(name, content) => {
            &&& name.len() > 0
            &&& is_ascii_letter(name[0])
            &&& forall|j: int| 0 <= j < name.len() ==> is_name_char(#[trigger] name[j])
            &&& name.contains('-')
            &&& forall|q: int| 0 <= q && q + closing_tag(name).len() <= content.len()
                ==> #[trigger] content.subrange(q, q + closing_tag(name).len()) != closing_tag(name)
        },
        Section::Plain(_) => true,
    }
}

/// No plain section is empty, no two plain sections are neighbours, and
/// every block is well named and does not hold its closing tag (`block_ok`).
pub open spec fn sections_well_formed(ss: Seq<Section>) -> bool {
    &&& forall|i: int| 0 <= i < ss.len() && (#[trigger] ss[i]) is Plain ==> ss[i]->Plain_0.len() > 0
    &&& forall|i: int| 0 <= i < ss.len() - 1 && (#[trigger] ss[i]) is Plain ==> !(ss[i + 1] is Plain)
    &&& forall|i: int| 0 <= i < ss.len() && (#[trigger] ss[i]) is Hidden ==> block_ok(ss[i])
}

pub proof fn lemma_find_char_spec(t: Seq<char>, c: char, from: int)
    requires
        0 <= from,
    ensures
        find_char(t, c, from) matches Some(k) ==> from <= k < t.len() && t[k] == c,
    decreases t.len() - from,
{
    if from < t.len() && t[from] != c {
        lemma_find_char_spec(t, c, from + 1);
    }
}

pub proof fn lemma_find_seq_spec(t: Seq<char>, pat: Seq<char>, from: int)
    ensures
        find_seq(t, pat, from) matches Some(k) ==> from <= k && k + pat.len() <= t.len() && 0 <= k
            && t.subrange(k, k + pat.len()) == pat,
    decreases t.len() + 1 - from,
{
    if !(from + pat.len() > t.len() || from < 0) && t.subrange(from, from + pat.len()) != pat {
        lemma_find_seq_spec(t, pat, from + 1);
    }
}

proof fn lemma_find_seq_first(t: Seq<char>, pat: Seq<char>, from: int)
    requires
        0 <= from,
    ensures
        find_seq(t, pat, from) matches Some(e) ==> forall|p: int| from <= p < e ==> #[trigger] t.subrange(p, p + pat.len()) != pat,
    decreases t.len() + 1 - from,
{
    if !(from + pat.len() > t.len()) && t.subrange(from, from + pat.len()) != pat {
        lemma_find_seq_first(t, pat, from + 1);
    }
}

pub proof fn lemma_name_scan_bound(t: Seq<char>, i: int)
    requires
        0 <= i,
    ensures
        i <= name_scan(t, i) || i > t.len(),
        name_scan(t, i) <= t.len(),
        forall|j: int| i <= j < name_scan(t, i) ==> is_name_char(#[trigger] t[j]),
    decreases t.len() - i,
{
    if i < t.len() && is_name_char(t[i]) {
        lemma_name_scan_bound(t, i + 1);
    }
}

proof fn lemma_sections_text_push(ss: Seq<Section>, s: Section)
    ensures
        sections_text(ss.push(s)) == sections_text(ss) + section_text(s),
{
    assert(ss.push(s).drop_last() =~= ss);
}

proof fn lemma_push_piece_text(out: Seq<Section>, p: Section)
    ensures
        sections_text(push_piece(out, p)) == sections_text(out) + section_text(p),
{
    match p {
        Section::Plain(s) => {
            if s.len() == 0 {
                assert(sections_text(out) + s =~= sections_text(out));
            } else if out.len() > 0 && out.last() is Plain {
                lemma_sections_text_push(out.drop_last(), Section::Plain(out.last()->Plain_0 + s));
                assert(sections_text(out) == sections_text(out.drop_last()) + out.last()->Plain_0);
                assert(sections_text(out.drop_last()) + (out.last()->Plain_0 + s) =~= sections_text(
                    out.drop_last(),
                ) + out.last()->Plain_0 + s);
            } else {
                lemma_sections_text_push(out, p);
            }
        },
        Section::Hidden(_, _) => {
            lemma_sections_text_push(out, p);
        },
    }
}

proof fn lemma_merge_into_text(out: Seq<Section>, ps: Seq<Section>)
    ensures
        sections_text(merge_into(out, ps)) == sections_text(out) + sections_text(ps),
    decreases ps.len(),
{
    if ps.len() == 0 {
        assert(sections_text(out) + sections_text(ps) =~= sections_text(out));
    } else {
        lemma_push_piece_text(out, ps[0]);
        lemma_merge_into_text(push_piece(out, ps[0]), ps.drop_first());
        lemma_sections_text_front(ps);
        assert(sections_text(out) + section_text(ps[0]) + sections_text(ps.drop_first()) =~= sections_text(
            out,
        ) + (section_text(ps[0]) + sections_text(ps.drop_first())));
    }
}

proof fn lemma_sections_text_front(ps: Seq<Section>)
    requires
        ps.len() > 0,
    ensures
        sections_text(ps) == section_text(ps[0]) + sections_text(ps.drop_first()),
    decreases ps.len(),
{
    if ps.len() == 1 {
        assert(ps.drop_last() =~= Seq::<Section>::empty());
        assert(ps.drop_first() =~= Seq::<Section>::empty());
        assert(section_text(ps[0]) + Seq::<char>::empty() =~= section_text(ps[0]));
        assert(Seq::<char>::empty() + section_text(ps[0]) =~= section_text(ps[0]));
    } else {
        lemma_sections_text_front(ps.drop_last());
        assert(ps.drop_last().drop_first() =~= ps.drop_first().drop_last());
        assert(ps.drop_first().last() == ps.last());
        assert(section_text(ps[0]) + sections_text(ps.drop_first().drop_last()) + section_text(ps.last())
            =~= section_text(ps[0]) + (sections_text(ps.drop_first().drop_last()) + section_text(
            ps.last(),
        )));
    }
}

proof fn lemma_sections_text_concat(a: Seq<Section>, b: Seq<Section>)
    ensures
        sections_text(a + b) == sections_text(a) + sections_text(b),
    decreases b.len(),
{
    if b.len() == 0 {
        assert(a + b =~= a);
        assert(sections_text(a) + sections_text(b) =~= sections_text(a));
    } else {
        assert((a + b).drop_last() =~= a + b.drop_last());
        lemma_sections_text_concat(a, b.drop_last());
        assert(sections_text(a) + sections_text(b.drop_last()) + section_text(b.last()) =~= sections_text(a)
            + (sections_text(b.drop_last()) + section_text(b.last())));
    }
}

proof fn lemma_split_pieces_text(t: Seq<char>, cursor: int)
    requires
        0 <= cursor <= t.len(),
    ensures
        sections_text(split_pieces(t, cursor)) == t.subrange(cursor, t.len() as int),
    decreases t.len() - cursor,
{
    if cursor == t.len() {
        assert(t.subrange(cursor, t.len() as int) =~= Seq::<char>::empty());
    } else {
        lemma_find_char_spec(t, '<', cursor);
        match find_char(t, '<', cursor) {
            None => {
                let p = Section::Plain(t.subrange(cursor, t.len() as int));
                lemma_sections_text_push(Seq::empty(), p);
                assert(seq![p] =~= Seq::<Section>::empty().push(p));
                assert(Seq::<char>::empty() + t.subrange(cursor, t.len() as int) =~= t.subrange(
                    cursor,
                    t.len() as int,
                ));
            },
            Some(open) => {
                let content_start = name_scan(t, open + 1) + 1;
                let name = tag_name(t, open);
                let close = closing_tag(name);
                lemma_name_scan_bound(t, open + 1);
                lemma_find_seq_spec(t, close, content_start);
                if opening_tag_at(t, open) && find_seq(t, close, content_start) is Some {
                    let content_end = find_seq(t, close, content_start)->0;
                    let next = content_end + close.len();
                    let a = Section::Plain(t.subrange(cursor, open));
                    let b = Section::Hidden(name, t.subrange(content_start, content_end));
                    lemma_split_pieces_text(t, next);
                    lemma_sections_text_concat(seq![a, b], split_pieces(t, next));
                    lemma_sections_text_push(seq![a], b);
                    lemma_sections_text_push(Seq::empty(), a);
                    assert(seq![a, b] =~= seq![a].push(b));
                    assert(seq![a] =~= Seq::<Section>::empty().push(a));
                    assert(t.subrange(cursor, t.len() as int) =~= t.subrange(cursor, open) + (seq!['<'] + name
                        + seq!['>'] + t.subrange(content_start, content_end) + close) + t.subrange(
                        next,
                        t.len() as int,
                    ));
                    assert(Seq::<char>::empty() + section_text(a) =~= section_text(a));
                } else {
                    let a = Section::Plain(t.subrange(cursor, open + 1));
                    lemma_split_pieces_text(t, open + 1);
                    lemma_sections_text_concat(seq![a], split_pieces(t, open + 1));
                    lemma_sections_text_push(Seq::empty(), a);
                    assert(seq![a] =~= Seq::<Section>::empty().push(a));
                    assert(Seq::<char>::empty() + section_text(a) =~= section_text(a));
                    assert(t.subrange(cursor, t.len() as int) =~= t.subrange(cursor, open + 1) + t.subrange(
                        open + 1,
                        t.len() as int,
                    ));
                }
            },
        }
    }
}

/// Putting the sections of `t` back together, each block with its tags,
/// gives `t` again: splitting loses no text.
pub proof fn lemma_sections_restore_text(t: Seq<char>)
    ensures
        sections_text(inline_sections(t)) == t,
{
    lemma_merge_into_text(Seq::empty(), split_pieces(t, 0));
    lemma_split_pieces_text(t, 0);
    assert(sections_text(Seq::<Section>::empty()) == Seq::<char>::empty());
    assert(Seq::<char>::empty() + t.subrange(0, t.len() as int) =~= t);
}


proof fn lemma_push_piece_wf(out: Seq<Section>, p: Section)
    requires
        sections_well_formed(out),
        p is Hidden ==> block_ok(p),
    ensures
        sections_well_formed(push_piece(out, p)),
{
    let r = push_piece(out, p);
    match p {
        Section::Plain(s) => {
            if s.len() == 0 {
            } else if out.len() > 0 && out.last() is Plain {
                assert forall|i: int| 0 <= i < r.len() - 1 && (#[trigger] r[i]) is Plain implies !(r[i + 1] is Plain) by {
                    assert(r[i] == out[i]);
                    if i + 1 < r.len() - 1 {
                        assert(r[i + 1] == out[i + 1]);
                    } else {
                        assert(out[i + 1] == out.last());
                    }
                }
                assert forall|i: int| 0 <= i < r.len() && (#[trigger] r[i]) is Plain implies r[i]->Plain_0.len() > 0 by {
                    if i < r.len() - 1 {
                        assert(r[i] == out[i]);
                    }
                }
                assert forall|i: int| 0 <= i < r.len() && (#[trigger] r[i]) is Hidden implies block_ok(r[i]) by {
                    assert(r[i] == out[i]);
                }
            } else {
                assert forall|i: int| 0 <= i < r.len() - 1 && (#[trigger] r[i]) is Plain implies !(r[i + 1] is Plain) by {
                    assert(r[i] == out[i]);
                    if i + 1 < out.len() {
                        assert(r[i + 1] == out[i + 1]);
                    }
                }
                assert forall|i: int| 0 <= i < r.len() && (#[trigger] r[i]) is Plain implies r[i]->Plain_0.len() > 0 by {
                    if i < out.len() {
                        assert(r[i] == out[i]);
                    }
                }
                assert forall|i: int| 0 <= i < r.len() && (#[trigger] r[i]) is Hidden implies block_ok(r[i]) by {
                    if i < out.len() {
                        assert(r[i] == out[i]);
                    }
                }
            }
        },
        Section::Hidden(_, _) => {
            assert forall|i: int| 0 <= i < r.len() - 1 && (#[trigger] r[i]) is Plain implies !(r[i + 1] is Plain) by {
                assert(r[i] == out[i]);
                if i + 1 < out.len() {
                    assert(r[i + 1] == out[i + 1]);
                }
            }
            assert forall|i: int| 0 <= i < r.len() && (#[trigger] r[i]) is Plain implies r[i]->Plain_0.len() > 0 by {
                if i < out.len() {
                    assert(r[i] == out[i]);
                }
            }
            assert forall|i: int| 0 <= i < r.len() && (#[trigger] r[i]) is Hidden implies block_ok(r[i]) by {
                if i < out.len() {
                    assert(r[i] == out[i]);
                }
            }
        },
    }
}

/// Every block piece of `split_pieces` is `block_ok`.
spec fn hidden_names_dashed(ps: Seq<Section>) -> bool {
    forall|i: int| 0 <= i < ps.len() && (#[trigger] ps[i]) is Hidden ==> block_ok(ps[i])
}

proof fn lemma_merge_into_wf(out: Seq<Section>, ps: Seq<Section>)
    requires
        sections_well_formed(out),
        hidden_names_dashed(ps),
    ensures
        sections_well_formed(merge_into(out, ps)),
    decreases ps.len(),
{
    if ps.len() > 0 {
        lemma_push_piece_wf(out, ps[0]);
        assert forall|i: int| 0 <= i < ps.drop_first().len() && (#[trigger] ps.drop_first()[i]) is Hidden
            implies block_ok(ps.drop_first()[i]) by {
            assert(ps.drop_first()[i] == ps[i + 1]);
        }
        lemma_merge_into_wf(push_piece(out, ps[0]), ps.drop_first());
    }
}

proof fn lemma_split_pieces_dashed(t: Seq<char>, cursor: int)
    ensures
        hidden_names_dashed(split_pieces(t, cursor)),
    decreases t.len() - cursor,
{
    if 0 <= cursor < t.len() {
        lemma_find_char_spec(t, '<', cursor);
        match find_char(t, '<', cursor) {
            None => {},
            Some(open) => {
                let content_start = name_scan(t, open + 1) + 1;
                let close = closing_tag(tag_name(t, open));
                lemma_name_scan_bound(t, open + 1);
                lemma_find_seq_spec(t, close, content_start);
                if opening_tag_at(t, open) && find_seq(t, close, content_start) is Some {
                    let content_end = find_seq(t, close, content_start)->0;
                    let rest = split_pieces(t, content_end + close.len());
                    lemma_split_pieces_dashed(t, content_end + close.len());
                    let head = seq![
                        Section::Plain(t.subrange(cursor, open)),
                        Section::Hidden(tag_name(t, open), t.subrange(content_start, content_end)),
                    ];
                    let all = head + rest;
                    let name = tag_name(t, open);
                    let content = t.subrange(content_start, content_end);
                    lemma_find_seq_first(t, close, content_start);
                    assert forall|j: int| 0 <= j < name.len() implies is_name_char(#[trigger] name[j]) by {
                        assert(name[j] == t[open + 1 + j]);
                    }
                    assert(name[0] == t[open + 1]);
                    assert forall|q: int| 0 <= q && q + close.len() <= content.len()
                        implies #[trigger] content.subrange(q, q + close.len()) != close by {
                        assert(content.subrange(q, q + close.len()) =~= t.subrange(content_start + q, content_start + q + close.len()));
                    }
                    assert(block_ok(Section::Hidden(name, content)));
                    assert forall|i: int| 0 <= i < all.len() && (#[trigger] all[i]) is Hidden implies block_ok(all[i]) by {
                        if i >= 2 {
                            assert(all[i] == rest[i - 2]);
                        }
                    }
                } else {
                    let rest = split_pieces(t, open + 1);
                    lemma_split_pieces_dashed(t, open + 1);
                    let all = seq![Section::Plain(t.subrange(cursor, open + 1))] + rest;
                    assert forall|i: int| 0 <= i < all.len() && (#[trigger] all[i]) is Hidden implies block_ok(all[i]) by {
                        if i >= 1 {
                            assert(all[i] == rest[i - 1]);
                        }
                    }
                }
            },
        }
    }
}

/// The sections of any text are well formed: no empty or neighbouring plain
/// runs, and every block is named by a tag name holding `-`, starting with
/// an ASCII letter, and does not hold its closing tag.
pub proof fn lemma_sections_well_formed(t: Seq<char>)
    ensures
        sections_well_formed(inline_sections(t)),
{
    lemma_split_pieces_dashed(t, 0);
    lemma_merge_into_wf(Seq::empty(), split_pieces(t, 0));
}

// ---------- recognition is complete ----------

/// A `<` at `q` of `t` that opens no block: either no tag opens there or
/// its closing tag does not follow.
spec fn opens_nothing(t: Seq<char>, q: int) -> bool {
    !(opening_tag_at(t, q) && find_seq(t, closing_tag(tag_name(t, q)), name_scan(t, q + 1) + 1) is Some)
}

/// `p` is the text of `t` at `a`, and every `<` in it opens nothing.
spec fn plain_at(t: Seq<char>, p: Seq<char>, a: int) -> bool {
    &&& 0 <= a && a + p.len() <= t.len()
    &&& t.subrange(a, a + p.len()) == p
    &&& forall|x: int| 0 <= x < p.len() && p[x] == '<' ==> #[trigger] opens_nothing(t, a + x)
}

/// The pieces `ps`, laid out from `a` on, have only plain runs that are
/// `plain_at` their places.
spec fn pieces_ok(t: Seq<char>, ps: Seq<Section>, a: int) -> bool
    decreases ps.len(),
{
    if ps.len() == 0 {
        true
    } else {
        &&& (ps[0] matches Section::Plain(p) ==> plain_at(t, p, a))
        &&& pieces_ok(t, ps.drop_first(), a + section_text(ps[0]).len())
    }
}

/// The sections `ss`, laid out from 0, have only plain runs that are
/// `plain_at` their places.
spec fn out_ok(t: Seq<char>, ss: Seq<Section>) -> bool
    decreases ss.len(),
{
    if ss.len() == 0 {
        true
    } else {
        &&& out_ok(t, ss.drop_last())
        &&& (ss.last() matches Section::Plain(p) ==> plain_at(t, p, sections_text(ss.drop_last()).len() as int))
    }
}

proof fn lemma_no_char_between(t: Seq<char>, c: char, from: int)
    requires
        0 <= from,
    ensures
        find_char(t, c, from) matches Some(k) ==> forall|j: int| from <= j < k ==> t[j] != c,
        find_char(t, c, from) is None ==> forall|j: int| from <= j < t.len() ==> t[j] != c,
    decreases t.len() - from,
{
    if from < t.len() && t[from] != c {
        lemma_no_char_between(t, c, from + 1);
    }
}

proof fn lemma_split_pieces_ok(t: Seq<char>, c: int)
    requires
        0 <= c <= t.len(),
    ensures
        pieces_ok(t, split_pieces(t, c), c),
    decreases t.len() - c,
{
    if c < t.len() {
        lemma_find_char_spec(t, '<', c);
        lemma_no_char_between(t, '<', c);
        match find_char(t, '<', c) {
            None => {
                let p = t.subrange(c, t.len() as int);
                let ps = seq![Section::Plain(p)];
                assert(ps.drop_first() =~= Seq::<Section>::empty());
                assert forall|x: int| 0 <= x < p.len() && p[x] == '<' implies #[trigger] opens_nothing(t, c + x) by {
                    assert(p[x] == t[c + x]);
                }
                assert(t.subrange(c, c + p.len()) =~= p);
                assert(plain_at(t, p, c));
                assert(pieces_ok(t, ps.drop_first(), c + section_text(ps[0]).len()));
                assert(pieces_ok(t, ps, c));
            },
            Some(open) => {
                let content_start = name_scan(t, open + 1) + 1;
                let name = tag_name(t, open);
                let close = closing_tag(name);
                lemma_name_scan_bound(t, open + 1);
                lemma_find_seq_spec(t, close, content_start);
                if opening_tag_at(t, open) && find_seq(t, close, content_start) is Some {
                    let content_end = find_seq(t, close, content_start)->0;
                    let next = content_end + close.len();
                    let p = t.subrange(c, open);
                    let a = Section::Plain(p);
                    let b = Section::Hidden(name, t.subrange(content_start, content_end));
                    let rest = split_pieces(t, next);
                    let ps = seq![a, b] + rest;
                    lemma_split_pieces_ok(t, next);
                    assert(ps[0] == a);
                    assert(ps.drop_first()[0] == b);
                    assert(ps.drop_first().drop_first() =~= rest);
                    assert(section_text(b) =~= seq!['<'] + name + seq!['>'] + t.subrange(content_start, content_end) + close);
                    assert(name.len() == content_start - 1 - (open + 1));
                    assert(section_text(b).len() == next - open);
                    assert forall|x: int| 0 <= x < p.len() && p[x] == '<' implies #[trigger] opens_nothing(t, c + x) by {
                        assert(p[x] == t[c + x]);
                    }
                    assert(t.subrange(c, c + p.len()) =~= p);
                    assert(plain_at(t, p, c));
                    assert(pieces_ok(t, rest, next));
                    assert(pieces_ok(t, ps.drop_first().drop_first(), open + section_text(b).len()));
                    assert(pieces_ok(t, ps.drop_first(), open));
                    assert(pieces_ok(t, ps, c));
                } else {
                    let p = t.subrange(c, open + 1);
                    let a = Section::Plain(p);
                    let rest = split_pieces(t, open + 1);
                    let ps = seq![a] + rest;
                    lemma_split_pieces_ok(t, open + 1);
                    assert(ps[0] == a);
                    assert(ps.drop_first() =~= rest);
                    assert(opens_nothing(t, open));
                    assert forall|x: int| 0 <= x < p.len() && p[x] == '<' implies #[trigger] opens_nothing(t, c + x) by {
                        assert(p[x] == t[c + x]);
                        if c + x < open {
                            assert(t[c + x] != '<');
                        }
                    }
                    assert(t.subrange(c, c + p.len()) =~= p);
                    assert(plain_at(t, p, c));
                    assert(pieces_ok(t, ps, c));
                }
            },
        }
    }
}

proof fn lemma_plain_at_concat(t: Seq<char>, p: Seq<char>, a: int, s: Seq<char>)
    requires
        plain_at(t, p, a),
        plain_at(t, s, a + p.len()),
    ensures
        plain_at(t, p + s, a),
{
    assert(t.subrange(a, a + (p + s).len()) =~= t.subrange(a, a + p.len()) + t.subrange(a + p.len(), a + p.len() + s.len()));
    assert forall|x: int| 0 <= x < (p + s).len() && (p + s)[x] == '<' implies #[trigger] opens_nothing(t, a + x) by {
        if x < p.len() {
            assert((p + s)[x] == p[x]);
        } else {
            assert((p + s)[x] == s[x - p.len()]);
            assert(opens_nothing(t, (a + p.len()) + (x - p.len())));
        }
    }
}

proof fn lemma_push_piece_ok(t: Seq<char>, out: Seq<Section>, piece: Section)
    requires
        out_ok(t, out),
        piece matches Section::Plain(p) ==> plain_at(t, p, sections_text(out).len() as int),
    ensures
        out_ok(t, push_piece(out, piece)),
{
    match piece {
        Section::Plain(p) => {
            if p.len() == 0 {
            } else if out.len() > 0 && out.last() is Plain {
                let dl = out.drop_last();
                let last = out.last()->Plain_0;
                let r = dl.push(Section::Plain(last + p));
                assert(r.drop_last() =~= dl);
                assert(sections_text(out) == sections_text(dl) + last);
                lemma_plain_at_concat(t, last, sections_text(dl).len() as int, p);
            } else {
                let r = out.push(piece);
                assert(r.drop_last() =~= out);
            }
        },
        Section::Hidden(_, _) => {
            let r = out.push(piece);
            assert(r.drop_last() =~= out);
        },
    }
}

proof fn lemma_merge_into_ok(t: Seq<char>, out: Seq<Section>, ps: Seq<Section>)
    requires
        out_ok(t, out),
        pieces_ok(t, ps, sections_text(out).len() as int),
    ensures
        out_ok(t, merge_into(out, ps)),
    decreases ps.len(),
{
    if ps.len() > 0 {
        lemma_push_piece_ok(t, out, ps[0]);
        lemma_push_piece_text(out, ps[0]);
        lemma_merge_into_ok(t, push_piece(out, ps[0]), ps.drop_first());
    }
}

proof fn lemma_out_ok_at(t: Seq<char>, ss: Seq<Section>, k: int)
    requires
        out_ok(t, ss),
        0 <= k < ss.len(),
        ss[k] is Plain,
    ensures
        exists|a: int| plain_at(t, ss[k]->Plain_0, a),
    decreases ss.len(),
{
    if k == ss.len() - 1 {
        let a = sections_text(ss.drop_last()).len() as int;
        assert(plain_at(t, ss[k]->Plain_0, a));
    } else {
        assert(ss.drop_last()[k] == ss[k]);
        lemma_out_ok_at(t, ss.drop_last(), k);
    }
}

proof fn lemma_name_scan_is(t: Seq<char>, j: int, e: int)
    requires
        0 <= j <= e < t.len(),
        forall|x: int| j <= x < e ==> is_name_char(#[trigger] t[x]),
        !is_name_char(t[e]),
    ensures
        name_scan(t, j) == e,
    decreases e - j,
{
    if j < e {
        lemma_name_scan_is(t, j + 1, e);
    }
}

proof fn lemma_find_seq_found(t: Seq<char>, pat: Seq<char>, from: int, at: int)
    requires
        0 <= from <= at,
        at + pat.len() <= t.len(),
        t.subrange(at, at + pat.len()) == pat,
    ensures
        find_seq(t, pat, from) is Some,
    decreases at - from,
{
    if from < at && t.subrange(from, from + pat.len()) != pat {
        lemma_find_seq_found(t, pat, from + 1, at);
    }
}

/// `p[i]` opens a tag that ends at `p[k]`: a `<`, then a name of ASCII
/// letters, digits, `-` and `_` that starts with a letter and holds a `-`,
/// then `>`.
pub open spec fn tag_opens(p: Seq<char>, i: int, k: int) -> bool {
    &&& 0 <= i && i + 1 < k < p.len()
    &&& p[i] == '<'
    &&& p[k] == '>'
    &&& ('a' <= p[i + 1] && p[i + 1] <= 'z') || ('A' <= p[i + 1] && p[i + 1] <= 'Z')
    &&& forall|j: int| i < j < k ==> {
        let c = #[trigger] p[j];
        ('a' <= c && c <= 'z') || ('A' <= c && c <= 'Z') || ('0' <= c && c <= '9') || c == '-' || c == '_'
    }
    &&& exists|j: int| i < j < k && #[trigger] p[j] == '-'
}

/// Recognition is complete: no plain run of the sections of `t` holds a tag
/// that opens a block together with that tag's closing tag after it (such
/// a pair always becomes a block).
pub proof fn lemma_plain_run_holds_no_block(t: Seq<char>, k: int, i: int, e: int, q: int)
    requires
        0 <= k < inline_sections(t).len(),
        inline_sections(t)[k] is Plain,
        tag_opens(inline_sections(t)[k]->Plain_0, i, e),
        e < q,
        q + (e - i) + 2 <= inline_sections(t)[k]->Plain_0.len(),
    ensures
        ({
            let p = inline_sections(t)[k]->Plain_0;
            p.subrange(q, q + (e - i) + 2) != seq!['<', '/'] + p.subrange(i + 1, e) + seq!['>']
        }),
{
    let ss = inline_sections(t);
    let p = ss[k]->Plain_0;
    assert(sections_text(Seq::<Section>::empty()).len() == 0);
    lemma_split_pieces_ok(t, 0);
    lemma_merge_into_ok(t, Seq::empty(), split_pieces(t, 0));
    lemma_out_ok_at(t, ss, k);
    let a = choose|a: int| plain_at(t, p, a);
    let close = seq!['<', '/'] + p.subrange(i + 1, e) + seq!['>'];
    if p.subrange(q, q + (e - i) + 2) == close {
        let o = a + i;
        assert(t[o] == p[i]);
        assert(opens_nothing(t, o));
        assert forall|x: int| o + 1 <= x < a + e implies is_name_char(#[trigger] t[x]) by {
            assert(t[x] == p[x - a]);
        }
        assert(t[a + e] == p[e]);
        lemma_name_scan_is(t, o + 1, a + e);
        assert(t.subrange(o + 1, a + e) =~= p.subrange(i + 1, e));
        let j = choose|j: int| i < j < e && #[trigger] p[j] == '-';
        assert(t.subrange(o + 1, a + e)[j - i - 1] == '-');
        assert(t[o + 1] == p[i + 1]);
        assert(opening_tag_at(t, o));
        assert(tag_name(t, o) =~= p.subrange(i + 1, e));
        assert(closing_tag(tag_name(t, o)) =~= close);
        assert(t.subrange(a + q, a + q + close.len()) =~= p.subrange(q, q + (e - i) + 2));
        lemma_find_seq_found(t, close, a + e + 1, a + q);
        assert(false);
    }
}

// ---------- executable parser ----------

pub open spec fn sections_view(v: Seq<InlineSection>) -> Seq<Section> {
    v.map_values(|s: InlineSection| s@)
}

proof fn lemma_merge_into_cons(out: Seq<Section>, a: Section, rest: Seq<Section>)
    ensures
        merge_into(out, seq![a] + rest) == merge_into(push_piece(out, a), rest),
{
    assert((seq![a] + rest)[0] == a);
    assert((seq![a] + rest).drop_first() =~= rest);
}

fn push_plain(out: &mut Vec<InlineSection>, t: &Vec<char>, from: usize, to: usize)
    requires
        from <= to <= t.len(),
    ensures
        sections_view(final(out)@) == push_piece(sections_view(old(out)@), Section::Plain(t@.subrange(from as int, to as int))),
{
    if from == to {
        return;
    }
    let ghost before = sections_view(out@);
    let n = out.len();
    let last_is_plain = n > 0 && match &out[n - 1] {
        InlineSection::Plain(_) => true,
        _ => false,
    };
    if last_is_plain {
        let last = out.pop().unwrap();
        assert(sections_view(out@) =~= before.drop_last());
        match last {
            InlineSection::Plain(prev) => {
                let mut cs = chars_of(prev.as_str());
                push_range(&mut cs, t, from, to);
                let joined = crate::text::string_from_chars(&cs);
                out.push(InlineSection::Plain(joined));
            },
            _ => {},
        }
        assert(sections_view(out@) =~= push_piece(before, Section::Plain(t@.subrange(from as int, to as int))));
    } else {
        let s = string_of_range(t, from, to);
        out.push(InlineSection::Plain(s));
        assert(sections_view(out@) =~= push_piece(before, Section::Plain(t@.subrange(from as int, to as int))));
    }
}

fn name_char(c: char) -> (r: bool)
    ensures
        r == is_name_char(c),
{
    ('a' <= c && c <= 'z') || ('A' <= c && c <= 'Z') || ('0' <= c && c <= '9') || c == '-' || c == '_'
}

/// Whether `pat` occurs in `t` at `j`.
fn matches_at(t: &Vec<char>, pat: &Vec<char>, j: usize) -> (r: bool)
    requires
        j + pat.len() <= t.len(),
    ensures
        r == (t@.subrange(j as int, j + pat.len()) == pat@),
{
    let mut i: usize = 0;
    while i < pat.len()
        invariant
            i <= pat.len(),
            j + pat.len() <= t.len(),
            forall|k: int| 0 <= k < i ==> t@[j + k] == pat@[k],
        decreases pat.len() - i,
    {
        if t[j + i] != pat[i] {
            assert(t@.subrange(j as int, j + pat.len())[i as int] != pat@[i as int]);
            return false;
        }
        i = i + 1;
    }
    assert(t@.subrange(j as int, j + pat.len()) =~= pat@);
    true
}

/// `find_seq(t, pat, from)`.
pub fn find_pattern(t: &Vec<char>, pat: &Vec<char>, from: usize) -> (r: Option<usize>)
    requires
        pat.len() > 0,
    ensures
        r matches Some(k) ==> find_seq(t@, pat@, from as int) == Some(k as int),
        r is None ==> find_seq(t@, pat@, from as int) is None,
{
    let mut j = from;
    while j <= t.len() && pat.len() <= t.len() - j
        invariant
            from <= j,
            pat.len() > 0,
            find_seq(t@, pat@, from as int) == find_seq(t@, pat@, j as int),
        decreases t.len() + 1 - j,
    {
        if matches_at(t, pat, j) {
            return Some(j);
        }
        j = j + 1;
    }
    None
}

/// Splits `text` into plain runs and blocks wrapped in a tag whose name
/// holds a `-` (`<system-reminder>...</system-reminder>`), as the viewer
/// shows them. Tags without `-` (`<p>`, `<abc>`), or without a closing tag,
/// stay in the plain text.
pub fn parse_inline_sections(text: &str) -> (r: Vec<InlineSection>)
    ensures
        sections_view(r@) == inline_sections(text@),
{
    let t = chars_of(text);
    let n = t.len();
    let mut out: Vec<InlineSection> = Vec::new();
    let mut cursor: usize = 0;
    assert(sections_view(out@) =~= Seq::<Section>::empty());
    while cursor < n
        invariant
            cursor <= n == t.len(),
            t@ == text@,
            merge_into(sections_view(out@), split_pieces(t@, cursor as int)) == inline_sections(t@),
        decreases n - cursor,
    {
        let mut open = cursor;
        while open < n && t[open] != '<'
            invariant
                cursor <= open <= n == t.len(),
                find_char(t@, '<', cursor as int) == find_char(t@, '<', open as int),
            decreases n - open,
        {
            open = open + 1;
        }
        if open == n {
            proof {
                let ps = split_pieces(t@, cursor as int);
                assert(ps == seq![Section::Plain(t@.subrange(cursor as int, n as int))]);
                lemma_merge_into_cons(sections_view(out@), ps[0], Seq::empty());
                assert(ps =~= seq![ps[0]] + Seq::<Section>::empty());
            }
            push_plain(&mut out, &t, cursor, n);
            cursor = n;
        } else {
            let mut k = open + 1;
            proof {
                lemma_name_scan_bound(t@, open + 1);
            }
            while k < n && name_char(t[k])
                invariant
                    open + 1 <= k <= n == t.len(),
                    name_scan(t@, open + 1) == name_scan(t@, k as int),
                decreases n - k,
            {
                k = k + 1;
            }
            let mut found: Option<usize> = None;
            let mut has_dash = false;
            if k < n && t[k] == '>' && k > open + 1 && (('a' <= t[open + 1] && t[open + 1] <= 'z')
                || ('A' <= t[open + 1] && t[open + 1] <= 'Z')) {
                let mut i = open + 1;
                while i < k
                    invariant
                        open + 1 <= i <= k < n == t.len(),
                        has_dash == t@.subrange(open + 1, i as int).contains('-'),
                    decreases k - i,
                {
                    proof {
                        assert(t@.subrange(open + 1, i + 1) =~= t@.subrange(open + 1, i as int).push(t@[i as int]));
                        if t@.subrange(open + 1, i as int).contains('-') {
                            let w = choose|w: int| 0 <= w < t@.subrange(open + 1, i as int).len() && #[trigger] t@.subrange(open + 1, i as int)[w] == '-';
                            assert(t@.subrange(open + 1, i + 1)[w] == '-');
                        }
                        if t@[i as int] == '-' {
                            assert(t@.subrange(open + 1, i + 1)[i - open - 1] == '-');
                        }
                    }
                    if t[i] == '-' {
                        has_dash = true;
                    }
                    i = i + 1;
                }
                if has_dash {
                    let mut pat: Vec<char> = Vec::new();
                    pat.push('<');
                    pat.push('/');
                    push_range(&mut pat, &t, open + 1, k);
                    pat.push('>');
                    assert(pat@ =~= closing_tag(tag_name(t@, open as int)));
                    found = find_pattern(&t, &pat, k + 1);
                }
            }
            proof {
                lemma_find_char_spec(t@, '<', cursor as int);
            }
            match found {
                Some(content_end) => {
                    let ghost ps = split_pieces(t@, cursor as int);
                    let ghost close = closing_tag(tag_name(t@, open as int));
                    proof {
                        lemma_find_seq_spec(t@, close, k + 1);
                    }
                    let close_end = content_end + (k - open - 1) + 3;
                    let ghost a = Section::Plain(t@.subrange(cursor as int, open as int));
                    let ghost b = Section::Hidden(tag_name(t@, open as int), t@.subrange(k + 1, content_end as int));
                    proof {
                        assert(ps == seq![a, b] + split_pieces(t@, close_end as int));
                        assert(seq![a, b] + split_pieces(t@, close_end as int) =~= seq![a] + (seq![b] + split_pieces(t@, close_end as int)));
                        lemma_merge_into_cons(sections_view(out@), a, seq![b] + split_pieces(t@, close_end as int));
                    }
                    push_plain(&mut out, &t, cursor, open);
                    proof {
                        lemma_merge_into_cons(sections_view(out@), b, split_pieces(t@, close_end as int));
                    }
                    let name = string_of_range(&t, open + 1, k);
                    let content = string_of_range(&t, k + 1, content_end);
                    let ghost before = sections_view(out@);
                    out.push(InlineSection::Hidden { name, content });
                    assert(sections_view(out@) =~= before.push(b));
                    cursor = close_end;
                },
                None => {
                    let ghost ps = split_pieces(t@, cursor as int);
                    let ghost a = Section::Plain(t@.subrange(cursor as int, open + 1));
                    proof {
                        assert(ps == seq![a] + split_pieces(t@, open + 1));
                        lemma_merge_into_cons(sections_view(out@), a, split_pieces(t@, open + 1));
                    }
                    push_plain(&mut out, &t, cursor, open + 1);
                    cursor = open + 1;
                },
            }
        }
    }
    out
}


// ---------- lines and code fences ----------

/// The lines of `t[from..]` as `str::split('\n')` gives them.
pub open spec fn lines_from(t: Seq<char>, from: int) -> Seq<Seq<char>>
    decreases t.len() + 1 - from,
{
    if from < 0 || from > t.len() {
        Seq::empty()
    } else {
        match find_char(t, '\n', from) {
            None => seq![t.subrange(from, t.len() as int)],
            Some(k) => {
                proof {
                    lemma_find_char_spec(t, '\n', from);
                }
                seq![t.subrange(from, k)] + lines_from(t, k + 1)
            },
        }
    }
}

/// Splits `content` at each line feed, as `str::split('\n')` does.
pub fn split_lines(content: &str) -> (r: Vec<String>)
    ensures
        r@.map_values(|l: String| l@) == lines_from(content@, 0),
{
    let t = chars_of(content);
    let n = t.len();
    let mut out: Vec<String> = Vec::new();
    let mut start: usize = 0;
    let mut i: usize = 0;
    loop
        invariant
            start <= i <= n == t.len(),
            t@ == content@,
            find_char(t@, '\n', start as int) == find_char(t@, '\n', i as int),
            out@.map_values(|l: String| l@) + lines_from(t@, start as int) == lines_from(t@, 0),
        decreases n - i, n - start,
    {
        if i == n {
            let ghost before = out@.map_values(|l: String| l@);
            out.push(string_of_range(&t, start, n));
            assert(out@.map_values(|l: String| l@) =~= before.push(t@.subrange(start as int, n as int)));
            assert(lines_from(t@, start as int) == seq![t@.subrange(start as int, n as int)]);
            assert(before + seq![t@.subrange(start as int, n as int)] =~= before.push(t@.subrange(start as int, n as int)));
            return out;
        }
        if t[i] == '\n' {
            let ghost before = out@.map_values(|l: String| l@);
            out.push(string_of_range(&t, start, i));
            assert(out@.map_values(|l: String| l@) =~= before.push(t@.subrange(start as int, i as int)));
            assert(lines_from(t@, start as int) == seq![t@.subrange(start as int, i as int)] + lines_from(t@, i + 1));
            assert(before + (seq![t@.subrange(start as int, i as int)] + lines_from(t@, i + 1)) =~= before.push(
                t@.subrange(start as int, i as int),
            ) + lines_from(t@, i + 1));
            start = i + 1;
            i = i + 1;
        } else {
            i = i + 1;
        }
    }
}

/// A line that opens or closes a code block: after its leading whitespace
/// it starts with three backticks.
pub open spec fn is_fence(line: Seq<char>) -> bool {
    let k = crate::text::leading_space(line) as int;
    k + 3 <= line.len() && line[k] == '`' && line[k + 1] == '`' && line[k + 2] == '`'
}

/// Body being rendered: finished segments (text, is code), the pending
/// text, and whether it is inside a code block.
pub type FenceState = (Seq<(Seq<char>, bool)>, Seq<char>, bool);

/// Ends the pending text as a segment, unless it is empty.
pub open spec fn flush_segment(st: FenceState) -> Seq<(Seq<char>, bool)> {
    if st.1.len() == 0 {
        st.0
    } else {
        st.0.push((st.1, st.2))
    }
}

/// One line of the body: a fence ends the pending text and switches between
/// code and prose; any other line joins the pending text (after a line feed
/// when that text is not empty).
pub open spec fn fence_step(st: FenceState, line: Seq<char>) -> FenceState {
    if is_fence(line) {
        (flush_segment(st), Seq::empty(), !st.2)
    } else {
        (st.0, if st.1.len() == 0 { line } else { st.1 + seq!['\n'] + line }, st.2)
    }
}

pub open spec fn fence_run(st: FenceState, lines: Seq<Seq<char>>) -> FenceState
    decreases lines.len(),
{
    if lines.len() == 0 {
        st
    } else {
        fence_run(fence_step(st, lines[0]), lines.drop_first())
    }
}

/// Segments of a message body between code fences, each tagged with
/// whether it is code.
pub open spec fn code_segments(t: Seq<char>) -> Seq<(Seq<char>, bool)> {
    flush_segment(fence_run((Seq::empty(), Seq::empty(), false), lines_from(t, 0)))
}

/// Splits a message body into prose and code segments at lines that start
/// (after whitespace) with three backticks; empty segments are left out.
pub fn split_code_blocks(text: &str) -> (r: Vec<(String, bool)>)
    ensures
        r@.map_values(|p: (String, bool)| (p.0@, p.1)) == code_segments(text@),
{
    let lines = split_lines(text);
    let ghost ls = lines@.map_values(|l: String| l@);
    let mut segs: Vec<(String, bool)> = Vec::new();
    let mut buf: Vec<char> = Vec::new();
    let mut in_code = false;
    let mut i: usize = 0;
    assert(segs@.map_values(|p: (String, bool)| (p.0@, p.1)) =~= Seq::<(Seq<char>, bool)>::empty());
    assert(buf@ =~= Seq::<char>::empty());
    assert(ls.skip(0) =~= ls);
    while i < lines.len()
        invariant
            i <= lines.len(),
            ls == lines@.map_values(|l: String| l@),
            ls == lines_from(text@, 0),
            flush_segment(fence_run((segs@.map_values(|p: (String, bool)| (p.0@, p.1)), buf@, in_code), ls.skip(i as int)))
                == code_segments(text@),
        decreases lines.len() - i,
    {
        let line = chars_of(lines[i].as_str());
        let ghost st = (segs@.map_values(|p: (String, bool)| (p.0@, p.1)), buf@, in_code);
        proof {
            assert(ls.skip(i as int)[0] == line@);
            assert(ls.skip(i as int).drop_first() =~= ls.skip(i + 1));
        }
        let b = crate::text::trim_start_index(&line, 0, line.len());
        assert(line@.subrange(0, line.len() as int) =~= line@);
        let fence = b < line.len() && line.len() - b >= 3 && line[b] == '`' && line[b + 1] == '`' && line[b + 2] == '`';
        if fence {
            if buf.len() > 0 {
                let ghost before = segs@.map_values(|p: (String, bool)| (p.0@, p.1));
                segs.push((crate::text::string_from_chars(&buf), in_code));
                assert(segs@.map_values(|p: (String, bool)| (p.0@, p.1)) =~= before.push((buf@, in_code)));
            }
            buf = Vec::new();
            in_code = !in_code;
            assert((segs@.map_values(|p: (String, bool)| (p.0@, p.1)), buf@, in_code) == fence_step(st, line@));
        } else {
            if buf.len() > 0 {
                buf.push('\n');
            }
            let ghost before = buf@;
            push_range(&mut buf, &line, 0, line.len());
            assert(buf@ =~= (if st.1.len() == 0 { line@ } else { st.1 + seq!['\n'] + line@ }));
            assert((segs@.map_values(|p: (String, bool)| (p.0@, p.1)), buf@, in_code) == fence_step(st, line@));
        }
        i = i + 1;
    }
    assert(ls.skip(i as int) =~= Seq::<Seq<char>>::empty());
    if buf.len() > 0 {
        let ghost before = segs@.map_values(|p: (String, bool)| (p.0@, p.1));
        segs.push((crate::text::string_from_chars(&buf), in_code));
        assert(segs@.map_values(|p: (String, bool)| (p.0@, p.1)) =~= before.push((buf@, in_code)));
    }
    segs
}

/// `content` without the line feeds at either end (`trim_matches('\n')`):
/// the body of a block as the viewer shows it.
pub open spec fn strip_newlines(s: Seq<char>) -> Seq<char> {
    let a = leading_newlines(s) as int;
    let b = s.len() - trailing_newlines(s.skip(a));
    s.subrange(a, b)
}

pub open spec fn leading_newlines(s: Seq<char>) -> nat
    decreases s.len(),
{
    if s.len() > 0 && s[0] == '\n' {
        1 + leading_newlines(s.drop_first())
    } else {
        0
    }
}

pub open spec fn trailing_newlines(s: Seq<char>) -> nat
    decreases s.len(),
{
    if s.len() > 0 && s.last() == '\n' {
        1 + trailing_newlines(s.drop_last())
    } else {
        0
    }
}

/// Text of a block as the viewer shows it: line feeds at either end removed.
pub fn hidden_tag_body(content: &str) -> (r: String)
    ensures
        r@ == strip_newlines(content@),
{
    let cs = chars_of(content);
    let n = cs.len();
    let mut a: usize = 0;
    assert(cs@.skip(0) =~= cs@);
    while a < n && cs[a] == '\n'
        invariant
            a <= n == cs.len(),
            leading_newlines(cs@) == a + leading_newlines(cs@.skip(a as int)),
        decreases n - a,
    {
        assert(cs@.skip(a as int).drop_first() =~= cs@.skip(a + 1));
        a = a + 1;
    }
    assert(leading_newlines(cs@.skip(a as int)) == 0);
    let mut b: usize = n;
    assert(cs@.skip(a as int).take(b - a) =~= cs@.skip(a as int));
    while b > a && cs[b - 1] == '\n'
        invariant
            a <= b <= n == cs.len(),
            trailing_newlines(cs@.skip(a as int)) == (n - b) + trailing_newlines(cs@.skip(a as int).take(b - a)),
        decreases b,
    {
        assert(cs@.skip(a as int).take(b - a).drop_last() =~= cs@.skip(a as int).take(b - a - 1));
        b = b - 1;
    }
    assert(trailing_newlines(cs@.skip(a as int).take(b - a)) == 0);
    string_of_range(&cs, a, b)
}

} // verus!
