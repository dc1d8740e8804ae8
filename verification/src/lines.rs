//! A session file as a list of lines: the file is split at each line feed
//! when it is opened and the lines are joined with line feeds when it is
//! saved, so that an unedited file is written back byte for byte.

use vstd::prelude::*;
use crate::blocks::{join_with, strings_view};
use crate::sections::{find_char, lines_from, lemma_find_char_spec};
use crate::text::{push_str, string_from_chars};
use crate::json::{Json, json_parse, parse_json};
use crate::session::rec_view;

verus! {

/// Whether `s` holds no line feed.
pub open spec fn single_line(s: Seq<char>) -> bool {
    forall|i: int| 0 <= i < s.len() ==> s[i] != '\n'
}

/// The file text for `lines`: the lines with a line feed between neighbours
/// (`lines.join("\n")`).
pub fn join_lines(lines: &Vec<String>) -> (r: String)
    ensures
        r@ == join_with(strings_view(lines@), seq!['\n']),
{
    let ghost sv = strings_view(lines@);
    let mut out: Vec<char> = Vec::new();
    let mut i: usize = 0;
    while i < lines.len()
        invariant
            i <= lines.len(),
            sv == strings_view(lines@),
            out@ == join_with(sv.take(i as int), seq!['\n']),
        decreases lines.len() - i,
    {
        let ghost before = out@;
        if i > 0 {
            out.push('\n');
        }
        push_str(&mut out, lines[i].as_str());
        proof {
            assert(sv.take(i + 1).drop_last() =~= sv.take(i as int));
            assert(sv[i as int] == lines@[i as int]@);
            if i == 0 {
                assert(sv.take(1) =~= seq![sv[0]]);
                assert(out@ =~= sv[0]);
            } else {
                assert(out@ =~= before + seq!['\n'] + sv[i as int]);
            }
        }
        i = i + 1;
    }
    assert(sv.take(lines.len() as int) =~= sv);
    string_from_chars(&out)
}

/// The lines of a file (split at each line feed) and what each line reads
/// as JSON.
pub fn parse_lines(contents: &str) -> (r: (Vec<String>, Vec<Option<Json>>))
    ensures
        strings_view(r.0@) == crate::sections::lines_from(contents@, 0),
        r.1.len() == r.0.len(),
        forall|i: int| 0 <= i < r.1.len() ==> rec_view(#[trigger] r.1@[i]) == json_parse(r.0@[i]@),
{
    let lines = crate::sections::split_lines(contents);
    let mut records: Vec<Option<Json>> = Vec::new();
    let mut i: usize = 0;
    while i < lines.len()
        invariant
            i <= lines.len(),
            records.len() == i,
            forall|k: int| 0 <= k < i ==> rec_view(#[trigger] records@[k]) == json_parse(lines@[k]@),
        decreases lines.len() - i,
    {
        records.push(parse_json(lines[i].as_str()));
        i = i + 1;
    }
    assert(strings_view(lines@) =~= lines@.map_values(|l: String| l@));
    (lines, records)
}

/// Joining with `sep` after one more part in front.
pub proof fn lemma_join_prepend(a: Seq<char>, rest: Seq<Seq<char>>, sep: Seq<char>)
    requires
        rest.len() >= 1,
    ensures
        join_with(seq![a] + rest, sep) == a + sep + join_with(rest, sep),
    decreases rest.len(),
{
    let all = seq![a] + rest;
    assert(all.last() == rest.last());
    if rest.len() == 1 {
        assert(all.drop_last() =~= seq![a]);
        assert(join_with(seq![a], sep) == a);
        assert(join_with(rest, sep) == rest[0]);
        assert(join_with(all, sep) == join_with(all.drop_last(), sep) + sep + all.last());
    } else {
        assert(all.drop_last() =~= seq![a] + rest.drop_last());
        assert(join_with(all, sep) == join_with(all.drop_last(), sep) + sep + all.last());
        assert(join_with(rest, sep) == join_with(rest.drop_last(), sep) + sep + rest.last());
        lemma_join_prepend(a, rest.drop_last(), sep);
        assert(a + sep + join_with(rest.drop_last(), sep) + sep + rest.last() =~= a + sep + (join_with(rest.drop_last(), sep) + sep + rest.last()));
    }
}

proof fn lemma_lines_from_not_empty(t: Seq<char>, from: int)
    requires
        0 <= from <= t.len(),
    ensures
        lines_from(t, from).len() >= 1,
    decreases t.len() + 1 - from,
{
    match find_char(t, '\n', from) {
        None => {},
        Some(k) => {
            lemma_find_char_spec(t, '\n', from);
            lemma_lines_from_not_empty(t, k + 1);
        },
    }
}

proof fn lemma_join_lines_from(t: Seq<char>, from: int)
    requires
        0 <= from <= t.len(),
    ensures
        join_with(lines_from(t, from), seq!['\n']) == t.subrange(from, t.len() as int),
    decreases t.len() + 1 - from,
{
    match find_char(t, '\n', from) {
        None => {},
        Some(k) => {
            lemma_find_char_spec(t, '\n', from);
            lemma_join_lines_from(t, k + 1);
            lemma_lines_from_not_empty(t, k + 1);
            lemma_join_prepend(t.subrange(from, k), lines_from(t, k + 1), seq!['\n']);
            assert(t.subrange(from, t.len() as int) =~= t.subrange(from, k) + seq!['\n'] + t.subrange(k + 1, t.len() as int));
        },
    }
}

/// Splitting a file into lines and joining them again gives back the file:
/// an opened and unedited session is saved unchanged.
pub proof fn lemma_join_split(t: Seq<char>)
    ensures
        join_with(lines_from(t, 0), seq!['\n']) == t,
{
    lemma_join_lines_from(t, 0);
    assert(t.subrange(0, t.len() as int) =~= t);
}

proof fn lemma_find_char_none(t: Seq<char>, c: char, from: int)
    requires
        0 <= from,
        forall|j: int| from <= j < t.len() ==> t[j] != c,
    ensures
        find_char(t, c, from) is None,
    decreases t.len() - from,
{
    if from < t.len() {
        lemma_find_char_none(t, c, from + 1);
    }
}

proof fn lemma_find_char_at(t: Seq<char>, c: char, from: int, k: int)
    requires
        0 <= from <= k < t.len(),
        t[k] == c,
        forall|j: int| from <= j < k ==> t[j] != c,
    ensures
        find_char(t, c, from) == Some(k),
    decreases k - from,
{
    if from < k {
        lemma_find_char_at(t, c, from + 1, k);
    }
}

proof fn lemma_find_char_first(t: Seq<char>, c: char, from: int)
    requires
        0 <= from,
    ensures
        find_char(t, c, from) matches Some(k) ==> forall|j: int| from <= j < k ==> t[j] != c,
        find_char(t, c, from) is None ==> forall|j: int| from <= j < t.len() ==> t[j] != c,
    decreases t.len() - from,
{
    if from < t.len() && t[from] != c {
        lemma_find_char_first(t, c, from + 1);
    }
}

proof fn lemma_lines_from_single(t: Seq<char>, from: int)
    requires
        0 <= from <= t.len(),
    ensures
        forall|i: int| 0 <= i < lines_from(t, from).len() ==> single_line(#[trigger] lines_from(t, from)[i]),
    decreases t.len() + 1 - from,
{
    lemma_find_char_first(t, '\n', from);
    match find_char(t, '\n', from) {
        None => {
            let only = t.subrange(from, t.len() as int);
            assert forall|j: int| 0 <= j < only.len() implies only[j] != '\n' by {
                assert(only[j] == t[from + j]);
            }
        },
        Some(k) => {
            lemma_find_char_spec(t, '\n', from);
            lemma_lines_from_single(t, k + 1);
            let first = t.subrange(from, k);
            assert forall|j: int| 0 <= j < first.len() implies first[j] != '\n' by {
                assert(first[j] == t[from + j]);
            }
            let all = lines_from(t, from);
            assert(all == seq![first] + lines_from(t, k + 1));
            assert forall|i: int| 0 <= i < all.len() implies single_line(#[trigger] all[i]) by {
                if i > 0 {
                    assert(all[i] == lines_from(t, k + 1)[i - 1]);
                }
            }
        },
    }
}

/// The lines a file is split into hold no line feed.
pub proof fn lemma_split_lines_single(t: Seq<char>)
    ensures
        forall|i: int| 0 <= i < lines_from(t, 0).len() ==> single_line(#[trigger] lines_from(t, 0)[i]),
{
    lemma_lines_from_single(t, 0);
}

proof fn lemma_lines_of_join(t: Seq<char>, from: int, ls: Seq<Seq<char>>)
    requires
        0 <= from <= t.len(),
        ls.len() >= 1,
        forall|i: int| 0 <= i < ls.len() ==> single_line(#[trigger] ls[i]),
        t.subrange(from, t.len() as int) == join_with(ls, seq!['\n']),
    ensures
        lines_from(t, from) == ls,
    decreases ls.len(),
{
    let a = ls[0];
    assert(single_line(ls[0]));
    if ls.len() == 1 {
        assert(join_with(ls, seq!['\n']) == a);
        assert forall|j: int| from <= j < t.len() implies t[j] != '\n' by {
            assert(t[j] == t.subrange(from, t.len() as int)[j - from]);
        }
        lemma_find_char_none(t, '\n', from);
        assert(lines_from(t, from) =~= seq![t.subrange(from, t.len() as int)]);
        assert(ls =~= seq![a]);
    } else {
        let rest = ls.drop_first();
        assert(ls =~= seq![a] + rest);
        lemma_join_prepend(a, rest, seq!['\n']);
        let k = from + a.len();
        let sub = t.subrange(from, t.len() as int);
        assert(sub =~= a + seq!['\n'] + join_with(rest, seq!['\n']));
        assert(t[k] == sub[a.len() as int]);
        assert forall|j: int| from <= j < k implies t[j] != '\n' by {
            assert(t[j] == sub[j - from]);
            assert(sub[j - from] == a[j - from]);
        }
        lemma_find_char_at(t, '\n', from, k);
        assert(t.subrange(from, k) =~= a);
        assert(t.subrange(k + 1, t.len() as int) =~= sub.subrange(a.len() as int + 1, sub.len() as int));
        assert(sub.subrange(a.len() as int + 1, sub.len() as int) =~= join_with(rest, seq!['\n']));
        assert forall|i: int| 0 <= i < rest.len() implies single_line(#[trigger] rest[i]) by {
            assert(rest[i] == ls[i + 1]);
        }
        lemma_lines_of_join(t, k + 1, rest);
    }
}

/// Joining lines that hold no line feed and splitting the result gives
/// back the same lines: what is saved is what is opened again.
pub proof fn lemma_split_join(ls: Seq<Seq<char>>)
    requires
        ls.len() >= 1,
        forall|i: int| 0 <= i < ls.len() ==> single_line(#[trigger] ls[i]),
    ensures
        lines_from(join_with(ls, seq!['\n']), 0) == ls,
{
    let t = join_with(ls, seq!['\n']);
    assert(t.subrange(0, t.len() as int) =~= t);
    lemma_lines_of_join(t, 0, ls);
}

} // verus!
