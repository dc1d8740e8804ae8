//! Windows-style word navigation for the message editor: whitespace is the
//! only separator for Ctrl+Arrow / Ctrl+Backspace / Ctrl+Delete, and a
//! double-click selects a run of alphanumerics and `_`.

use vstd::prelude::*;
use crate::text::{push_range, string_from_chars, byte_len, byte_length, byte_offset, char_index_of_byte, char_is_alphanumeric, char_is_whitespace, chars_of, is_space, lemma_prefix_injective, lemma_prefix_le, on_boundary, trim_end_index, trim_end_len, unicode_alphanumeric};

verus! {

// ---------- specifications over character indices ----------

/// Index just past the last whitespace character in `s[..n]`, or 0.
pub open spec fn last_space_end(s: Seq<char>, n: int) -> int
    decreases n,
{
    if n <= 0 {
        0
    } else if is_space(s[n - 1]) {
        n
    } else {
        last_space_end(s, n - 1)
    }
}

/// Start of the word left of character index `i`: trailing whitespace
/// before `i` is passed over, then the run of non-whitespace before it.
pub open spec fn word_start_left(s: Seq<char>, i: int) -> int {
    last_space_end(s, trim_end_len(s.take(i)) as int)
}

/// First index at or after `i` that holds whitespace (or the end).
pub open spec fn skip_non_space(s: Seq<char>, i: int) -> int
    decreases s.len() - i,
{
    if i >= s.len() {
        s.len() as int
    } else if is_space(s[i]) {
        i
    } else {
        skip_non_space(s, i + 1)
    }
}

/// First index at or after `i` that holds non-whitespace (or the end).
pub open spec fn skip_space(s: Seq<char>, i: int) -> int
    decreases s.len() - i,
{
    if i >= s.len() {
        s.len() as int
    } else if !is_space(s[i]) {
        i
    } else {
        skip_space(s, i + 1)
    }
}

/// Start of the next word right of character index `i`: the rest of the
/// current run of non-whitespace is passed over, then the whitespace after it.
pub open spec fn word_start_right(s: Seq<char>, i: int) -> int {
    skip_space(s, skip_non_space(s, i))
}

/// Characters that a double-click treats as part of a word: alphanumerics
/// (for ASCII the letters and digits) and `_`.
pub open spec fn is_word_char(c: char) -> bool {
    if (c as u32) < 128 {
        ('a' <= c && c <= 'z') || ('A' <= c && c <= 'Z') || ('0' <= c && c <= '9') || c == '_'
    } else {
        unicode_alphanumeric(c) || c == '_'
    }
}

/// First index at or after `i` that holds a non-word character (or the end).
pub open spec fn word_run_end(s: Seq<char>, i: int) -> int
    decreases s.len() - i,
{
    if i >= s.len() {
        s.len() as int
    } else if !is_word_char(s[i]) {
        i
    } else {
        word_run_end(s, i + 1)
    }
}

/// Smallest index `j <= i` with only word characters in `s[j..i]`.
pub open spec fn word_run_start(s: Seq<char>, i: int) -> int
    decreases i,
{
    if i <= 0 {
        0
    } else if !is_word_char(s[i - 1]) {
        i
    } else {
        word_run_start(s, i - 1)
    }
}

/// Character span that a double-click at character index `i` selects in a
/// non-empty `s`: the character under the click (the last one when the
/// click is past the end); if that is a word character, the whole run of
/// word characters around it.
pub open spec fn word_span(s: Seq<char>, i: int) -> (int, int) {
    let p = if i < s.len() { i } else { s.len() - 1 };
    if is_word_char(s[p]) {
        (word_run_start(s, p), word_run_end(s, p))
    } else {
        (p, p + 1)
    }
}

/// `i` clamped to the length of `s`.
pub open spec fn clamp(s: Seq<char>, i: int) -> int {
    if i < s.len() { i } else { s.len() as int }
}

// ---------- facts about the specifications ----------

proof fn lemma_last_space_end_bound(s: Seq<char>, n: int)
    ensures
        0 <= last_space_end(s, n),
        n >= 0 ==> last_space_end(s, n) <= n,
    decreases n,
{
    if n > 0 {
        lemma_last_space_end_bound(s, n - 1);
    }
}

proof fn lemma_skip_non_space_bound(s: Seq<char>, i: int)
    requires
        0 <= i,
    ensures
        i <= skip_non_space(s, i) || (i > s.len() && skip_non_space(s, i) == s.len()),
        skip_non_space(s, i) <= s.len(),
    decreases s.len() - i,
{
    if i < s.len() && !is_space(s[i]) {
        lemma_skip_non_space_bound(s, i + 1);
    }
}

proof fn lemma_skip_space_bound(s: Seq<char>, i: int)
    requires
        0 <= i,
    ensures
        i <= skip_space(s, i) || (i > s.len() && skip_space(s, i) == s.len()),
        skip_space(s, i) <= s.len(),
    decreases s.len() - i,
{
    if i < s.len() && is_space(s[i]) {
        lemma_skip_space_bound(s, i + 1);
    }
}

proof fn lemma_word_run_bounds(s: Seq<char>, i: int)
    requires
        0 <= i <= s.len(),
    ensures
        0 <= word_run_start(s, i) <= i,
        i <= word_run_end(s, i) <= s.len(),
    decreases s.len() - i,
{
    lemma_word_run_start_bound(s, i);
    if i < s.len() && is_word_char(s[i]) {
        lemma_word_run_bounds(s, i + 1);
    }
}

proof fn lemma_word_run_start_bound(s: Seq<char>, i: int)
    requires
        0 <= i,
    ensures
        0 <= word_run_start(s, i) <= i,
    decreases i,
{
    if i > 0 && is_word_char(s[i - 1]) {
        lemma_word_run_start_bound(s, i - 1);
    }
}

// ---------- executable versions over character vectors ----------

/// `word_start_left(cs, i)`.
pub fn left_word_start(cs: &Vec<char>, i: usize) -> (r: usize)
    requires
        i <= cs.len(),
    ensures
        r == word_start_left(cs@, i as int),
        r <= i,
{
    let e = trim_end_index(cs, i);
    proof {
        assert forall|k: int| 0 <= k <= e implies last_space_end(cs@.take(i as int), k)
            == last_space_end(cs@, k) by {
            lemma_last_space_end_prefix(cs@, i as int, k);
        }
    }
    let mut n = e;
    while n > 0 && !char_is_whitespace(cs[n - 1])
        invariant
            n <= e <= i <= cs.len(),
            last_space_end(cs@, e as int) == last_space_end(cs@, n as int),
        decreases n,
    {
        n = n - 1;
    }
    proof {
        lemma_last_space_end_prefix(cs@, i as int, e as int);
    }
    n
}

proof fn lemma_last_space_end_prefix(s: Seq<char>, i: int, k: int)
    requires
        0 <= k <= i <= s.len(),
    ensures
        last_space_end(s.take(i), k) == last_space_end(s, k),
    decreases k,
{
    if k > 0 {
        lemma_last_space_end_prefix(s, i, k - 1);
    }
}

/// `word_start_right(cs, i)`.
pub fn right_word_start(cs: &Vec<char>, i: usize) -> (r: usize)
    requires
        i <= cs.len(),
    ensures
        r == word_start_right(cs@, i as int),
        i <= r <= cs.len(),
{
    let mut j = i;
    while j < cs.len() && !char_is_whitespace(cs[j])
        invariant
            i <= j <= cs.len(),
            skip_non_space(cs@, i as int) == skip_non_space(cs@, j as int),
        decreases cs.len() - j,
    {
        j = j + 1;
    }
    let mut k = j;
    while k < cs.len() && char_is_whitespace(cs[k])
        invariant
            j <= k <= cs.len(),
            skip_space(cs@, j as int) == skip_space(cs@, k as int),
        decreases cs.len() - k,
    {
        k = k + 1;
    }
    k
}

/// `char_is_alphanumeric(c) || c == '_'`.
pub fn word_char(c: char) -> (r: bool)
    ensures
        r == is_word_char(c),
{
    char_is_alphanumeric(c) || c == '_'
}

/// `word_span(cs, i)` for a non-empty `cs`.
pub fn word_span_at(cs: &Vec<char>, i: usize) -> (r: (usize, usize))
    requires
        cs.len() > 0,
    ensures
        r.0 as int == word_span(cs@, i as int).0,
        r.1 as int == word_span(cs@, i as int).1,
        r.0 < r.1 <= cs.len(),
{
    let p = if i < cs.len() { i } else { cs.len() - 1 };
    if !word_char(cs[p]) {
        return (p, p + 1);
    }
    let mut end = p;
    while end < cs.len() && word_char(cs[end])
        invariant
            p <= end <= cs.len(),
            word_run_end(cs@, p as int) == word_run_end(cs@, end as int),
        decreases cs.len() - end,
    {
        end = end + 1;
    }
    let mut start = p;
    while start > 0 && word_char(cs[start - 1])
        invariant
            start <= p,
            p < cs.len(),
            word_run_start(cs@, p as int) == word_run_start(cs@, start as int),
        decreases start,
    {
        start = start - 1;
    }
    proof {
        lemma_word_run_bounds(cs@, p as int);
        assert(word_run_end(cs@, p as int) > p);
    }
    (start, end)
}

// ---------- the byte-offset functions the editor calls ----------

/// Character index at byte offset `b` of `s`; the character count when `b`
/// is at or past the end.
pub open spec fn char_at_byte(s: Seq<char>, b: int) -> int {
    if b >= byte_len(s) {
        s.len() as int
    } else {
        choose|i: int| 0 <= i <= s.len() && #[trigger] byte_len(s.take(i)) == b
    }
}

/// Character index of byte cursor `cursor`.
fn cursor_char_index(cs: &Vec<char>, total: usize, cursor: usize) -> (r: usize)
    requires
        total == byte_len(cs@),
        cursor >= total || on_boundary(cs@, cursor as int),
    ensures
        r <= cs.len(),
        r == char_at_byte(cs@, cursor as int),
{
    if cursor >= total {
        cs.len()
    } else {
        let k = char_index_of_byte(cs, cursor);
        proof {
            let c = choose|i: int| 0 <= i <= cs@.len() && #[trigger] byte_len(cs@.take(i)) == cursor;
            lemma_prefix_injective(cs@, c, k as int);
        }
        k
    }
}

/// Byte offset of the start of the word left of byte offset `cursor`
/// (Ctrl+Backspace, Ctrl+Left). A cursor past the end counts as the end.
pub fn word_boundary_left(text: &str, cursor: usize) -> (r: usize)
    requires
        cursor >= byte_len(text@) || on_boundary(text@, cursor as int),
    ensures
        r == byte_len(text@.take(word_start_left(text@, char_at_byte(text@, cursor as int)))),
{
    let cs = chars_of(text);
    let total = byte_length(text);
    let ci = cursor_char_index(&cs, total, cursor);
    let w = left_word_start(&cs, ci);
    proof {
        lemma_prefix_le(cs@, w as int, ci as int);
    }
    byte_offset(&cs, w)
}

/// Byte offset of the start of the next word right of byte offset `cursor`
/// (Ctrl+Delete, Ctrl+Right). A cursor past the end counts as the end.
pub fn word_boundary_right(text: &str, cursor: usize) -> (r: usize)
    requires
        cursor >= byte_len(text@) || on_boundary(text@, cursor as int),
    ensures
        r == byte_len(text@.take(word_start_right(text@, char_at_byte(text@, cursor as int)))),
{
    let cs = chars_of(text);
    let total = byte_length(text);
    let ci = cursor_char_index(&cs, total, cursor);
    let w = right_word_start(&cs, ci);
    proof {
        lemma_prefix_le(cs@, w as int, w as int);
    }
    byte_offset(&cs, w)
}

/// Byte range that a double-click at byte offset `cursor_byte` selects:
/// the run of alphanumerics and `_` around the character under the cursor,
/// or just that character when it is not a word character; `(0, 0)` for an
/// empty text.
pub fn word_range_at(text: &str, cursor_byte: usize) -> (r: (usize, usize))
    requires
        cursor_byte >= byte_len(text@) || on_boundary(text@, cursor_byte as int),
    ensures
        text@.len() == 0 ==> r == (0usize, 0usize),
        text@.len() > 0 ==> r.0 == byte_len(
            text@.take(word_span(text@, char_at_byte(text@, cursor_byte as int)).0),
        ) && r.1 == byte_len(text@.take(word_span(text@, char_at_byte(text@, cursor_byte as int)).1)),
{
    let cs = chars_of(text);
    if cs.len() == 0 {
        return (0, 0);
    }
    let total = byte_length(text);
    let ci = cursor_char_index(&cs, total, cursor_byte);
    let (a, b) = word_span_at(&cs, ci);
    proof {
        lemma_prefix_le(cs@, a as int, b as int);
    }
    let sb = byte_offset(&cs, a);
    let eb = byte_offset(&cs, b);
    (sb, eb)
}


// ---------- editor actions ----------

/// What Ctrl+Backspace (`forward == false`) or Ctrl+Delete removes from `s`
/// given the editor's selection (`range` = primary and secondary cursor, as
/// character indices), as (start, end, new cursor). A selection is removed
/// as a whole; otherwise the word before / after the cursor; with no cursor
/// the end of the text counts as the cursor.
pub open spec fn delete_plan(s: Seq<char>, range: Option<(usize, usize)>, forward: bool) -> (int, int, int) {
    match range {
        Some((p, q)) => {
            if p != q {
                let lo = if p < q { p } else { q };
                let hi = if p < q { q } else { p };
                (clamp(s, lo as int), clamp(s, hi as int), lo as int)
            } else {
                let c = clamp(s, p as int);
                if forward {
                    (c, word_start_right(s, c), p as int)
                } else {
                    (word_start_left(s, c), c, word_start_left(s, c))
                }
            }
        },
        None => {
            let c = s.len() as int;
            if forward {
                (c, c, c)
            } else {
                (word_start_left(s, c), c, word_start_left(s, c))
            }
        },
    }
}

/// Word motions go the way they say: the word start left of a cursor is
/// never right of it, and the word start right of it never left of it.
pub proof fn lemma_word_starts(s: Seq<char>, c: int)
    requires
        0 <= c <= s.len(),
    ensures
        0 <= word_start_left(s, c) <= c,
        c <= word_start_right(s, c) <= s.len(),
{
    crate::text::lemma_trim_end_len_bound(s.take(c));
    lemma_last_space_end_bound(s, trim_end_len(s.take(c)) as int);
    lemma_skip_non_space_bound(s, c);
    lemma_skip_space_bound(s, skip_non_space(s, c));
}

/// Ctrl+Backspace / Ctrl+Delete on the edit buffer: removes the span that
/// `delete_plan` gives and returns the new cursor (a character index).
pub fn word_delete(buf: &mut String, range: Option<(usize, usize)>, forward: bool) -> (cursor: usize)
    ensures
        ({
            let plan = delete_plan(old(buf)@, range, forward);
            &&& final(buf)@ == old(buf)@.take(plan.0) + old(buf)@.skip(plan.1)
            &&& cursor as int == plan.2
        }),
{
    let cs = chars_of(buf.as_str());
    let n = cs.len();
    let (a, b, c) = match range {
        Some((p, q)) => {
            if p != q {
                let lo = if p < q { p } else { q };
                let hi = if p < q { q } else { p };
                (if lo < n { lo } else { n }, if hi < n { hi } else { n }, lo)
            } else {
                let k = if p < n { p } else { n };
                if forward {
                    (k, right_word_start(&cs, k), p)
                } else {
                    let l = left_word_start(&cs, k);
                    (l, k, l)
                }
            }
        },
        None => {
            if forward {
                (n, n, n)
            } else {
                let l = left_word_start(&cs, n);
                (l, n, l)
            }
        },
    };
    if a < b {
        let mut out: Vec<char> = Vec::new();
        push_range(&mut out, &cs, 0, a);
        push_range(&mut out, &cs, b, n);
        assert(out@ =~= cs@.take(a as int) + cs@.skip(b as int));
        *buf = string_from_chars(&out);
    } else {
        assert(cs@.take(a as int) + cs@.skip(b as int) =~= cs@);
    }
    c
}

/// Where Ctrl+Left / Ctrl+Right moves the cursor: (new primary, new
/// secondary) character indices. The primary cursor goes to the previous /
/// next word start; the secondary stays put when extending the selection
/// (Shift held) and follows the primary otherwise.
pub open spec fn arrow_plan(s: Seq<char>, range: Option<(usize, usize)>, forward: bool, extend: bool) -> (int, int) {
    let (p, q) = match range {
        Some((p, q)) => (p as int, q as int),
        None => (s.len() as int, s.len() as int),
    };
    let c = clamp(s, p);
    let n = if forward { word_start_right(s, c) } else { word_start_left(s, c) };
    (n, if extend { q } else { n })
}

/// Ctrl+Left / Ctrl+Right (with Shift: `extend`) in the edit buffer `text`.
pub fn ctrl_arrow_target(text: &str, range: Option<(usize, usize)>, forward: bool, extend: bool) -> (r: (usize, usize))
    ensures
        r.0 as int == arrow_plan(text@, range, forward, extend).0,
        r.1 as int == arrow_plan(text@, range, forward, extend).1,
{
    let cs = chars_of(text);
    let n = cs.len();
    let (p, q) = match range {
        Some(pq) => pq,
        None => (n, n),
    };
    let k = if p < n { p } else { n };
    let t = if forward { right_word_start(&cs, k) } else { left_word_start(&cs, k) };
    (t, if extend { q } else { t })
}

/// Selection a double-click at character index `click` makes in `text`,
/// as (primary, secondary) = (end, start) character indices of `word_span`;
/// `(0, 0)` in an empty text.
pub fn double_click_selection(text: &str, click: usize) -> (r: (usize, usize))
    ensures
        text@.len() == 0 ==> r == (0usize, 0usize),
        text@.len() > 0 ==> r.0 as int == word_span(text@, clamp(text@, click as int)).1
            && r.1 as int == word_span(text@, clamp(text@, click as int)).0,
{
    let cs = chars_of(text);
    if cs.len() == 0 {
        return (0, 0);
    }
    let k = if click < cs.len() { click } else { cs.len() };
    let (a, b) = word_span_at(&cs, k);
    (b, a)
}

// ---------- what a word start is ----------

proof fn lemma_trim_end_shape(x: Seq<char>)
    ensures
        trim_end_len(x) <= x.len(),
        forall|j: int| trim_end_len(x) <= j < x.len() ==> is_space(#[trigger] x[j]),
        trim_end_len(x) == 0 || !is_space(x[trim_end_len(x) - 1]),
    decreases x.len(),
{
    if x.len() > 0 && is_space(x.last()) {
        lemma_trim_end_shape(x.drop_last());
        assert forall|j: int| trim_end_len(x) <= j < x.len() implies is_space(#[trigger] x[j]) by {
            if j < x.len() - 1 {
                assert(x[j] == x.drop_last()[j]);
            }
        }
        if trim_end_len(x) > 0 {
            assert(x[trim_end_len(x) - 1] == x.drop_last()[trim_end_len(x) - 1]);
        }
    }
}

proof fn lemma_last_space_end_shape(s: Seq<char>, n: int)
    requires
        0 <= n <= s.len(),
    ensures
        0 <= last_space_end(s, n) <= n,
        last_space_end(s, n) == 0 || is_space(s[last_space_end(s, n) - 1]),
        forall|j: int| last_space_end(s, n) <= j < n ==> !is_space(#[trigger] s[j]),
    decreases n,
{
    if n > 0 && !is_space(s[n - 1]) {
        lemma_last_space_end_shape(s, n - 1);
    }
}

/// The word start left of a cursor `c` (Ctrl+Backspace, Ctrl+Left) is the
/// start of the last run of non-whitespace before `c`, whitespace being
/// every character `char::is_whitespace` holds of (line feeds and tabs
/// too): it is 0 or follows whitespace; unless 0, it holds non-whitespace;
/// and between it and `c` whitespace comes only as the run just before `c`.
pub proof fn lemma_word_start_left_is_run_start(s: Seq<char>, c: int)
    requires
        0 <= c <= s.len(),
    ensures
        0 <= word_start_left(s, c) <= c,
        word_start_left(s, c) == 0 || is_space(s[word_start_left(s, c) - 1]),
        word_start_left(s, c) == 0 || (word_start_left(s, c) < c && !is_space(s[word_start_left(s, c)])),
        forall|j: int, k: int| word_start_left(s, c) <= j <= k < c && is_space(#[trigger] s[j]) ==> is_space(#[trigger] s[k]),
{
    let x = s.take(c);
    let e = trim_end_len(x) as int;
    lemma_trim_end_shape(x);
    lemma_last_space_end_shape(s, e);
    let w = word_start_left(s, c);
    assert(w == last_space_end(s, e));
    assert forall|j: int| e <= j < c implies is_space(#[trigger] s[j]) by {
        assert(s[j] == x[j]);
    }
    if e > 0 {
        assert(s[e - 1] == x[e - 1]);
    }
    if w > 0 {
        assert(w < e);
    }
}

proof fn lemma_skip_shapes(s: Seq<char>, i: int)
    requires
        0 <= i <= s.len(),
    ensures
        i <= skip_non_space(s, i) <= s.len(),
        forall|j: int| i <= j < skip_non_space(s, i) ==> !is_space(#[trigger] s[j]),
        skip_non_space(s, i) == s.len() || is_space(s[skip_non_space(s, i)]),
        i <= skip_space(s, i) <= s.len(),
        forall|j: int| i <= j < skip_space(s, i) ==> is_space(#[trigger] s[j]),
        skip_space(s, i) == s.len() || !is_space(s[skip_space(s, i)]),
    decreases s.len() - i,
{
    if i < s.len() {
        lemma_skip_shapes(s, i + 1);
    }
}

/// The word start right of a cursor `c` (Ctrl+Delete, Ctrl+Right) is the
/// next start of a run of non-whitespace after the run `c` is in: it is
/// the end of the text or holds non-whitespace; and between `c` and it
/// non-whitespace comes only as the run right at `c`.
pub proof fn lemma_word_start_right_is_next_run(s: Seq<char>, c: int)
    requires
        0 <= c <= s.len(),
    ensures
        c <= word_start_right(s, c) <= s.len(),
        word_start_right(s, c) == s.len() || !is_space(s[word_start_right(s, c)]),
        forall|j: int, k: int| c <= j <= k < word_start_right(s, c) && is_space(#[trigger] s[j]) ==> is_space(#[trigger] s[k]),
{
    lemma_skip_shapes(s, c);
    lemma_skip_shapes(s, skip_non_space(s, c));
}

} // verus!
