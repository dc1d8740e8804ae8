//! Text helpers: UTF-8 byte offsets of characters, whitespace, trimming,
//! truncation, decimal numbers.

use vstd::prelude::*;
use vstd::utf8::{encode_utf8, encode_scalar, char_is_scalar};

verus! {

// ---------- UTF-8 widths and byte offsets ----------

/// Bytes that `c` takes in UTF-8.
pub open spec fn utf8_width(c: char) -> nat {
    let v = c as u32;
    if v < 0x80 {
        1
    } else if v < 0x800 {
        2
    } else if v < 0x10000 {
        3
    } else {
        4
    }
}

/// Bytes that the characters `cs` take in UTF-8.
pub open spec fn byte_len(cs: Seq<char>) -> nat
    decreases cs.len(),
{
    if cs.len() == 0 {
        0
    } else {
        byte_len(cs.drop_last()) + utf8_width(cs.last())
    }
}

/// `b` is the byte offset of a character boundary of `cs`.
pub open spec fn on_boundary(cs: Seq<char>, b: int) -> bool {
    exists|i: int| 0 <= i <= cs.len() && #[trigger] byte_len(cs.take(i)) == b
}

pub proof fn lemma_byte_len_concat(a: Seq<char>, b: Seq<char>)
    ensures
        byte_len(a + b) == byte_len(a) + byte_len(b),
    decreases b.len(),
{
    if b.len() == 0 {
        assert(a + b =~= a);
    } else {
        assert((a + b).drop_last() =~= a + b.drop_last());
        lemma_byte_len_concat(a, b.drop_last());
    }
}

/// The byte length here is the length of the UTF-8 encoding, which is what
/// `str::len` returns.
pub proof fn lemma_byte_len_is_utf8_len(cs: Seq<char>)
    ensures
        byte_len(cs) == encode_utf8(cs).len(),
    decreases cs.len(),
{
    if cs.len() > 0 {
        lemma_byte_len_is_utf8_len(cs.drop_first());
        lemma_byte_len_concat(seq![cs[0]], cs.drop_first());
        assert(seq![cs[0]] + cs.drop_first() =~= cs);
        assert(seq![cs[0]].drop_last() =~= Seq::<char>::empty());
        char_is_scalar(cs[0]);
        let v = cs[0] as u32;
        assert(encode_scalar(v).len() == utf8_width(cs[0]));
        assert(encode_utf8(cs) == encode_scalar(v) + encode_utf8(cs.drop_first()));
        assert(byte_len(Seq::<char>::empty()) == 0);
        assert(seq![cs[0]].last() == cs[0]);
        assert(byte_len(seq![cs[0]]) == utf8_width(cs[0]));
        assert(byte_len(cs) == utf8_width(cs[0]) + byte_len(cs.drop_first()));
    }
}

/// Byte length of `s`, as the count of its characters' UTF-8 widths.
pub fn byte_length(s: &str) -> (r: usize)
    ensures
        r == byte_len(s@),
{
    proof {
        lemma_byte_len_is_utf8_len(s@);
    }
    let bytes = s.as_bytes();
    bytes.len()
}

pub proof fn lemma_prefix_step(cs: Seq<char>, i: int)
    requires
        0 <= i < cs.len(),
    ensures
        byte_len(cs.take(i + 1)) == byte_len(cs.take(i)) + utf8_width(cs[i]),
{
    assert(cs.take(i + 1).drop_last() =~= cs.take(i));
}

pub proof fn lemma_prefix_le(cs: Seq<char>, i: int, j: int)
    requires
        0 <= i <= j <= cs.len(),
    ensures
        byte_len(cs.take(i)) + (j - i) <= byte_len(cs.take(j)),
        byte_len(cs.take(j)) <= byte_len(cs),
    decreases j - i,
{
    if i < j {
        lemma_prefix_step(cs, j - 1);
        lemma_prefix_le(cs, i, j - 1);
    }
    lemma_byte_len_concat(cs.take(j), cs.skip(j));
    assert(cs.take(j) + cs.skip(j) =~= cs);
}

/// Distinct character indices have distinct byte offsets.
pub proof fn lemma_prefix_injective(cs: Seq<char>, i: int, j: int)
    requires
        0 <= i <= cs.len(),
        0 <= j <= cs.len(),
        byte_len(cs.take(i)) == byte_len(cs.take(j)),
    ensures
        i == j,
{
    if i < j {
        lemma_prefix_le(cs, i, j);
    } else if j < i {
        lemma_prefix_le(cs, j, i);
    }
}

/// Byte length of `c` in UTF-8.
pub fn char_width(c: char) -> (r: usize)
    ensures
        r == utf8_width(c),
{
    let v = c as u32;
    if v < 0x80 {
        1
    } else if v < 0x800 {
        2
    } else if v < 0x10000 {
        3
    } else {
        4
    }
}

/// Byte offset of character index `i` of `cs`.
pub fn byte_offset(cs: &Vec<char>, i: usize) -> (r: usize)
    requires
        i <= cs.len(),
        byte_len(cs@) <= usize::MAX,
    ensures
        r == byte_len(cs@.take(i as int)),
{
    let mut k: usize = 0;
    let mut b: usize = 0;
    while k < i
        invariant
            k <= i <= cs.len(),
            byte_len(cs@) <= usize::MAX,
            b == byte_len(cs@.take(k as int)),
        decreases i - k,
    {
        proof {
            lemma_prefix_step(cs@, k as int);
            lemma_prefix_le(cs@, k + 1, k + 1);
        }
        b = b + char_width(cs[k]);
        k = k + 1;
    }
    b
}

/// Character index whose byte offset in `cs` is `b`.
pub fn char_index_of_byte(cs: &Vec<char>, b: usize) -> (r: usize)
    requires
        on_boundary(cs@, b as int),
    ensures
        r <= cs.len(),
        byte_len(cs@.take(r as int)) == b,
{
    let ghost target = choose|i: int| 0 <= i <= cs@.len() && #[trigger] byte_len(cs@.take(i)) == b;
    let mut k: usize = 0;
    let mut acc: usize = 0;
    while acc < b
        invariant
            0 <= target <= cs.len(),
            byte_len(cs@.take(target)) == b,
            k <= target,
            acc == byte_len(cs@.take(k as int)),
        decreases target - k,
    {
        proof {
            if k == target {
                assert(false);
            }
            lemma_prefix_step(cs@, k as int);
            lemma_prefix_le(cs@, k + 1, target);
        }
        acc = acc + char_width(cs[k]);
        k = k + 1;
    }
    proof {
        lemma_prefix_le(cs@, k as int, target);
        if k < target {
            lemma_prefix_le(cs@, k + 1, target);
            lemma_prefix_step(cs@, k as int);
        }
    }
    k
}

// ---------- strings and character vectors ----------

/// The characters of `s`.
pub fn chars_of(s: &str) -> (r: Vec<char>)
    ensures
        r@ == s@,
{
    let mut out: Vec<char> = Vec::new();
    for c in it: s.chars()
        invariant
            out@ == it.seq().take(it.index() as int),
    {
        out.push(c);
    }
    out
}

/// A `String` holding the characters `cs` (std's `FromIterator<char>` for
/// `String`, which collects the characters in order).
#[verifier::external_body]
pub(crate) fn string_from_chars(cs: &Vec<char>) -> (r: String)
    ensures
        r@ == cs@,
{
    cs.iter().collect()
}

/// Appends the characters of `s` to `out`.
pub fn push_str(out: &mut Vec<char>, s: &str)
    ensures
        final(out)@ == old(out)@ + s@,
{
    let cs = chars_of(s);
    let mut i: usize = 0;
    while i < cs.len()
        invariant
            i <= cs.len(),
            cs@ == s@,
            out@ == old(out)@ + cs@.take(i as int),
        decreases cs.len() - i,
    {
        out.push(cs[i]);
        i = i + 1;
        assert(cs@.take(i as int) =~= cs@.take(i - 1).push(cs@[i - 1]));
    }
    assert(cs@.take(cs.len() as int) =~= cs@);
}

/// Appends `cs[from..to]` to `out`.
pub fn push_range(out: &mut Vec<char>, cs: &Vec<char>, from: usize, to: usize)
    requires
        from <= to <= cs.len(),
    ensures
        final(out)@ == old(out)@ + cs@.subrange(from as int, to as int),
{
    let mut i = from;
    while i < to
        invariant
            from <= i <= to <= cs.len(),
            out@ == old(out)@ + cs@.subrange(from as int, i as int),
        decreases to - i,
    {
        out.push(cs[i]);
        i = i + 1;
        assert(cs@.subrange(from as int, i as int) =~= cs@.subrange(from as int, i - 1).push(cs@[i - 1]));
    }
}

/// `cs[from..to]` as a `String`.
pub fn string_of_range(cs: &Vec<char>, from: usize, to: usize) -> (r: String)
    requires
        from <= to <= cs.len(),
    ensures
        r@ == cs@.subrange(from as int, to as int),
{
    let mut out: Vec<char> = Vec::new();
    push_range(&mut out, cs, from, to);
    assert(out@ =~= cs@.subrange(from as int, to as int));
    string_from_chars(&out)
}

// ---------- character classes ----------

/// Unicode `White_Space` characters (PropList.txt): what `char::is_whitespace`
/// tests.
pub open spec fn is_space(c: char) -> bool {
    let v = c as u32;
    ||| 0x09 <= v <= 0x0D
    ||| v == 0x20
    ||| v == 0x85
    ||| v == 0xA0
    ||| v == 0x1680
    ||| 0x2000 <= v <= 0x200A
    ||| v == 0x2028
    ||| v == 0x2029
    ||| v == 0x202F
    ||| v == 0x205F
    ||| v == 0x3000
}

/// Whether `c` is whitespace (`char::is_whitespace`): one of the
/// characters `is_space` lists.
pub fn char_is_whitespace(c: char) -> (r: bool)
    ensures
        r == is_space(c),
{
    let v = c as u32;
    (0x09 <= v && v <= 0x0D) || v == 0x20 || v == 0x85 || v == 0xA0 || v == 0x1680
        || (0x2000 <= v && v <= 0x200A) || v == 0x2028 || v == 0x2029 || v == 0x202F || v == 0x205F
        || v == 0x3000
}

/// Whether `char::is_alphanumeric` holds of a character (Unicode
/// `Alphabetic` or `Numeric`).
pub uninterp spec fn unicode_alphanumeric(c: char) -> bool;

/// `char::is_alphanumeric` (std): whether `c` is alphabetic or numeric in
/// Unicode. The result is named `unicode_alphanumeric` of `c`. Of ASCII
/// characters it holds exactly for the letters and digits (std's
/// `is_alphabetic` and `is_numeric` are the ASCII letters and digits
/// there); the Unicode tables for other characters are not stated.
#[verifier::external_body]
pub(crate) fn char_is_alphanumeric(c: char) -> (r: bool)
    ensures
        r == unicode_alphanumeric(c),
        (c as u32) < 128 ==> (r <==> (('a' <= c && c <= 'z') || ('A' <= c && c <= 'Z') || ('0' <= c && c <= '9'))),
{
    c.is_alphanumeric()
}

/// Every character of `s` is whitespace (`s.trim().is_empty()`).
pub open spec fn all_space(s: Seq<char>) -> bool {
    forall|i: int| 0 <= i < s.len() ==> is_space(#[trigger] s[i])
}

pub fn is_blank(cs: &Vec<char>) -> (r: bool)
    ensures
        r == all_space(cs@),
{
    let mut i: usize = 0;
    while i < cs.len()
        invariant
            i <= cs.len(),
            forall|j: int| 0 <= j < i ==> is_space(#[trigger] cs@[j]),
        decreases cs.len() - i,
    {
        if !char_is_whitespace(cs[i]) {
            return false;
        }
        i = i + 1;
    }
    true
}

/// `s.trim().is_empty()`.
pub fn str_is_blank(s: &str) -> (r: bool)
    ensures
        r == all_space(s@),
{
    let cs = chars_of(s);
    is_blank(&cs)
}

/// Length of `s` once trailing whitespace is dropped.
pub open spec fn trim_end_len(s: Seq<char>) -> nat
    decreases s.len(),
{
    if s.len() == 0 {
        0
    } else if is_space(s.last()) {
        trim_end_len(s.drop_last())
    } else {
        s.len()
    }
}

/// Number of leading whitespace characters of `s`.
pub open spec fn leading_space(s: Seq<char>) -> nat
    decreases s.len(),
{
    if s.len() == 0 {
        0
    } else if is_space(s[0]) {
        1 + leading_space(s.drop_first())
    } else {
        0
    }
}

/// `str::trim`: `s` without leading and trailing whitespace.
pub open spec fn trimmed(s: Seq<char>) -> Seq<char> {
    let e = trim_end_len(s) as int;
    s.subrange(leading_space(s.take(e)) as int, e)
}

pub proof fn lemma_trim_end_len_bound(s: Seq<char>)
    ensures
        trim_end_len(s) <= s.len(),
    decreases s.len(),
{
    if s.len() > 0 {
        lemma_trim_end_len_bound(s.drop_last());
    }
}

pub proof fn lemma_leading_space_bound(s: Seq<char>)
    ensures
        leading_space(s) <= s.len(),
    decreases s.len(),
{
    if s.len() > 0 {
        lemma_leading_space_bound(s.drop_first());
    }
}

/// `trim_end_len(cs[..n])`.
pub fn trim_end_index(cs: &Vec<char>, n: usize) -> (r: usize)
    requires
        n <= cs.len(),
    ensures
        r == trim_end_len(cs@.take(n as int)),
        r <= n,
{
    let mut e = n;
    while e > 0 && char_is_whitespace(cs[e - 1])
        invariant
            e <= n <= cs.len(),
            trim_end_len(cs@.take(n as int)) == trim_end_len(cs@.take(e as int)),
        decreases e,
    {
        assert(cs@.take(e as int).drop_last() =~= cs@.take(e - 1));
        e = e - 1;
    }
    proof {
        if e > 0 {
            assert(cs@.take(e as int).last() == cs@[e - 1]);
        }
    }
    e
}

/// Start of `cs[from..to]` once its leading whitespace is dropped.
pub fn trim_start_index(cs: &Vec<char>, from: usize, to: usize) -> (r: usize)
    requires
        from <= to <= cs.len(),
    ensures
        r == from + leading_space(cs@.subrange(from as int, to as int)),
        r <= to,
{
    let mut b = from;
    while b < to && char_is_whitespace(cs[b])
        invariant
            from <= b <= to <= cs.len(),
            from + leading_space(cs@.subrange(from as int, to as int)) == b + leading_space(
                cs@.subrange(b as int, to as int),
            ),
        decreases to - b,
    {
        assert(cs@.subrange(b as int, to as int).drop_first() =~= cs@.subrange(b + 1, to as int));
        b = b + 1;
    }
    b
}

/// `str::trim` on characters: the bounds of the trimmed part of `cs`.
pub fn trim_bounds(cs: &Vec<char>) -> (r: (usize, usize))
    ensures
        r.0 <= r.1 <= cs.len(),
        cs@.subrange(r.0 as int, r.1 as int) == trimmed(cs@),
{
    let e = trim_end_index(cs, cs.len());
    assert(cs@.take(cs.len() as int) =~= cs@);
    let b = trim_start_index(cs, 0, e);
    assert(cs@.subrange(0, e as int) =~= cs@.take(e as int));
    (b, e)
}

// ---------- truncation ----------

/// The first `max` characters of `s` followed by `...`, or `s` itself when
/// it has at most `max` characters.
pub open spec fn truncated(s: Seq<char>, max: nat) -> Seq<char> {
    if s.len() <= max {
        s
    } else {
        s.take(max as int) + seq!['.', '.', '.']
    }
}

pub fn truncate_vec(cs: &Vec<char>, max: usize) -> (r: Vec<char>)
    ensures
        r@ == truncated(cs@, max as nat),
{
    if cs.len() <= max {
        let mut out: Vec<char> = Vec::new();
        push_range(&mut out, cs, 0, cs.len());
        assert(out@ =~= cs@);
        return out;
    }
    let mut out: Vec<char> = Vec::new();
    push_range(&mut out, cs, 0, max);
    out.push('.');
    out.push('.');
    out.push('.');
    assert(out@ =~= cs@.take(max as int) + seq!['.', '.', '.']);
    out
}

/// `s` cut to `max` characters, with `...` appended when anything was cut.
pub fn truncate_chars(s: &str, max: usize) -> (r: String)
    ensures
        r@ == truncated(s@, max as nat),
{
    let cs = chars_of(s);
    let out = truncate_vec(&cs, max);
    string_from_chars(&out)
}

/// `s` with each line feed turned into a space.
pub open spec fn one_line(s: Seq<char>) -> Seq<char> {
    s.map_values(|c: char| if c == '\n' { ' ' } else { c })
}

/// A preview is one line: it holds no line feed.
pub proof fn lemma_summary_is_one_line(s: Seq<char>)
    ensures
        forall|i: int| 0 <= i < truncated(one_line(s), 200).len() ==> #[trigger] truncated(one_line(s), 200)[i] != '\n',
{
    let t = truncated(one_line(s), 200);
    assert forall|i: int| 0 <= i < t.len() implies #[trigger] t[i] != '\n' by {
        if one_line(s).len() > 200 && i >= 200 {
            assert(t[i] == '.');
        } else {
            assert(t[i] == one_line(s)[i]);
        }
    }
}

/// One-line preview of `s`: line feeds become spaces, then the result is cut
/// to 200 characters.
pub fn summarize(s: &str) -> (r: String)
    ensures
        r@ == truncated(one_line(s@), 200),
{
    let cs = chars_of(s);
    let mut flat: Vec<char> = Vec::new();
    let mut i: usize = 0;
    while i < cs.len()
        invariant
            i <= cs.len(),
            cs@ == s@,
            flat@ == one_line(cs@.take(i as int)),
        decreases cs.len() - i,
    {
        let c = cs[i];
        flat.push(if c == '\n' { ' ' } else { c });
        i = i + 1;
        assert(one_line(cs@.take(i as int)) =~= one_line(cs@.take(i - 1)).push(
            if c == '\n' { ' ' } else { c },
        ));
    }
    assert(cs@.take(cs.len() as int) =~= cs@);
    let out = truncate_vec(&flat, 200);
    string_from_chars(&out)
}

// ---------- project names ----------

/// What follows the last `-` of `s` (all of `s` when it has none).
pub open spec fn after_last_dash(s: Seq<char>) -> Seq<char>
    decreases s.len(),
{
    if s.len() == 0 {
        s
    } else if s.last() == '-' {
        Seq::empty()
    } else {
        after_last_dash(s.drop_last()).push(s.last())
    }
}

/// Short display name of a project folder: the part after the last `-`, or
/// the whole folder name when that part is empty.
pub fn short_project_name(folder: &str) -> (r: String)
    ensures
        r@ == (if after_last_dash(folder@).len() == 0 { folder@ } else { after_last_dash(folder@) }),
{
    let cs = chars_of(folder);
    let mut i = cs.len();
    assert(cs@.take(i as int) =~= cs@);
    assert(cs@.skip(i as int) =~= Seq::<char>::empty());
    while i > 0 && cs[i - 1] != '-'
        invariant
            i <= cs.len(),
            after_last_dash(cs@) == after_last_dash(cs@.take(i as int)) + cs@.skip(i as int),
        decreases i,
    {
        assert(cs@.take(i as int).drop_last() =~= cs@.take(i - 1));
        assert(cs@.skip(i - 1) =~= seq![cs@[i - 1]] + cs@.skip(i as int));
        i = i - 1;
    }
    assert(after_last_dash(cs@.take(i as int)) =~= Seq::<char>::empty());
    assert(after_last_dash(cs@) =~= cs@.skip(i as int));
    if i == cs.len() {
        string_from_chars(&cs)
    } else {
        string_of_range(&cs, i, cs.len())
    }
}

// ---------- char index to byte offset ----------

/// Byte offset of character `char_idx` of `text`, or `text.len()` when the
/// text has fewer characters.
pub fn char_idx_to_byte(text: &str, char_idx: usize) -> (r: usize)
    ensures
        r == byte_len(text@.take(if char_idx < text@.len() { char_idx as int } else { text@.len() as int })),
        r <= byte_len(text@),
{
    let cs = chars_of(text);
    let total = byte_length(text);
    let n = if char_idx < cs.len() { char_idx } else { cs.len() };
    proof {
        lemma_prefix_le(cs@, n as int, n as int);
    }
    byte_offset(&cs, n)
}

// ---------- decimal numbers ----------

pub open spec fn digit_char(d: nat) -> char {
    if d == 0 { '0' } else if d == 1 { '1' } else if d == 2 { '2' } else if d == 3 { '3' }
    else if d == 4 { '4' } else if d == 5 { '5' } else if d == 6 { '6' } else if d == 7 { '7' }
    else if d == 8 { '8' } else { '9' }
}

/// Decimal digits of `n`, as `{}` writes an unsigned integer.
pub open spec fn decimal(n: nat) -> Seq<char>
    decreases n,
{
    if n < 10 {
        seq![digit_char(n)]
    } else {
        decimal(n / 10).push(digit_char(n % 10))
    }
}

/// `s` with `'0'`s put in front until it is `width` long (`{:0width}` of a
/// non-negative number).
pub open spec fn zero_padded(s: Seq<char>, width: nat) -> Seq<char> {
    if s.len() >= width {
        s
    } else {
        Seq::new((width - s.len()) as nat, |i: int| '0') + s
    }
}

fn digit(d: u64) -> (c: char)
    requires
        d < 10,
    ensures
        c == digit_char(d as nat),
{
    if d == 0 { '0' } else if d == 1 { '1' } else if d == 2 { '2' } else if d == 3 { '3' }
    else if d == 4 { '4' } else if d == 5 { '5' } else if d == 6 { '6' } else if d == 7 { '7' }
    else if d == 8 { '8' } else { '9' }
}

pub proof fn lemma_decimal_len(n: nat)
    ensures
        1 <= decimal(n).len(),
        n < 10 ==> decimal(n).len() == 1,
        10 <= n < 100 ==> decimal(n).len() == 2,
        100 <= n < 1000 ==> decimal(n).len() == 3,
        1000 <= n < 10000 ==> decimal(n).len() == 4,
    decreases n,
{
    if n >= 10 {
        lemma_decimal_len(n / 10);
    }
}

/// Appends the decimal digits of `n` to `out`.
pub fn push_decimal(out: &mut Vec<char>, n: u64)
    ensures
        final(out)@ == old(out)@ + decimal(n as nat),
    decreases n,
{
    if n >= 10 {
        push_decimal(out, n / 10);
    }
    out.push(digit(n % 10));
    proof {
        if n >= 10 {
            assert(decimal(n as nat) == decimal((n / 10) as nat).push(digit_char((n % 10) as nat)));
        }
    }
    assert(out@ =~= old(out)@ + decimal(n as nat));
}

/// Appends `n` zero-padded to `width` digits.
pub fn push_padded(out: &mut Vec<char>, n: u64, width: usize)
    ensures
        final(out)@ == old(out)@ + zero_padded(decimal(n as nat), width as nat),
{
    let mut digits: Vec<char> = Vec::new();
    push_decimal(&mut digits, n);
    assert(digits@ =~= decimal(n as nat));
    let mut k = digits.len();
    let ghost start = out@;
    while k < width
        invariant
            digits.len() <= k <= width || (k == digits.len() && k >= width),
            out@ == start + Seq::new((k - digits.len()) as nat, |i: int| '0'),
        decreases width - k,
    {
        out.push('0');
        k = k + 1;
        assert(out@ =~= start + Seq::new((k - digits.len()) as nat, |i: int| '0'));
    }
    let mut i: usize = 0;
    let ghost mid = out@;
    while i < digits.len()
        invariant
            i <= digits.len(),
            out@ == mid + digits@.take(i as int),
        decreases digits.len() - i,
    {
        out.push(digits[i]);
        i = i + 1;
        assert(digits@.take(i as int) =~= digits@.take(i - 1).push(digits@[i - 1]));
    }
    assert(digits@.take(digits.len() as int) =~= digits@);
    if digits.len() >= width {
        assert(out@ =~= old(out)@ + zero_padded(decimal(n as nat), width as nat));
    } else {
        assert(out@ =~= old(out)@ + zero_padded(decimal(n as nat), width as nat));
    }
}

} // verus!
