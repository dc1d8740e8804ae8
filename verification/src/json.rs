//! JSON values of session records, with the lookups the editor makes and
//! the compact text a record is written back as.
//!
//! Objects keep their members in key order, as records read from a file
//! come (serde_json's default map is ordered by key); a new key is inserted
//! at its place in that order.

use vstd::prelude::*;
use serde_json::Value;
use crate::text::{chars_of, string_from_chars, push_str};

verus! {

/// One `"key": value` member of an object.
pub struct Member {
    pub key: String,
    pub value: Json,
}

/// A JSON value. A number keeps the text it is written as.
pub enum Json {
    Null,
    Bool(bool),
    Number(String),
    Str(String),
    Array(Vec<Json>),
    Object(Vec<Member>),
}

// ---------- the model: JSON values over sequences ----------

/// A JSON value with its strings as character sequences and its arrays and
/// objects as sequences.
pub enum JsonV {
    Null,
    Bool(bool),
    Number(Seq<char>),
    Str(Seq<char>),
    Array(Seq<JsonV>),
    Object(Seq<(Seq<char>, JsonV)>),
}

pub open spec fn json_view(j: Json) -> JsonV
    decreases j,
{
    match j {
        Json::Null => JsonV::Null,
        Json::Bool(b) => JsonV::Bool(b),
        Json::Number(n) => JsonV::Number(n@),
        Json::Str(s) => JsonV::Str(s@),
        Json::Array(items) => JsonV::Array(items_view(items@)),
        Json::Object(ms) => JsonV::Object(members_view(ms@)),
    }
}

pub open spec fn items_view(items: Seq<Json>) -> Seq<JsonV>
    decreases items,
{
    if items.len() == 0 {
        Seq::empty()
    } else {
        items_view(items.drop_last()).push(json_view(items.last()))
    }
}

pub open spec fn members_view(ms: Seq<Member>) -> Seq<(Seq<char>, JsonV)>
    decreases ms,
{
    if ms.len() == 0 {
        Seq::empty()
    } else {
        members_view(ms.drop_last()).push((ms.last().key@, json_view(ms.last().value)))
    }
}

impl View for Json {
    type V = JsonV;

    open spec fn view(&self) -> JsonV {
        json_view(*self)
    }
}

pub proof fn lemma_items_view(items: Seq<Json>)
    ensures
        items_view(items).len() == items.len(),
        forall|i: int| 0 <= i < items.len() ==> #[trigger] items_view(items)[i] == json_view(items[i]),
    decreases items.len(),
{
    if items.len() > 0 {
        lemma_items_view(items.drop_last());
    }
}

pub proof fn lemma_members_view(ms: Seq<Member>)
    ensures
        members_view(ms).len() == ms.len(),
        forall|i: int| 0 <= i < ms.len() ==> #[trigger] members_view(ms)[i] == (ms[i].key@, json_view(ms[i].value)),
    decreases ms.len(),
{
    if ms.len() > 0 {
        lemma_members_view(ms.drop_last());
    }
}

// ---------- reading a line ----------

/// The value `serde_json::from_str::<serde_json::Value>` reads from `line`,
/// as a `JsonV`; `None` where `line` is not one JSON value.
pub uninterp spec fn json_parse(line: Seq<char>) -> Option<JsonV>;

/// `serde_json::from_str::<serde_json::Value>`: parses `line` as one JSON
/// value and hands it over variant by variant; a nested value is handed over
/// by reading its own compact text (serde_json's `to_string`) the same way.
/// The result is named `json_parse` of the line; nothing more is claimed.
#[verifier::external_body]
pub(crate) fn parse_json(line: &str) -> (r: Option<Json>)
    ensures
        crate::session::rec_view(r) == json_parse(line@),
{
    Some(match serde_json::from_str::<Value>(line).ok()? {
        Value::Null => Json::Null,
        Value::Bool(b) => Json::Bool(b),
        Value::Number(n) => Json::Number(n.to_string()),
        Value::String(s) => Json::Str(s),
        Value::Array(a) => Json::Array(a.iter().map(|x| parse_json(&x.to_string())).collect::<Option<_>>()?),
        Value::Object(m) => Json::Object(
            m.iter().map(|(k, x)| Some(Member { key: k.clone(), value: parse_json(&x.to_string())? })).collect::<Option<_>>()?,
        ),
    })
}

// ---------- lookups ----------

/// Value of the first member of `ms` named `key`.
pub open spec fn lookup(ms: Seq<(Seq<char>, JsonV)>, key: Seq<char>) -> Option<JsonV>
    decreases ms.len(),
{
    if ms.len() == 0 {
        None
    } else if ms[0].0 == key {
        Some(ms[0].1)
    } else {
        lookup(ms.drop_first(), key)
    }
}

/// `value.get(key)`: the member `key` of an object; `None` for anything else.
pub open spec fn field(j: JsonV, key: Seq<char>) -> Option<JsonV> {
    match j {
        JsonV::Object(ms) => lookup(ms, key),
        _ => None,
    }
}

/// `value.as_str()` of an optional value.
pub open spec fn as_str(j: Option<JsonV>) -> Option<Seq<char>> {
    match j {
        Some(JsonV::Str(s)) => Some(s),
        _ => None,
    }
}

/// `value.get(key).and_then(Value::as_str)`.
pub open spec fn str_field(j: JsonV, key: Seq<char>) -> Option<Seq<char>> {
    as_str(field(j, key))
}

/// `value.get(key).and_then(Value::as_bool)`.
pub open spec fn bool_field(j: JsonV, key: Seq<char>) -> Option<bool> {
    match field(j, key) {
        Some(JsonV::Bool(b)) => Some(b),
        _ => None,
    }
}

/// Whether two strings hold the same characters.
pub fn same_text(a: &str, b: &str) -> (r: bool)
    ensures
        r == (a@ == b@),
{
    let x = chars_of(a);
    let y = chars_of(b);
    if x.len() != y.len() {
        return false;
    }
    let mut i: usize = 0;
    while i < x.len()
        invariant
            i <= x.len() == y.len(),
            x@ == a@,
            y@ == b@,
            forall|k: int| 0 <= k < i ==> x@[k] == y@[k],
        decreases x.len() - i,
    {
        if x[i] != y[i] {
            assert(x@[i as int] != y@[i as int]);
            return false;
        }
        i = i + 1;
    }
    assert(x@ =~= y@);
    true
}

/// Index of the first member of `ms` named `key`.
fn member_index(ms: &Vec<Member>, key: &str) -> (r: Option<usize>)
    ensures
        r matches Some(i) ==> i < ms.len() && ms@[i as int].key@ == key@ && lookup(members_view(ms@), key@)
            == Some(json_view(ms@[i as int].value)) && forall|k: int| 0 <= k < i ==> ms@[k].key@ != key@,
        r is None ==> lookup(members_view(ms@), key@) is None,
{
    let ghost mv = members_view(ms@);
    proof {
        lemma_members_view(ms@);
        assert(mv.skip(0) =~= mv);
    }
    let mut i: usize = 0;
    while i < ms.len()
        invariant
            i <= ms.len(),
            mv == members_view(ms@),
            mv.len() == ms.len(),
            forall|k: int| 0 <= k < ms.len() ==> #[trigger] mv[k] == (ms@[k].key@, json_view(ms@[k].value)),
            lookup(mv, key@) == lookup(mv.skip(i as int), key@),
            forall|k: int| 0 <= k < i ==> ms@[k].key@ != key@,
        decreases ms.len() - i,
    {
        if same_text(ms[i].key.as_str(), key) {
            assert(mv.skip(i as int)[0] == mv[i as int]);
            return Some(i);
        }
        assert(mv.skip(i as int)[0] == mv[i as int]);
        assert(mv.skip(i as int).drop_first() =~= mv.skip(i + 1));
        i = i + 1;
    }
    None
}

impl Json {
    /// `value.get(key)`.
    pub fn get(&self, key: &str) -> (r: Option<&Json>)
        ensures
            r matches Some(v) ==> field(self@, key@) == Some(v@),
            r is None ==> field(self@, key@) is None,
    {
        match self {
            Json::Object(ms) => {
                match member_index(ms, key) {
                    Some(i) => Some(&ms[i].value),
                    None => None,
                }
            },
            _ => None,
        }
    }

    /// `value.get(key).and_then(Value::as_str)`.
    pub fn get_str(&self, key: &str) -> (r: Option<&String>)
        ensures
            r matches Some(s) ==> str_field(self@, key@) == Some(s@),
            r is None ==> str_field(self@, key@) is None,
    {
        match self.get(key) {
            Some(Json::Str(s)) => Some(s),
            _ => None,
        }
    }

    /// `value.get(key).and_then(Value::as_bool)`.
    pub fn get_bool(&self, key: &str) -> (r: Option<bool>)
        ensures
            r == bool_field(self@, key@),
    {
        match self.get(key) {
            Some(Json::Bool(b)) => Some(*b),
            _ => None,
        }
    }
}

// ---------- compact text ----------

pub open spec fn hex_digit(n: nat) -> char {
    if n < 10 {
        crate::text::digit_char(n)
    } else if n == 10 {
        'a'
    } else if n == 11 {
        'b'
    } else if n == 12 {
        'c'
    } else if n == 13 {
        'd'
    } else if n == 14 {
        'e'
    } else {
        'f'
    }
}

/// How a character is written inside a JSON string: `"` and `\` and
/// control characters are escaped (short forms where JSON has them,
/// `\u00XX` with lower-case hex otherwise); everything else is written as is.
pub open spec fn escaped_char(c: char) -> Seq<char> {
    let v = c as u32;
    if c == '"' {
        seq!['\\', '"']
    } else if c == '\\' {
        seq!['\\', '\\']
    } else if v == 8 {
        seq!['\\', 'b']
    } else if v == 12 {
        seq!['\\', 'f']
    } else if c == '\n' {
        seq!['\\', 'n']
    } else if c == '\r' {
        seq!['\\', 'r']
    } else if c == '\t' {
        seq!['\\', 't']
    } else if v < 0x20 {
        seq!['\\', 'u', '0', '0', hex_digit((v / 16) as nat), hex_digit((v % 16) as nat)]
    } else {
        seq![c]
    }
}

pub open spec fn escaped(s: Seq<char>) -> Seq<char>
    decreases s.len(),
{
    if s.len() == 0 {
        Seq::empty()
    } else {
        escaped(s.drop_last()) + escaped_char(s.last())
    }
}

/// A JSON string literal holding `s`.
pub open spec fn quoted(s: Seq<char>) -> Seq<char> {
    seq!['"'] + escaped(s) + seq!['"']
}

/// Compact JSON text of `j` (no whitespace), as `serde_json::to_string`
/// writes it.
pub open spec fn json_text(j: JsonV) -> Seq<char>
    decreases j,
{
    match j {
        JsonV::Null => seq!['n', 'u', 'l', 'l'],
        JsonV::Bool(b) => if b { seq!['t', 'r', 'u', 'e'] } else { seq!['f', 'a', 'l', 's', 'e'] },
        JsonV::Number(n) => n,
        JsonV::Str(s) => quoted(s),
        JsonV::Array(items) => seq!['['] + items_text(items) + seq![']'],
        JsonV::Object(ms) => seq!['{'] + members_text(ms) + seq!['}'],
    }
}

/// Items separated by commas.
pub open spec fn items_text(items: Seq<JsonV>) -> Seq<char>
    decreases items,
{
    if items.len() == 0 {
        Seq::empty()
    } else if items.len() == 1 {
        json_text(items[0])
    } else {
        items_text(items.drop_last()) + seq![','] + json_text(items.last())
    }
}

/// Members separated by commas, each as `"key":value`.
pub open spec fn members_text(ms: Seq<(Seq<char>, JsonV)>) -> Seq<char>
    decreases ms,
{
    if ms.len() == 0 {
        Seq::empty()
    } else if ms.len() == 1 {
        quoted(ms[0].0) + seq![':'] + json_text(ms[0].1)
    } else {
        members_text(ms.drop_last()) + seq![','] + quoted(ms.last().0) + seq![':'] + json_text(ms.last().1)
    }
}

/// Every number in `j` is written without a line feed (as any number
/// text that a JSON parser produced is).
pub open spec fn plain_numbers(j: JsonV) -> bool
    decreases j,
{
    match j {
        JsonV::Number(n) => crate::lines::single_line(n),
        JsonV::Array(items) => items_plain(items),
        JsonV::Object(ms) => members_plain(ms),
        _ => true,
    }
}

pub open spec fn items_plain(items: Seq<JsonV>) -> bool
    decreases items,
{
    if items.len() == 0 {
        true
    } else {
        items_plain(items.drop_last()) && plain_numbers(items.last())
    }
}

pub open spec fn members_plain(ms: Seq<(Seq<char>, JsonV)>) -> bool
    decreases ms,
{
    if ms.len() == 0 {
        true
    } else {
        members_plain(ms.drop_last()) && plain_numbers(ms.last().1)
    }
}

proof fn lemma_concat_single_line(a: Seq<char>, b: Seq<char>)
    requires
        crate::lines::single_line(a),
        crate::lines::single_line(b),
    ensures
        crate::lines::single_line(a + b),
{
    assert forall|i: int| 0 <= i < (a + b).len() implies (a + b)[i] != '\n' by {
        if i < a.len() {
            assert((a + b)[i] == a[i]);
        } else {
            assert((a + b)[i] == b[i - a.len()]);
        }
    }
}

proof fn lemma_escaped_single_line(s: Seq<char>)
    ensures
        crate::lines::single_line(escaped(s)),
    decreases s.len(),
{
    if s.len() > 0 {
        lemma_escaped_single_line(s.drop_last());
        let c = s.last();
        let e = escaped_char(c);
        assert(crate::lines::single_line(e)) by {
            let v = c as u32;
            if c != '"' && c != '\\' && v != 8 && v != 12 && c != '\n' && c != '\r' && c != '\t' && v < 0x20 {
                let h1 = hex_digit((v / 16) as nat);
                let h2 = hex_digit((v % 16) as nat);
                assert(h1 != '\n' && h2 != '\n');
                assert(e == seq!['\\', 'u', '0', '0', h1, h2]);
            }
        }
        lemma_concat_single_line(escaped(s.drop_last()), e);
    }
}

proof fn lemma_quoted_single_line(s: Seq<char>)
    ensures
        crate::lines::single_line(quoted(s)),
{
    lemma_escaped_single_line(s);
    lemma_concat_single_line(seq!['"'], escaped(s));
    lemma_concat_single_line(seq!['"'] + escaped(s), seq!['"']);
}

/// The compact text of a value whose numbers are written on one line is
/// itself one line: a record written back takes exactly one line of the
/// file.
pub proof fn lemma_json_text_single_line(j: JsonV)
    requires
        plain_numbers(j),
    ensures
        crate::lines::single_line(json_text(j)),
    decreases j,
{
    match j {
        JsonV::Str(s) => lemma_quoted_single_line(s),
        JsonV::Array(items) => {
            lemma_items_single_line(items);
            lemma_concat_single_line(seq!['['], items_text(items));
            lemma_concat_single_line(seq!['['] + items_text(items), seq![']']);
        },
        JsonV::Object(ms) => {
            lemma_members_single_line(ms);
            lemma_concat_single_line(seq!['{'], members_text(ms));
            lemma_concat_single_line(seq!['{'] + members_text(ms), seq!['}']);
        },
        _ => {},
    }
}

proof fn lemma_items_single_line(items: Seq<JsonV>)
    requires
        items_plain(items),
    ensures
        crate::lines::single_line(items_text(items)),
    decreases items,
{
    if items.len() == 1 {
        assert(items.drop_last().len() == 0);
        assert(items.last() == items[0]);
        lemma_json_text_single_line(items[0]);
    } else if items.len() > 1 {
        lemma_items_single_line(items.drop_last());
        lemma_json_text_single_line(items.last());
        lemma_concat_single_line(items_text(items.drop_last()), seq![',']);
        lemma_concat_single_line(items_text(items.drop_last()) + seq![','], json_text(items.last()));
    }
}

proof fn lemma_members_single_line(ms: Seq<(Seq<char>, JsonV)>)
    requires
        members_plain(ms),
    ensures
        crate::lines::single_line(members_text(ms)),
    decreases ms,
{
    if ms.len() == 1 {
        assert(ms.last() == ms[0]);
        lemma_quoted_single_line(ms[0].0);
        lemma_json_text_single_line(ms[0].1);
        lemma_concat_single_line(quoted(ms[0].0), seq![':']);
        lemma_concat_single_line(quoted(ms[0].0) + seq![':'], json_text(ms[0].1));
    } else if ms.len() > 1 {
        lemma_members_single_line(ms.drop_last());
        lemma_quoted_single_line(ms.last().0);
        lemma_json_text_single_line(ms.last().1);
        let a = members_text(ms.drop_last());
        lemma_concat_single_line(a, seq![',']);
        lemma_concat_single_line(a + seq![','], quoted(ms.last().0));
        lemma_concat_single_line(a + seq![','] + quoted(ms.last().0), seq![':']);
        lemma_concat_single_line(a + seq![','] + quoted(ms.last().0) + seq![':'], json_text(ms.last().1));
    }
}

pub proof fn lemma_items_plain_iff(items: Seq<JsonV>)
    ensures
        items_plain(items) <==> forall|i: int| 0 <= i < items.len() ==> plain_numbers(#[trigger] items[i]),
    decreases items.len(),
{
    if items.len() > 0 {
        let rest = items.drop_last();
        lemma_items_plain_iff(rest);
        assert forall|i: int| 0 <= i < rest.len() implies rest[i] == items[i] by {}
        if forall|i: int| 0 <= i < items.len() ==> plain_numbers(#[trigger] items[i]) {
            assert(plain_numbers(items[items.len() - 1]));
        }
    }
}

pub proof fn lemma_members_plain_iff(ms: Seq<(Seq<char>, JsonV)>)
    ensures
        members_plain(ms) <==> forall|i: int| 0 <= i < ms.len() ==> plain_numbers(#[trigger] ms[i].1),
    decreases ms.len(),
{
    if ms.len() > 0 {
        let rest = ms.drop_last();
        lemma_members_plain_iff(rest);
        assert forall|i: int| 0 <= i < rest.len() implies rest[i] == ms[i] by {}
        if forall|i: int| 0 <= i < ms.len() ==> plain_numbers(#[trigger] ms[i].1) {
            assert(plain_numbers(ms[ms.len() - 1].1));
        }
    }
}

proof fn lemma_replace_first_elems(ms: Seq<(Seq<char>, JsonV)>, m: (Seq<char>, JsonV))
    ensures
        replace_first(ms, m).len() == ms.len(),
        forall|i: int| 0 <= i < ms.len() ==> (#[trigger] replace_first(ms, m)[i] == m || replace_first(ms, m)[i] == ms[i]),
    decreases ms.len(),
{
    if ms.len() > 0 && ms[0].0 != m.0 {
        let rest = ms.drop_first();
        lemma_replace_first_elems(rest, m);
        let r = replace_first(ms, m);
        assert forall|i: int| 0 <= i < ms.len() implies (#[trigger] r[i] == m || r[i] == ms[i]) by {
            if i > 0 {
                assert(r[i] == replace_first(rest, m)[i - 1]);
                assert(rest[i - 1] == ms[i]);
            }
        }
    } else if ms.len() > 0 {
        let r = replace_first(ms, m);
        assert forall|i: int| 0 <= i < ms.len() implies (#[trigger] r[i] == m || r[i] == ms[i]) by {
            if i > 0 {
                assert(r[i] == ms.drop_first()[i - 1]);
            }
        }
    }
}

proof fn lemma_insert_sorted_elems(ms: Seq<(Seq<char>, JsonV)>, m: (Seq<char>, JsonV))
    ensures
        insert_sorted(ms, m).len() == ms.len() + 1,
        forall|i: int| 0 <= i < insert_sorted(ms, m).len() ==> (#[trigger] insert_sorted(ms, m)[i] == m
            || exists|j: int| 0 <= j < ms.len() && insert_sorted(ms, m)[i] == ms[j]),
    decreases ms.len(),
{
    let r = insert_sorted(ms, m);
    if ms.len() == 0 {
    } else if key_less(m.0, ms[0].0) {
        assert forall|i: int| 0 <= i < r.len() implies (#[trigger] r[i] == m || exists|j: int| 0 <= j < ms.len() && r[i] == ms[j]) by {
            if i > 0 {
                assert(r[i] == ms[i - 1]);
            }
        }
    } else {
        let rest = ms.drop_first();
        lemma_insert_sorted_elems(rest, m);
        assert forall|i: int| 0 <= i < r.len() implies (#[trigger] r[i] == m || exists|j: int| 0 <= j < ms.len() && r[i] == ms[j]) by {
            if i == 0 {
                assert(r[0] == ms[0]);
            } else {
                let x = insert_sorted(rest, m)[i - 1];
                assert(r[i] == x);
                if x != m {
                    let j = choose|j: int| 0 <= j < rest.len() && x == rest[j];
                    assert(rest[j] == ms[j + 1]);
                }
            }
        }
    }
}

proof fn lemma_lookup_member(ms: Seq<(Seq<char>, JsonV)>, key: Seq<char>)
    ensures
        lookup(ms, key) matches Some(v) ==> exists|i: int| 0 <= i < ms.len() && (#[trigger] ms[i]).1 == v,
    decreases ms.len(),
{
    if ms.len() > 0 && ms[0].0 != key {
        lemma_lookup_member(ms.drop_first(), key);
        if lookup(ms, key) is Some {
            let i = choose|i: int| 0 <= i < ms.drop_first().len() && (#[trigger] ms.drop_first()[i]).1 == lookup(ms, key)->0;
            assert(ms[i + 1] == ms.drop_first()[i]);
        }
    } else if ms.len() > 0 {
        assert(ms[0].1 == lookup(ms, key)->0);
    }
}

/// A member read from a value with plain numbers has plain numbers.
pub proof fn lemma_field_plain(j: JsonV, key: Seq<char>)
    requires
        plain_numbers(j),
    ensures
        field(j, key) matches Some(x) ==> plain_numbers(x),
{
    if let JsonV::Object(ms) = j {
        lemma_lookup_member(ms, key);
        lemma_members_plain_iff(ms);
    }
}

/// Setting a member to a value with plain numbers keeps numbers plain.
pub proof fn lemma_set_key_plain(j: JsonV, key: Seq<char>, v: JsonV)
    requires
        j is Null || (j is Object && plain_numbers(j)),
        plain_numbers(v),
    ensures
        plain_numbers(set_key(j, key, v)),
{
    let m = (key, v);
    match j {
        JsonV::Object(ms) => {
            lemma_members_plain_iff(ms);
            let r = if lookup(ms, key) is Some { replace_first(ms, m) } else { insert_sorted(ms, m) };
            if lookup(ms, key) is Some {
                lemma_replace_first_elems(ms, m);
                assert forall|i: int| 0 <= i < r.len() implies plain_numbers(#[trigger] r[i].1) by {
                    assert(r[i] == m || r[i] == ms[i]);
                }
            } else {
                lemma_insert_sorted_elems(ms, m);
                assert forall|i: int| 0 <= i < r.len() implies plain_numbers(#[trigger] r[i].1) by {
                    if r[i] != m {
                        let k = choose|k: int| 0 <= k < ms.len() && r[i] == ms[k];
                        assert(plain_numbers(ms[k].1));
                    }
                }
            }
            lemma_members_plain_iff(r);
        },
        _ => {
            let one = seq![m];
            lemma_members_plain_iff(one);
        },
    }
}

pub(crate) fn hex(n: u32) -> (c: char)
    requires
        n < 16,
    ensures
        c == hex_digit(n as nat),
{
    if n == 0 { '0' } else if n == 1 { '1' } else if n == 2 { '2' } else if n == 3 { '3' }
    else if n == 4 { '4' } else if n == 5 { '5' } else if n == 6 { '6' } else if n == 7 { '7' }
    else if n == 8 { '8' } else if n == 9 { '9' } else if n == 10 { 'a' } else if n == 11 { 'b' }
    else if n == 12 { 'c' } else if n == 13 { 'd' } else if n == 14 { 'e' } else { 'f' }
}

fn push_escaped_char(out: &mut Vec<char>, c: char)
    ensures
        final(out)@ == old(out)@ + escaped_char(c),
{
    let v = c as u32;
    if c == '"' {
        out.push('\\');
        out.push('"');
    } else if c == '\\' {
        out.push('\\');
        out.push('\\');
    } else if v == 8 {
        out.push('\\');
        out.push('b');
    } else if v == 12 {
        out.push('\\');
        out.push('f');
    } else if c == '\n' {
        out.push('\\');
        out.push('n');
    } else if c == '\r' {
        out.push('\\');
        out.push('r');
    } else if c == '\t' {
        out.push('\\');
        out.push('t');
    } else if v < 0x20 {
        out.push('\\');
        out.push('u');
        out.push('0');
        out.push('0');
        out.push(hex(v / 16));
        out.push(hex(v % 16));
    } else {
        out.push(c);
    }
    assert(out@ =~= old(out)@ + escaped_char(c));
}

/// Appends the JSON string literal holding `s`.
pub fn push_quoted(out: &mut Vec<char>, s: &str)
    ensures
        final(out)@ == old(out)@ + quoted(s@),
{
    let cs = chars_of(s);
    let ghost start = out@;
    out.push('"');
    let mut i: usize = 0;
    while i < cs.len()
        invariant
            i <= cs.len(),
            cs@ == s@,
            out@ == start + seq!['"'] + escaped(cs@.take(i as int)),
        decreases cs.len() - i,
    {
        let ghost before = out@;
        push_escaped_char(out, cs[i]);
        proof {
            assert(cs@.take(i + 1).drop_last() =~= cs@.take(i as int));
            assert(cs@.take(i + 1).last() == cs@[i as int]);
        }
        i = i + 1;
        assert(out@ =~= start + seq!['"'] + escaped(cs@.take(i as int)));
    }
    out.push('"');
    assert(cs@.take(cs.len() as int) =~= cs@);
    assert(out@ =~= start + quoted(s@));
}

/// Appends the compact JSON text of `j`.
pub fn write_json(out: &mut Vec<char>, j: &Json)
    ensures
        final(out)@ == old(out)@ + json_text(j@),
    decreases j,
{
    let ghost start = out@;
    match j {
        Json::Null => {
            push_str(out, "null");
            proof { reveal_strlit("null"); }
            assert(out@ =~= start + json_text(j@));
        },
        Json::Bool(b) => {
            if *b {
                push_str(out, "true");
                proof { reveal_strlit("true"); }
            } else {
                push_str(out, "false");
                proof { reveal_strlit("false"); }
            }
            assert(out@ =~= start + json_text(j@));
        },
        Json::Number(n) => {
            push_str(out, n.as_str());
        },
        Json::Str(s) => {
            push_quoted(out, s.as_str());
        },
        Json::Array(items) => {
            out.push('[');
            let mut i: usize = 0;
            while i < items.len()
                invariant
                    i <= items.len(),
                    *j == Json::Array(*items),
                    out@ == start + seq!['['] + items_text(items_view(items@).take(i as int)),
                decreases items.len() - i,
            {
                proof {
                    lemma_items_view(items@);
                    let iv = items_view(items@);
                    assert(iv.take(i + 1).drop_last() =~= iv.take(i as int));
                    assert(iv.take(i + 1).last() == json_view(items@[i as int]));
                }
                if i > 0 {
                    out.push(',');
                }
                proof {
                    assert(decreases_to!(*j => (*j)->Array_0));
                    assert((*j)->Array_0 == *items);
                    assert(decreases_to!(*items => items@));
                    assert(decreases_to!(items@ => items@[i as int]));
                    assert(decreases_to!(*j => items@[i as int]));
                }
                write_json(out, &items[i]);
                i = i + 1;
                proof {
                    if i == 1 {
                        let iv = items_view(items@);
                        assert(iv.take(1)[0] == iv[0]);
                        assert(items_text(iv.take(0)) =~= Seq::<char>::empty());
                    }
                }
                assert(out@ =~= start + seq!['['] + items_text(items_view(items@).take(i as int)));
            }
            out.push(']');
            proof {
                lemma_items_view(items@);
                assert(items_view(items@).take(items.len() as int) =~= items_view(items@));
            }
            assert(out@ =~= start + json_text(j@));
        },
        Json::Object(ms) => {
            out.push('{');
            let mut i: usize = 0;
            while i < ms.len()
                invariant
                    i <= ms.len(),
                    *j == Json::Object(*ms),
                    out@ == start + seq!['{'] + members_text(members_view(ms@).take(i as int)),
                decreases ms.len() - i,
            {
                proof {
                    lemma_members_view(ms@);
                    let mv = members_view(ms@);
                    assert(mv.take(i + 1).drop_last() =~= mv.take(i as int));
                    assert(mv.take(i + 1).last() == (ms@[i as int].key@, json_view(ms@[i as int].value)));
                }
                if i > 0 {
                    out.push(',');
                }
                push_quoted(out, ms[i].key.as_str());
                out.push(':');
                proof {
                    assert(decreases_to!(*j => (*j)->Object_0));
                    assert((*j)->Object_0 == *ms);
                    assert(decreases_to!(*ms => ms@));
                    assert(decreases_to!(ms@ => ms@[i as int]));
                    assert(decreases_to!(ms@[i as int] => ms@[i as int].value));
                    assert(decreases_to!(*j => ms@[i as int].value));
                }
                write_json(out, &ms[i].value);
                i = i + 1;
                proof {
                    if i == 1 {
                        let mv = members_view(ms@);
                        assert(mv.take(1)[0] == mv[0]);
                        assert(members_text(mv.take(0)) =~= Seq::<char>::empty());
                    }
                }
                assert(out@ =~= start + seq!['{'] + members_text(members_view(ms@).take(i as int)));
            }
            out.push('}');
            proof {
                lemma_members_view(ms@);
                assert(members_view(ms@).take(ms.len() as int) =~= members_view(ms@));
            }
            assert(out@ =~= start + json_text(j@));
        },
    }
}

/// Compact JSON text of `j`: how a record is written back as a line.
pub fn json_to_string(j: &Json) -> (r: String)
    ensures
        r@ == json_text(j@),
{
    let mut out: Vec<char> = Vec::new();
    write_json(&mut out, j);
    assert(out@ =~= json_text(j@));
    string_from_chars(&out)
}


// ---------- copying and updating ----------

impl Json {
    /// A copy of the value.
    pub fn duplicate(&self) -> (r: Json)
        ensures
            r@ == self@,
        decreases self,
    {
        match self {
            Json::Null => Json::Null,
            Json::Bool(b) => Json::Bool(*b),
            Json::Number(n) => Json::Number(n.clone()),
            Json::Str(s) => Json::Str(s.clone()),
            Json::Array(items) => {
                let mut out: Vec<Json> = Vec::new();
                let mut i: usize = 0;
                proof {
                    lemma_items_view(items@);
                }
                while i < items.len()
                    invariant
                        i <= items.len(),
                        *self == Json::Array(*items),
                        items_view(items@).len() == items.len(),
                        forall|k: int| 0 <= k < items.len() ==> #[trigger] items_view(items@)[k] == json_view(items@[k]),
                        items_view(out@) == items_view(items@).take(i as int),
                    decreases items.len() - i,
                {
                    proof {
                        assert(decreases_to!(*self => (*self)->Array_0));
                        assert(decreases_to!(*items => items@));
                        assert(decreases_to!(items@ => items@[i as int]));
                    }
                    let c = items[i].duplicate();
                    let ghost before = out@;
                    out.push(c);
                    proof {
                        assert(out@.drop_last() =~= before);
                        assert(items_view(out@) == items_view(before).push(json_view(c)));
                        assert(items_view(items@).take(i + 1) =~= items_view(items@).take(i as int).push(items_view(items@)[i as int]));
                    }
                    i = i + 1;
                }
                assert(items_view(items@).take(items.len() as int) =~= items_view(items@));
                Json::Array(out)
            },
            Json::Object(ms) => {
                let mut out: Vec<Member> = Vec::new();
                let mut i: usize = 0;
                proof {
                    lemma_members_view(ms@);
                }
                while i < ms.len()
                    invariant
                        i <= ms.len(),
                        *self == Json::Object(*ms),
                        members_view(ms@).len() == ms.len(),
                        forall|k: int| 0 <= k < ms.len() ==> #[trigger] members_view(ms@)[k] == (ms@[k].key@, json_view(ms@[k].value)),
                        members_view(out@) == members_view(ms@).take(i as int),
                    decreases ms.len() - i,
                {
                    proof {
                        assert(decreases_to!(*self => (*self)->Object_0));
                        assert(decreases_to!(*ms => ms@));
                        assert(decreases_to!(ms@ => ms@[i as int]));
                        assert(decreases_to!(ms@[i as int] => ms@[i as int].value));
                    }
                    let v = ms[i].value.duplicate();
                    let k = ms[i].key.clone();
                    let ghost before = out@;
                    out.push(Member { key: k, value: v });
                    proof {
                        assert(out@.drop_last() =~= before);
                        assert(members_view(ms@).take(i + 1) =~= members_view(ms@).take(i as int).push(members_view(ms@)[i as int]));
                    }
                    i = i + 1;
                }
                assert(members_view(ms@).take(ms.len() as int) =~= members_view(ms@));
                Json::Object(out)
            },
        }
    }
}

/// `a < b` as `String`'s order compares keys (by code point, a prefix first).
pub open spec fn key_less(a: Seq<char>, b: Seq<char>) -> bool
    decreases a.len(),
{
    if b.len() == 0 {
        false
    } else if a.len() == 0 {
        true
    } else if a[0] != b[0] {
        (a[0] as u32) < (b[0] as u32)
    } else {
        key_less(a.drop_first(), b.drop_first())
    }
}

/// `m` inserted before the first member whose key is greater than its own.
pub open spec fn insert_sorted(ms: Seq<(Seq<char>, JsonV)>, m: (Seq<char>, JsonV)) -> Seq<(Seq<char>, JsonV)>
    decreases ms.len(),
{
    if ms.len() == 0 {
        seq![m]
    } else if key_less(m.0, ms[0].0) {
        seq![m] + ms
    } else {
        seq![ms[0]] + insert_sorted(ms.drop_first(), m)
    }
}

/// `ms` with the first member named like `m` replaced by `m`.
pub open spec fn replace_first(ms: Seq<(Seq<char>, JsonV)>, m: (Seq<char>, JsonV)) -> Seq<(Seq<char>, JsonV)>
    decreases ms.len(),
{
    if ms.len() == 0 {
        ms
    } else if ms[0].0 == m.0 {
        seq![m] + ms.drop_first()
    } else {
        seq![ms[0]] + replace_first(ms.drop_first(), m)
    }
}

/// `value[key] = v` (serde_json's `IndexMut`): an object gets member `key`
/// set to `v` (in place when it has one, else at its place in key order);
/// `null` becomes an object holding just that member.
pub open spec fn set_key(j: JsonV, key: Seq<char>, v: JsonV) -> JsonV {
    match j {
        JsonV::Object(ms) => JsonV::Object(
            if lookup(ms, key) is Some { replace_first(ms, (key, v)) } else { insert_sorted(ms, (key, v)) },
        ),
        _ => JsonV::Object(seq![(key, v)]),
    }
}

proof fn lemma_replace_first_at(ms: Seq<(Seq<char>, JsonV)>, i: int, m: (Seq<char>, JsonV))
    requires
        0 <= i < ms.len(),
        ms[i].0 == m.0,
        forall|k: int| 0 <= k < i ==> ms[k].0 != m.0,
    ensures
        replace_first(ms, m) == ms.update(i, m),
    decreases i,
{
    if i == 0 {
        assert(seq![m] + ms.drop_first() =~= ms.update(0, m));
    } else {
        assert(ms[0].0 != m.0);
        lemma_replace_first_at(ms.drop_first(), i - 1, m);
        assert(seq![ms[0]] + ms.drop_first().update(i - 1, m) =~= ms.update(i, m));
    }
}

proof fn lemma_insert_sorted_at(ms: Seq<(Seq<char>, JsonV)>, i: int, m: (Seq<char>, JsonV))
    requires
        0 <= i <= ms.len(),
        i < ms.len() ==> key_less(m.0, ms[i].0),
        forall|k: int| 0 <= k < i ==> !key_less(m.0, #[trigger] ms[k].0),
    ensures
        insert_sorted(ms, m) == ms.insert(i, m),
    decreases i,
{
    if i == 0 {
        if ms.len() == 0 {
            assert(seq![m] =~= ms.insert(0, m));
        } else {
            assert(seq![m] + ms =~= ms.insert(0, m));
        }
    } else {
        assert(!key_less(m.0, ms[0].0));
        assert forall|k: int| 0 <= k < i - 1 implies !key_less(m.0, #[trigger] ms.drop_first()[k].0) by {
            assert(ms.drop_first()[k] == ms[k + 1]);
        }
        lemma_insert_sorted_at(ms.drop_first(), i - 1, m);
        assert(seq![ms[0]] + ms.drop_first().insert(i - 1, m) =~= ms.insert(i, m));
    }
}

/// `key_less(a, b)`.
fn key_lt(a: &Vec<char>, b: &Vec<char>) -> (r: bool)
    ensures
        r == key_less(a@, b@),
{
    let mut i: usize = 0;
    assert(a@.skip(0) =~= a@);
    assert(b@.skip(0) =~= b@);
    while i < a.len() && i < b.len()
        invariant
            i <= a.len(),
            i <= b.len(),
            key_less(a@, b@) == key_less(a@.skip(i as int), b@.skip(i as int)),
        decreases a.len() - i,
    {
        if a[i] != b[i] {
            assert(a@.skip(i as int)[0] == a@[i as int]);
            assert(b@.skip(i as int)[0] == b@[i as int]);
            return (a[i] as u32) < (b[i] as u32);
        }
        assert(a@.skip(i as int)[0] == a@[i as int]);
        assert(b@.skip(i as int)[0] == b@[i as int]);
        assert(a@.skip(i as int).drop_first() =~= a@.skip(i + 1));
        assert(b@.skip(i as int).drop_first() =~= b@.skip(i + 1));
        i = i + 1;
    }
    i < b.len()
}

proof fn lemma_members_view_update(ms: Seq<Member>, i: int, m: Member)
    requires
        0 <= i < ms.len(),
    ensures
        members_view(ms.update(i, m)) == members_view(ms).update(i, (m.key@, json_view(m.value))),
{
    lemma_members_view(ms);
    lemma_members_view(ms.update(i, m));
    assert(members_view(ms.update(i, m)) =~= members_view(ms).update(i, (m.key@, json_view(m.value))));
}

proof fn lemma_members_view_insert(ms: Seq<Member>, i: int, m: Member)
    requires
        0 <= i <= ms.len(),
    ensures
        members_view(ms.insert(i, m)) == members_view(ms).insert(i, (m.key@, json_view(m.value))),
{
    lemma_members_view(ms);
    lemma_members_view(ms.insert(i, m));
    assert(members_view(ms.insert(i, m)) =~= members_view(ms).insert(i, (m.key@, json_view(m.value))));
}

impl Json {
    /// `value[key] = v` on an object or `null`.
    pub fn set_field(&mut self, key: &str, value: Json)
        requires
            *old(self) is Object || *old(self) is Null,
        ensures
            final(self)@ == set_key(old(self)@, key@, value@),
    {
        let ghost old_view = self@;
        let mut taken = Json::Null;
        std::mem::swap(self, &mut taken);
        let mut ms: Vec<Member> = match taken {
            Json::Object(ms) => ms,
            _ => Vec::new(),
        };
        let ghost mv = members_view(ms@);
        let m = Member { key: key.to_owned(), value };
        proof {
            lemma_members_view(ms@);
        }
        match member_index(&ms, key) {
            Some(i) => {
                proof {
                    lemma_replace_first_at(mv, i as int, (key@, json_view(m.value)));
                    lemma_members_view_update(ms@, i as int, m);
                }
                ms.set(i, m);
            },
            None => {
                let kc = chars_of(key);
                let mut p: usize = 0;
                while p < ms.len() && !key_lt(&kc, &chars_of(ms[p].key.as_str()))
                    invariant
                        p <= ms.len(),
                        kc@ == key@,
                        mv == members_view(ms@),
                        mv.len() == ms.len(),
                        forall|k: int| 0 <= k < ms.len() ==> #[trigger] mv[k] == (ms@[k].key@, json_view(ms@[k].value)),
                        forall|k: int| 0 <= k < p ==> !key_less(key@, #[trigger] mv[k].0),
                    decreases ms.len() - p,
                {
                    p = p + 1;
                }
                proof {
                    lemma_insert_sorted_at(mv, p as int, (key@, json_view(m.value)));
                    lemma_members_view_insert(ms@, p as int, m);
                }
                ms.insert(p, m);
            },
        }
        *self = Json::Object(ms);
        proof {
            if old_view is Object {
            } else {
                assert(mv =~= Seq::<(Seq<char>, JsonV)>::empty());
            }
        }
    }
}


proof fn lemma_lookup_replace_first(ms: Seq<(Seq<char>, JsonV)>, m: (Seq<char>, JsonV), k: Seq<char>)
    requires
        lookup(ms, m.0) is Some,
    ensures
        lookup(replace_first(ms, m), k) == (if k == m.0 { Some(m.1) } else { lookup(ms, k) }),
    decreases ms.len(),
{
    if ms.len() > 0 && ms[0].0 != m.0 {
        lemma_lookup_replace_first(ms.drop_first(), m, k);
        assert((seq![ms[0]] + replace_first(ms.drop_first(), m)).drop_first() =~= replace_first(ms.drop_first(), m));
    } else if ms.len() > 0 {
        assert((seq![m] + ms.drop_first()).drop_first() =~= ms.drop_first());
    }
}

proof fn lemma_lookup_insert_sorted(ms: Seq<(Seq<char>, JsonV)>, m: (Seq<char>, JsonV), k: Seq<char>)
    requires
        lookup(ms, m.0) is None,
    ensures
        lookup(insert_sorted(ms, m), k) == (if k == m.0 { Some(m.1) } else { lookup(ms, k) }),
    decreases ms.len(),
{
    if ms.len() == 0 {
    } else if key_less(m.0, ms[0].0) {
        assert((seq![m] + ms).drop_first() =~= ms);
    } else {
        lemma_lookup_insert_sorted(ms.drop_first(), m, k);
        assert((seq![ms[0]] + insert_sorted(ms.drop_first(), m)).drop_first() =~= insert_sorted(ms.drop_first(), m));
    }
}

proof fn lemma_replace_first_twice(ms: Seq<(Seq<char>, JsonV)>, key: Seq<char>, v: JsonV)
    requires
        lookup(ms, key) is Some,
    ensures
        replace_first(replace_first(ms, (key, v)), (key, lookup(ms, key)->0)) == ms,
    decreases ms.len(),
{
    if ms[0].0 == key {
        let once = seq![(key, v)] + ms.drop_first();
        assert(once[0].0 == key);
        assert(once.drop_first() =~= ms.drop_first());
        assert(seq![(key, lookup(ms, key)->0)] + ms.drop_first() =~= ms);
    } else {
        let rest = ms.drop_first();
        lemma_replace_first_twice(rest, key, v);
        let once = seq![ms[0]] + replace_first(rest, (key, v));
        assert(once[0] == ms[0]);
        assert(once.drop_first() =~= replace_first(rest, (key, v)));
        assert(seq![ms[0]] + rest =~= ms);
    }
}

/// Setting a member an object already has and then setting it back to its
/// old value gives the object back.
pub proof fn lemma_set_key_restore(j: JsonV, key: Seq<char>, v: JsonV)
    requires
        j is Object,
        field(j, key) is Some,
    ensures
        set_key(set_key(j, key, v), key, field(j, key)->0) == j,
{
    let ms = j->Object_0;
    lemma_lookup_replace_first(ms, (key, v), key);
    lemma_replace_first_twice(ms, key, v);
}

/// After `value[key] = v`, looking up `key` gives `v` and every other key
/// gives what it gave before.
pub proof fn lemma_set_key_field(j: JsonV, key: Seq<char>, v: JsonV, k: Seq<char>)
    requires
        j is Object || j is Null,
    ensures
        field(set_key(j, key, v), k) == (if k == key { Some(v) } else { field(j, k) }),
{
    match j {
        JsonV::Object(ms) => {
            let m = (key, v);
            if lookup(ms, key) is Some {
                lemma_lookup_replace_first(ms, m, k);
                assert(set_key(j, key, v) == JsonV::Object(replace_first(ms, m)));
                assert(field(set_key(j, key, v), k) == lookup(replace_first(ms, m), k));
                assert(lookup(replace_first(ms, m), k) == (if k == key { Some(v) } else { lookup(ms, k) }));
                assert(field(j, k) == lookup(ms, k));
                assert(field(set_key(j, key, v), k) == (if k == key { Some(v) } else { field(j, k) }));
            } else {
                lemma_lookup_insert_sorted(ms, m, k);
                assert(set_key(j, key, v) == JsonV::Object(insert_sorted(ms, m)));
                assert(field(set_key(j, key, v), k) == lookup(insert_sorted(ms, m), k));
                assert(lookup(insert_sorted(ms, m), k) == (if k == key { Some(v) } else { lookup(ms, k) }));
                assert(field(j, k) == lookup(ms, k));
                assert(field(set_key(j, key, v), k) == (if k == key { Some(v) } else { field(j, k) }));
            }
        },
        _ => {
            let one = seq![(key, v)];
            assert(one[0] == (key, v));
            assert(one.drop_first() =~= Seq::<(Seq<char>, JsonV)>::empty());
            assert(lookup(one.drop_first(), k) is None);
            assert(field(set_key(j, key, v), k) == lookup(one, k));
        },
    }
}

} // verus!
