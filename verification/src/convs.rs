//! The list of sessions: rewind marking, newest-first order, keeping the
//! selection across rescans, and the sidebar's project groups.

use vstd::prelude::*;
use std::path::PathBuf;
use crate::json::{Json, same_text};
use crate::session::rec_view;
use crate::summary::{SummaryV, session_summary, record_times, summarize_session};
use crate::text::{chars_of, push_range, push_str, string_from_chars};

verus! {

/// std's `PathBuf`, carried through the list as an opaque value: nothing is
/// read from it here.
#[verifier::external_type_specification]
#[verifier::external_body]
pub struct ExPathBuf(PathBuf);

/// One session file in the list.
pub struct ConversationInfo {
    pub path: PathBuf,
    pub filename: String,
    /// Name of the project folder the file is in.
    pub project: String,
    pub title: String,
    pub message_count: usize,
    /// Time of the last message (or of the file's last change), in
    /// nanoseconds since the Unix epoch.
    pub modified: i128,
    pub branch: Option<String>,
    pub first_user_uuid: Option<String>,
    /// An older copy of a conversation that a newer file continues.
    pub is_rewind: bool,
}

pub struct ConvV {
    pub path: PathBuf,
    pub filename: Seq<char>,
    pub project: Seq<char>,
    pub title: Seq<char>,
    pub message_count: nat,
    pub modified: int,
    pub branch: Option<Seq<char>>,
    pub first_user_uuid: Option<Seq<char>>,
    pub is_rewind: bool,
}

pub open spec fn ostr(s: Option<String>) -> Option<Seq<char>> {
    match s {
        Some(x) => Some(x@),
        None => None,
    }
}

impl View for ConversationInfo {
    type V = ConvV;

    open spec fn view(&self) -> ConvV {
        ConvV {
            path: self.path,
            filename: self.filename@,
            project: self.project@,
            title: self.title@,
            message_count: self.message_count as nat,
            modified: self.modified as int,
            branch: ostr(self.branch),
            first_user_uuid: ostr(self.first_user_uuid),
            is_rewind: self.is_rewind,
        }
    }
}

pub open spec fn convs_view(cs: Seq<ConversationInfo>) -> Seq<ConvV> {
    cs.map_values(|c: ConversationInfo| c@)
}

// ---------- rewinds ----------

/// Latest `modified` among the first `n` sessions whose first user message
/// has uuid `u`.
pub open spec fn latest_of_group(cs: Seq<ConvV>, u: Seq<char>, n: int) -> Option<int>
    decreases n,
{
    if n <= 0 {
        None
    } else {
        let rest = latest_of_group(cs, u, n - 1);
        if cs[n - 1].first_user_uuid == Some(u) {
            match rest {
                Some(t) => Some(if cs[n - 1].modified > t { cs[n - 1].modified } else { t }),
                None => Some(cs[n - 1].modified),
            }
        } else {
            rest
        }
    }
}

/// Sessions that share their first user message form a group; in each
/// group every session older than the newest is a rewind. Sessions without
/// a first user message keep their mark.
pub open spec fn marked_rewinds(cs: Seq<ConvV>) -> Seq<ConvV> {
    Seq::new(cs.len(), |i: int|
        match cs[i].first_user_uuid {
            Some(u) => ConvV { is_rewind: cs[i].modified < latest_of_group(cs, u, cs.len() as int)->0, ..cs[i] },
            None => cs[i],
        })
}

proof fn lemma_latest_of_group(cs: Seq<ConvV>, u: Seq<char>, n: int)
    requires
        0 <= n <= cs.len(),
    ensures
        latest_of_group(cs, u, n) is Some <==> exists|i: int| 0 <= i < n && #[trigger] cs[i].first_user_uuid == Some(u),
        latest_of_group(cs, u, n) matches Some(t) ==> forall|i: int| 0 <= i < n && #[trigger] cs[i].first_user_uuid == Some(u) ==> cs[i].modified <= t,
        latest_of_group(cs, u, n) matches Some(t) ==> exists|i: int| 0 <= i < n && #[trigger] cs[i].first_user_uuid == Some(u) && cs[i].modified == t,
    decreases n,
{
    if n > 0 {
        lemma_latest_of_group(cs, u, n - 1);
    }
}

/// After marking, a session with a first user message is a rewind exactly
/// when another session with the same first user message is newer; so the
/// newest session of each group is never one.
pub proof fn lemma_rewind_iff_newer_sibling(cs: Seq<ConvV>, i: int)
    requires
        0 <= i < cs.len(),
        cs[i].first_user_uuid is Some,
    ensures
        marked_rewinds(cs)[i].is_rewind <==> exists|j: int|
            0 <= j < cs.len() && #[trigger] cs[j].first_user_uuid == cs[i].first_user_uuid && cs[j].modified > cs[i].modified,
        exists|j: int|
            0 <= j < cs.len() && #[trigger] cs[j].first_user_uuid == cs[i].first_user_uuid && !marked_rewinds(cs)[j].is_rewind,
{
    let u = cs[i].first_user_uuid->0;
    let n = cs.len() as int;
    lemma_latest_of_group(cs, u, n);
    assert(cs[i].first_user_uuid == Some(u));
    let t = latest_of_group(cs, u, n)->0;
    let w = choose|j: int| 0 <= j < n && #[trigger] cs[j].first_user_uuid == Some(u) && cs[j].modified == t;
    assert(marked_rewinds(cs)[w].is_rewind == (cs[w].modified < t));
    if marked_rewinds(cs)[i].is_rewind {
        assert(cs[w].modified > cs[i].modified);
    }
    if exists|j: int| 0 <= j < n && #[trigger] cs[j].first_user_uuid == cs[i].first_user_uuid && cs[j].modified > cs[i].modified {
        let j = choose|j: int| 0 <= j < n && #[trigger] cs[j].first_user_uuid == cs[i].first_user_uuid && cs[j].modified > cs[i].modified;
        assert(cs[j].modified <= t);
    }
}

/// Latest modification time in group `u` of `cs`.
fn group_latest(cs: &Vec<ConversationInfo>, u: &String) -> (r: Option<i128>)
    ensures
        opt_time(r) == latest_of_group(convs_view(cs@), u@, cs.len() as int),
{
    let ghost v = convs_view(cs@);
    let mut best: Option<i128> = None;
    let mut i: usize = 0;
    while i < cs.len()
        invariant
            i <= cs.len(),
            v == convs_view(cs@),
            opt_time(best) == latest_of_group(v, u@, i as int),
        decreases cs.len() - i,
    {
        assert(v[i as int] == cs@[i as int]@);
        let same = match &cs[i].first_user_uuid {
            Some(x) => same_text(x.as_str(), u.as_str()),
            None => false,
        };
        if same {
            let m = cs[i].modified;
            best = Some(match best {
                Some(t) => if m > t { m } else { t },
                None => m,
            });
        }
        i = i + 1;
    }
    best
}

pub open spec fn opt_time(t: Option<i128>) -> Option<int> {
    match t {
        Some(x) => Some(x as int),
        None => None,
    }
}

/// Marks, in each group of sessions sharing their first user message, every
/// session older than the group's newest as a rewind.
pub fn mark_rewinds(cs: &mut Vec<ConversationInfo>)
    ensures
        convs_view(final(cs)@) == marked_rewinds(convs_view(old(cs)@)),
{
    let ghost v0 = convs_view(cs@);
    let n = cs.len();
    let mut lat: Vec<Option<i128>> = Vec::new();
    let mut i: usize = 0;
    while i < n
        invariant
            i <= n == cs.len(),
            v0 == convs_view(cs@),
            lat.len() == i,
            forall|k: int| 0 <= k < i ==> opt_time(#[trigger] lat@[k]) == (match v0[k].first_user_uuid {
                Some(u) => latest_of_group(v0, u, n as int),
                None => None,
            }),
        decreases n - i,
    {
        assert(v0[i as int] == cs@[i as int]@);
        let l = match &cs[i].first_user_uuid {
            Some(u) => group_latest(cs, u),
            None => None,
        };
        lat.push(l);
        i = i + 1;
    }
    let mut j: usize = 0;
    while j < n
        invariant
            j <= n == cs.len() == lat.len(),
            v0.len() == n,
            forall|k: int| 0 <= k < n ==> opt_time(#[trigger] lat@[k]) == (match v0[k].first_user_uuid {
                Some(u) => latest_of_group(v0, u, n as int),
                None => None,
            }),
            forall|k: int| 0 <= k < n ==> (#[trigger] convs_view(cs@)[k]) == (if k < j { marked_rewinds(v0)[k] } else { v0[k] }),
        decreases n - j,
    {
        let ghost before = cs@;
        assert(convs_view(before)[j as int] == before[j as int]@);
        match lat[j] {
            Some(t) => {
                let mut c = cs.remove(j);
                assert(c@ == v0[j as int]);
                proof {
                    match v0[j as int].first_user_uuid {
                        Some(u) => {},
                        None => {},
                    }
                }
                c.is_rewind = c.modified < t;
                let ghost cv = c@;
                cs.insert(j, c);
                assert(cs@ =~= before.update(j as int, c));
                proof {
                    assert(convs_view(cs@) =~= convs_view(before).update(j as int, cv));
                }
            },
            None => {
                proof {
                    match v0[j as int].first_user_uuid {
                        Some(u) => {
                            lemma_latest_of_group(v0, u, n as int);
                            assert(v0[j as int].first_user_uuid == Some(u));
                        },
                        None => {},
                    }
                }
            },
        }
        j = j + 1;
    }
    assert(convs_view(cs@) =~= marked_rewinds(v0));
}


// ---------- newest first ----------

/// `c` placed after every session at least as recent as it (before the
/// first one that is older).
pub open spec fn insert_by_time(sorted: Seq<ConvV>, c: ConvV) -> Seq<ConvV>
    decreases sorted.len(),
{
    if sorted.len() == 0 {
        seq![c]
    } else if sorted[0].modified < c.modified {
        seq![c] + sorted
    } else {
        seq![sorted[0]] + insert_by_time(sorted.drop_first(), c)
    }
}

/// The sessions from newest to oldest; sessions with the same time keep
/// their order (a stable sort).
pub open spec fn newest_first(cs: Seq<ConvV>) -> Seq<ConvV>
    decreases cs.len(),
{
    if cs.len() == 0 {
        Seq::empty()
    } else {
        insert_by_time(newest_first(cs.drop_last()), cs.last())
    }
}

proof fn lemma_insert_by_time_at(sorted: Seq<ConvV>, p: int, c: ConvV)
    requires
        0 <= p <= sorted.len(),
        p < sorted.len() ==> sorted[p].modified < c.modified,
        forall|k: int| 0 <= k < p ==> !((#[trigger] sorted[k]).modified < c.modified),
    ensures
        insert_by_time(sorted, c) == sorted.insert(p, c),
    decreases p,
{
    if p == 0 {
        if sorted.len() == 0 {
            assert(seq![c] =~= sorted.insert(0, c));
        } else {
            assert(seq![c] + sorted =~= sorted.insert(0, c));
        }
    } else {
        assert(!(sorted[0].modified < c.modified));
        assert forall|k: int| 0 <= k < p - 1 implies !((#[trigger] sorted.drop_first()[k]).modified < c.modified) by {
            assert(sorted.drop_first()[k] == sorted[k + 1]);
        }
        lemma_insert_by_time_at(sorted.drop_first(), p - 1, c);
        assert(seq![sorted[0]] + sorted.drop_first().insert(p - 1, c) =~= sorted.insert(p, c));
    }
}

/// Sorts sessions newest first (stable).
pub fn sort_newest_first(cs: Vec<ConversationInfo>) -> (r: Vec<ConversationInfo>)
    ensures
        convs_view(r@) == newest_first(convs_view(cs@)),
{
    let ghost v0 = convs_view(cs@);
    let mut input = cs;
    let mut out: Vec<ConversationInfo> = Vec::new();
    let ghost mut done: int = 0;
    assert(v0.skip(0) =~= v0);
    assert(v0.take(0) =~= Seq::<ConvV>::empty());
    assert(convs_view(out@) =~= Seq::<ConvV>::empty());
    while input.len() > 0
        invariant
            0 <= done <= v0.len(),
            convs_view(input@) == v0.skip(done),
            convs_view(out@) == newest_first(v0.take(done)),
        decreases input.len(),
    {
        let ghost before = out@;
        let ghost ib = input@;
        assert(convs_view(ib).len() == ib.len());
        assert(done < v0.len());
        assert(convs_view(ib)[0] == ib[0]@);
        assert(v0.skip(done)[0] == v0[done]);
        let c = input.remove(0);
        assert(c@ == v0[done]);
        let mut p: usize = 0;
        while p < out.len() && !(out[p].modified < c.modified)
            invariant
                p <= out.len(),
                forall|k: int| 0 <= k < p ==> !((#[trigger] convs_view(out@)[k]).modified < c@.modified),
            decreases out.len() - p,
        {
            assert(convs_view(out@)[p as int] == out@[p as int]@);
            p = p + 1;
        }
        proof {
            if p < out.len() {
                assert(convs_view(out@)[p as int] == out@[p as int]@);
            }
            lemma_insert_by_time_at(convs_view(before), p as int, c@);
            assert(v0.take(done + 1).drop_last() =~= v0.take(done));
            assert(v0.take(done + 1).last() == v0[done]);
        }
        let ghost cv = c@;
        out.insert(p, c);
        proof {
            assert(convs_view(out@) =~= convs_view(before).insert(p as int, cv));
            assert(convs_view(input@) =~= convs_view(ib).drop_first());
            assert(v0.skip(done).drop_first() =~= v0.skip(done + 1));
            done = done + 1;
        }
    }
    assert(v0.take(done) =~= v0);
    out
}

/// Newest first means what it says: each session is at least as recent as
/// every one after it.
pub proof fn lemma_newest_first_sorted(cs: Seq<ConvV>)
    ensures
        forall|i: int, j: int| 0 <= i < j < newest_first(cs).len() ==> (#[trigger] newest_first(cs)[i]).modified
            >= (#[trigger] newest_first(cs)[j]).modified,
    decreases cs.len(),
{
    if cs.len() > 0 {
        lemma_newest_first_sorted(cs.drop_last());
        lemma_insert_by_time_sorted(newest_first(cs.drop_last()), cs.last());
    }
}

proof fn lemma_insert_by_time_sorted(sorted: Seq<ConvV>, c: ConvV)
    requires
        forall|i: int, j: int| 0 <= i < j < sorted.len() ==> (#[trigger] sorted[i]).modified >= (#[trigger] sorted[j]).modified,
    ensures
        forall|i: int, j: int| 0 <= i < j < insert_by_time(sorted, c).len() ==> (#[trigger] insert_by_time(sorted, c)[i]).modified
            >= (#[trigger] insert_by_time(sorted, c)[j]).modified,
        insert_by_time(sorted, c).len() == sorted.len() + 1,
        forall|i: int| 0 <= i < insert_by_time(sorted, c).len() ==> {
            let x = #[trigger] insert_by_time(sorted, c)[i];
            x == c || exists|k: int| 0 <= k < sorted.len() && sorted[k] == x
        },
    decreases sorted.len(),
{
    let r = insert_by_time(sorted, c);
    if sorted.len() == 0 {
    } else if sorted[0].modified < c.modified {
        assert forall|i: int, j: int| 0 <= i < j < r.len() implies (#[trigger] r[i]).modified >= (#[trigger] r[j]).modified by {
            if i == 0 {
                assert(r[j] == sorted[j - 1]);
                assert(sorted[0].modified >= sorted[j - 1].modified || j - 1 == 0);
            } else {
                assert(r[i] == sorted[i - 1]);
                assert(r[j] == sorted[j - 1]);
            }
        }
        assert forall|i: int| 0 <= i < r.len() implies {
            let x = #[trigger] r[i];
            x == c || exists|k: int| 0 <= k < sorted.len() && sorted[k] == x
        } by {
            if i > 0 {
                assert(r[i] == sorted[i - 1]);
            }
        }
    } else {
        let rest = insert_by_time(sorted.drop_first(), c);
        assert forall|i: int, j: int| 0 <= i < j < sorted.drop_first().len() implies (#[trigger] sorted.drop_first()[i]).modified
            >= (#[trigger] sorted.drop_first()[j]).modified by {
            assert(sorted.drop_first()[i] == sorted[i + 1]);
            assert(sorted.drop_first()[j] == sorted[j + 1]);
        }
        lemma_insert_by_time_sorted(sorted.drop_first(), c);
        assert forall|i: int, j: int| 0 <= i < j < r.len() implies (#[trigger] r[i]).modified >= (#[trigger] r[j]).modified by {
            if i == 0 {
                assert(r[j] == rest[j - 1]);
                let x = rest[j - 1];
                if x == c {
                } else {
                    let k = choose|k: int| 0 <= k < sorted.drop_first().len() && sorted.drop_first()[k] == x;
                    assert(sorted.drop_first()[k] == sorted[k + 1]);
                }
            } else {
                assert(r[i] == rest[i - 1]);
                assert(r[j] == rest[j - 1]);
            }
        }
        assert forall|i: int| 0 <= i < r.len() implies {
            let x = #[trigger] r[i];
            x == c || exists|k: int| 0 <= k < sorted.len() && sorted[k] == x
        } by {
            if i > 0 {
                assert(r[i] == rest[i - 1]);
                let x = rest[i - 1];
                if x != c {
                    let k = choose|k: int| 0 <= k < sorted.drop_first().len() && sorted.drop_first()[k] == x;
                    assert(sorted.drop_first()[k] == sorted[k + 1]);
                }
            }
        }
    }
}

proof fn lemma_insert_by_time_multiset(sorted: Seq<ConvV>, c: ConvV)
    ensures
        insert_by_time(sorted, c).to_multiset() == sorted.to_multiset().insert(c),
    decreases sorted.len(),
{
    if sorted.len() == 0 {
        vstd::seq_lib::to_multiset_insert(sorted, 0, c);
        assert(sorted.insert(0, c) =~= seq![c]);
    } else if sorted[0].modified < c.modified {
        vstd::seq_lib::to_multiset_insert(sorted, 0, c);
        assert(sorted.insert(0, c) =~= seq![c] + sorted);
    } else {
        let rest = sorted.drop_first();
        lemma_insert_by_time_multiset(rest, c);
        let x = insert_by_time(rest, c);
        vstd::seq_lib::to_multiset_insert(x, 0, sorted[0]);
        assert(x.insert(0, sorted[0]) =~= seq![sorted[0]] + x);
        vstd::seq_lib::to_multiset_insert(rest, 0, sorted[0]);
        assert(rest.insert(0, sorted[0]) =~= sorted);
        broadcast use vstd::multiset::group_multiset_axioms;
        assert(rest.to_multiset().insert(c).insert(sorted[0]) =~= rest.to_multiset().insert(sorted[0]).insert(c));
    }
}

/// Sorting keeps every session, each as often as before, and adds none.
pub proof fn lemma_newest_first_permutation(cs: Seq<ConvV>)
    ensures
        newest_first(cs).to_multiset() == cs.to_multiset(),
    decreases cs.len(),
{
    if cs.len() > 0 {
        lemma_newest_first_permutation(cs.drop_last());
        lemma_insert_by_time_multiset(newest_first(cs.drop_last()), cs.last());
        vstd::seq_lib::to_multiset_build(cs.drop_last(), cs.last());
        assert(cs.drop_last().push(cs.last()) =~= cs);
    } else {
        assert(newest_first(cs) =~= cs);
    }
}


/// The list a scan ends with: rewinds marked, then newest first.
pub fn order_conversations(cs: Vec<ConversationInfo>) -> (r: Vec<ConversationInfo>)
    ensures
        convs_view(r@) == newest_first(marked_rewinds(convs_view(cs@))),
{
    let mut cs = cs;
    mark_rewinds(&mut cs);
    sort_newest_first(cs)
}

// ---------- rescans ----------

/// Two listings show the same sessions: same length, and at each place the
/// same file name, time, message count and rewind mark.
pub open spec fn same_listing(a: Seq<ConvV>, b: Seq<ConvV>) -> bool {
    &&& a.len() == b.len()
    &&& forall|i: int| 0 <= i < a.len() ==> {
        &&& (#[trigger] a[i]).filename == b[i].filename
        &&& a[i].modified == b[i].modified
        &&& a[i].message_count == b[i].message_count
        &&& a[i].is_rewind == b[i].is_rewind
    }
}

/// Index of the first session named `name` at or after `i`.
pub open spec fn find_filename(cs: Seq<ConvV>, name: Seq<char>, i: int) -> Option<int>
    decreases cs.len() - i,
{
    if i < 0 || i >= cs.len() {
        None
    } else if cs[i].filename == name {
        Some(i)
    } else {
        find_filename(cs, name, i + 1)
    }
}

/// The selection after a rescan to `fresh`: the first session with the file
/// name of the one selected before, if there is one.
pub open spec fn reselected(old: Seq<ConvV>, selected: Option<usize>, fresh: Seq<ConvV>) -> Option<int> {
    match selected {
        Some(i) => if i < old.len() { find_filename(fresh, old[i as int].filename, 0) } else { None },
        None => None,
    }
}

fn same_listing_exec(a: &Vec<ConversationInfo>, b: &Vec<ConversationInfo>) -> (r: bool)
    ensures
        r == same_listing(convs_view(a@), convs_view(b@)),
{
    if a.len() != b.len() {
        return false;
    }
    let mut i: usize = 0;
    while i < a.len()
        invariant
            i <= a.len() == b.len(),
            forall|k: int| 0 <= k < i ==> {
                &&& (#[trigger] convs_view(a@)[k]).filename == convs_view(b@)[k].filename
                &&& convs_view(a@)[k].modified == convs_view(b@)[k].modified
                &&& convs_view(a@)[k].message_count == convs_view(b@)[k].message_count
                &&& convs_view(a@)[k].is_rewind == convs_view(b@)[k].is_rewind
            },
        decreases a.len() - i,
    {
        assert(convs_view(a@)[i as int] == a@[i as int]@);
        assert(convs_view(b@)[i as int] == b@[i as int]@);
        if !(same_text(a[i].filename.as_str(), b[i].filename.as_str()) && a[i].modified == b[i].modified
            && a[i].message_count == b[i].message_count && a[i].is_rewind == b[i].is_rewind) {
            return false;
        }
        i = i + 1;
    }
    true
}

/// Takes a fresh scan into the list: when it shows the same sessions
/// nothing changes; otherwise the list is replaced and the selection moves
/// to the session with the previously selected file name (or is cleared).
pub fn apply_rescan(convs: &mut Vec<ConversationInfo>, selected: &mut Option<usize>, fresh: Vec<ConversationInfo>)
    ensures
        same_listing(convs_view(fresh@), convs_view(old(convs)@)) ==> convs_view(final(convs)@) == convs_view(old(convs)@)
            && *final(selected) == *old(selected),
        !same_listing(convs_view(fresh@), convs_view(old(convs)@)) ==> convs_view(final(convs)@) == convs_view(fresh@)
            && opt_index(*final(selected)) == reselected(convs_view(old(convs)@), *old(selected), convs_view(fresh@)),
{
    if same_listing_exec(&fresh, convs) {
        return;
    }
    let ghost old_view = convs_view(convs@);
    let previous: Option<String> = match *selected {
        Some(i) => if i < convs.len() {
            assert(old_view[i as int] == convs@[i as int]@);
            Some(convs[i].filename.clone())
        } else {
            None
        },
        None => None,
    };
    *convs = fresh;
    *selected = match previous {
        Some(name) => position_of_filename(convs, name.as_str()),
        None => None,
    };
}

/// Index of the first session in `cs` whose file name is `name`.
fn position_of_filename(cs: &Vec<ConversationInfo>, name: &str) -> (r: Option<usize>)
    ensures
        opt_index(r) == find_filename(convs_view(cs@), name@, 0),
{
    let ghost v = convs_view(cs@);
    let mut k: usize = 0;
    while k < cs.len()
        invariant
            k <= cs.len(),
            v == convs_view(cs@),
            find_filename(v, name@, 0) == find_filename(v, name@, k as int),
        decreases cs.len() - k,
    {
        assert(v[k as int] == cs@[k as int]@);
        if same_text(cs[k].filename.as_str(), name) {
            return Some(k);
        }
        k = k + 1;
    }
    None
}

pub open spec fn opt_index(i: Option<usize>) -> Option<int> {
    match i {
        Some(x) => Some(x as int),
        None => None,
    }
}

// ---------- one file ----------

/// The list entry for a file whose summary is `sum`: the time is that of
/// its last message, or the file's own modification time `mtime` when no
/// message has a readable timestamp.
pub open spec fn entry_of(path: PathBuf, filename: Seq<char>, project: Seq<char>, sum: SummaryV, mtime: int) -> ConvV {
    ConvV {
        path,
        filename,
        project,
        title: sum.title,
        message_count: sum.count,
        modified: match sum.last_time { Some(t) => t, None => mtime },
        branch: sum.branch,
        first_user_uuid: sum.first_user_uuid,
        is_rewind: false,
    }
}

/// What each line of a file reads as JSON.
pub open spec fn parsed_lines(lines: Seq<Seq<char>>) -> Seq<Option<crate::json::JsonV>> {
    lines.map_values(|l: Seq<char>| crate::json::json_parse(l))
}

/// The list entry for the file `filename` in folder `project` with text
/// `contents`: the file is split into lines, each line read as JSON, and the
/// lines summarized; `None` for a file without messages.
pub fn conversation_from(
    path: PathBuf,
    filename: String,
    project: String,
    contents: &str,
    mtime: i128,
) -> (r: Option<ConversationInfo>)
    ensures
        ({
            let lines = crate::sections::lines_from(contents@, 0);
            let rs = parsed_lines(lines);
            let sum = session_summary(lines, rs, record_times(rs));
            &&& sum is None ==> r is None
            &&& sum matches Some(s) ==> r matches Some(c) && c@ == entry_of(path, filename@, project@, s, mtime as int)
        }),
{
    let (lines, records) = crate::lines::parse_lines(contents);
    proof {
        let ls = crate::sections::lines_from(contents@, 0);
        assert(lines@.map_values(|l: String| l@) =~= ls);
        assert(records@.map_values(|x: Option<Json>| rec_view(x)) =~= parsed_lines(ls));
    }
    match summarize_session(&lines, &records) {
        None => None,
        Some(sum) => {
            let modified = match sum.last_msg_time {
                Some(t) => t,
                None => mtime,
            };
            Some(ConversationInfo {
                path,
                filename,
                project,
                title: sum.title,
                message_count: sum.message_count,
                modified,
                branch: sum.branch,
                first_user_uuid: sum.first_user_uuid,
                is_rewind: false,
            })
        },
    }
}

/// `s` with every trailing copy of `suffix` removed (`trim_end_matches`).
pub open spec fn trim_suffixes(s: Seq<char>, suffix: Seq<char>) -> Seq<char>
    decreases s.len(),
{
    if suffix.len() > 0 && s.len() >= suffix.len() && s.subrange(s.len() - suffix.len(), s.len() as int) == suffix {
        trim_suffixes(s.subrange(0, s.len() - suffix.len()), suffix)
    } else {
        s
    }
}

/// Name of the marker file that tells that a session was released (rewound
/// or deleted) by the desktop app: the session's name without its
/// `.jsonl` endings, then `.desktop-released.json`.
pub fn released_marker_name(filename: &str) -> (r: String)
    ensures
        r@ == trim_suffixes(filename@, ".jsonl"@) + ".desktop-released.json"@,
{
    let cs = chars_of(filename);
    let suffix = chars_of(".jsonl");
    proof {
        reveal_strlit(".jsonl");
    }
    let mut n = cs.len();
    assert(cs@.subrange(0, n as int) =~= cs@);
    while n >= 6 && ends_with_at(&cs, &suffix, n)
        invariant
            n <= cs.len(),
            suffix@ == ".jsonl"@,
            suffix.len() == 6,
            trim_suffixes(cs@, ".jsonl"@) == trim_suffixes(cs@.subrange(0, n as int), ".jsonl"@),
        decreases n,
    {
        let ghost t = cs@.subrange(0, n as int);
        assert(t.subrange(t.len() - 6, t.len() as int) =~= cs@.subrange(n - 6, n as int));
        assert(t.subrange(0, t.len() - 6) =~= cs@.subrange(0, n - 6));
        n = n - 6;
    }
    proof {
        let t = cs@.subrange(0, n as int);
        if n >= 6 {
            assert(t.subrange(t.len() - 6, t.len() as int) =~= cs@.subrange(n - 6, n as int));
        }
    }
    let mut out: Vec<char> = Vec::new();
    push_range(&mut out, &cs, 0, n);
    push_str(&mut out, ".desktop-released.json");
    string_from_chars(&out)
}

/// Whether `cs[n - 6..n]` is `suffix`.
fn ends_with_at(cs: &Vec<char>, suffix: &Vec<char>, n: usize) -> (r: bool)
    requires
        suffix.len() == 6,
        6 <= n <= cs.len(),
    ensures
        r == (cs@.subrange(n - 6, n as int) == suffix@),
{
    let mut k: usize = 0;
    while k < 6
        invariant
            k <= 6,
            suffix.len() == 6,
            6 <= n <= cs.len(),
            forall|j: int| 0 <= j < k ==> cs@[n - 6 + j] == suffix@[j],
        decreases 6 - k,
    {
        if cs[n - 6 + k] != suffix[k] {
            assert(cs@.subrange(n - 6, n as int)[k as int] != suffix@[k as int]);
            return false;
        }
        k = k + 1;
    }
    assert(cs@.subrange(n - 6, n as int) =~= suffix@);
    true
}

} // verus!
