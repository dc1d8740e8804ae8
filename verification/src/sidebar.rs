//! What the sidebar shows of the session list: how many sessions are shown
//! and hidden, the search filter, and the groups by project.

use vstd::prelude::*;
use crate::convs::{ConversationInfo, ConvV, convs_view};
use crate::json::same_text;
use crate::sections::{find_seq, find_pattern};
use crate::text::{chars_of, push_str, push_decimal, decimal, string_from_chars, short_project_name, after_last_dash};

verus! {

/// Whether a session is listed when rewinds are shown or hidden.
pub open spec fn visible(c: ConvV, show_rewinds: bool) -> bool {
    show_rewinds || !c.is_rewind
}

/// How many of the first `n` sessions are listed.
pub open spec fn shown_count(cs: Seq<ConvV>, show_rewinds: bool, n: int) -> nat
    decreases n,
{
    if n <= 0 {
        0
    } else {
        shown_count(cs, show_rewinds, n - 1) + if visible(cs[n - 1], show_rewinds) { 1nat } else { 0nat }
    }
}

proof fn lemma_shown_count_bound(cs: Seq<ConvV>, show_rewinds: bool, n: int)
    requires
        0 <= n,
    ensures
        shown_count(cs, show_rewinds, n) <= n,
    decreases n,
{
    if n > 0 {
        lemma_shown_count_bound(cs, show_rewinds, n - 1);
    }
}

/// Number of sessions the sidebar lists.
pub fn count_shown(cs: &Vec<ConversationInfo>, show_rewinds: bool) -> (r: usize)
    ensures
        r == shown_count(convs_view(cs@), show_rewinds, cs.len() as int),
        r <= cs.len(),
{
    let ghost v = convs_view(cs@);
    let mut n: usize = 0;
    let mut i: usize = 0;
    while i < cs.len()
        invariant
            i <= cs.len(),
            v == convs_view(cs@),
            n == shown_count(v, show_rewinds, i as int),
            n <= i,
        decreases cs.len() - i,
    {
        assert(v[i as int] == cs@[i as int]@);
        if show_rewinds || !cs[i].is_rewind {
            n = n + 1;
        }
        i = i + 1;
    }
    n
}

/// The count above the list: the number shown, and how many rewinds are
/// hidden when there are any and rewinds are off.
pub open spec fn count_label(shown: nat, hidden: nat, show_rewinds: bool) -> Seq<char> {
    if hidden > 0 && !show_rewinds {
        decimal(shown) + " (+"@ + decimal(hidden) + " rewind)"@
    } else {
        decimal(shown)
    }
}

/// The sidebar's count for `cs`.
pub fn sidebar_count(cs: &Vec<ConversationInfo>, show_rewinds: bool) -> (r: String)
    ensures
        r@ == count_label(
            shown_count(convs_view(cs@), show_rewinds, cs.len() as int),
            (cs.len() - shown_count(convs_view(cs@), show_rewinds, cs.len() as int)) as nat,
            show_rewinds,
        ),
{
    let shown = count_shown(cs, show_rewinds);
    let hidden = cs.len() - shown;
    let mut out: Vec<char> = Vec::new();
    push_decimal(&mut out, shown as u64);
    if hidden > 0 && !show_rewinds {
        push_str(&mut out, " (+");
        push_decimal(&mut out, hidden as u64);
        push_str(&mut out, " rewind)");
    }
    proof {
        reveal_strlit(" (+");
        reveal_strlit(" rewind)");
    }
    assert(out@ =~= count_label(shown as nat, hidden as nat, show_rewinds));
    string_from_chars(&out)
}

// ---------- projects ----------

/// The project folders the sessions come from.
pub open spec fn project_set(cs: Seq<ConvV>) -> Set<Seq<char>> {
    cs.map_values(|c: ConvV| c.project).to_set()
}

/// Number of distinct project folders among the sessions.
pub fn count_projects(cs: &Vec<ConversationInfo>) -> (r: usize)
    ensures
        r == project_set(convs_view(cs@)).len(),
{
    let ghost v = convs_view(cs@);
    let mut seen: Vec<String> = Vec::new();
    let mut i: usize = 0;
    while i < cs.len()
        invariant
            i <= cs.len(),
            v == convs_view(cs@),
            seen.len() <= i,
            seen@.map_values(|s: String| s@).no_duplicates(),
            seen@.map_values(|s: String| s@).to_set() == v.take(i as int).map_values(|c: ConvV| c.project).to_set(),
        decreases cs.len() - i,
    {
        let ghost before = seen@.map_values(|s: String| s@);
        let ghost p = v[i as int].project;
        assert(v[i as int] == cs@[i as int]@);
        assert(v.take(i + 1).map_values(|c: ConvV| c.project) =~= v.take(i as int).map_values(|c: ConvV| c.project).push(p));
        let mut k: usize = 0;
        let mut found = false;
        while k < seen.len()
            invariant
                k <= seen.len(),
                i < cs.len(),
                p == cs@[i as int].project@,
                before == seen@.map_values(|s: String| s@),
                found ==> before.contains(p),
                !found ==> forall|j: int| 0 <= j < k ==> before[j] != p,
            decreases seen.len() - k,
        {
            assert(before[k as int] == seen@[k as int]@);
            if same_text(seen[k].as_str(), cs[i].project.as_str()) {
                found = true;
            }
            k = k + 1;
        }
        if !found {
            seen.push(cs[i].project.clone());
            assert(seen@.map_values(|s: String| s@) =~= before.push(p));
            assert(!before.contains(p));
        }
        proof {
            v.take(i as int).map_values(|c: ConvV| c.project).lemma_push_to_set_commute(p);
            if !found {
                before.lemma_push_to_set_commute(p);
            } else {
                assert(before.to_set().insert(p) =~= before.to_set());
            }
        }
        i = i + 1;
    }
    proof {
        assert(v.take(cs.len() as int) =~= v);
        seen@.map_values(|s: String| s@).unique_seq_to_set();
    }
    seen.len()
}

/// The status line after a scan: how many projects and sessions were found
/// under which folder.
pub fn scan_status(cs: &Vec<ConversationInfo>, root: &str) -> (r: String)
    ensures
        r@ == "Проектов: "@ + decimal(project_set(convs_view(cs@)).len()) + " · диалогов: "@
            + decimal(cs.len() as nat) + " · "@ + root@,
{
    let projects = count_projects(cs);
    let mut out: Vec<char> = Vec::new();
    push_str(&mut out, "Проектов: ");
    push_decimal(&mut out, projects as u64);
    push_str(&mut out, " · диалогов: ");
    push_decimal(&mut out, cs.len() as u64);
    push_str(&mut out, " · ");
    push_str(&mut out, root);
    string_from_chars(&out)
}

// ---------- search and groups ----------

/// What `str::to_lowercase` gives for `s`.
pub uninterp spec fn lowercase(s: Seq<char>) -> Seq<char>;

/// `str::to_lowercase`: the lowercase mapping of each character of `s`;
/// the result is named `lowercase` of the input and nothing more is stated.
#[verifier::external_body]
fn to_lower(s: &str) -> (r: String)
    ensures
        r@ == lowercase(s@),
{
    s.to_lowercase()
}

/// The text the search looks in: title, file name, branch and project, each
/// lowercased, with a space between them.
pub open spec fn haystack(c: ConvV) -> Seq<char> {
    lowercase(c.title) + " "@ + lowercase(c.filename) + " "@
        + lowercase(match c.branch { Some(b) => b, None => Seq::empty() }) + " "@ + lowercase(c.project)
}

/// Whether the sidebar lists `c` for the lowercased search text `filter`.
pub open spec fn listed(c: ConvV, show_rewinds: bool, filter: Seq<char>) -> bool {
    visible(c, show_rewinds) && (filter.len() == 0 || find_seq(haystack(c), filter, 0) is Some)
}

/// A project and the places in the session list of its listed sessions.
pub struct ProjectGroup {
    pub project: String,
    pub members: Vec<usize>,
}

pub open spec fn groups_view(gs: Seq<ProjectGroup>) -> Seq<(Seq<char>, Seq<usize>)> {
    gs.map_values(|g: ProjectGroup| (g.project@, g.members@))
}

/// First group at or after `i` for project `p`.
pub open spec fn group_position(gs: Seq<(Seq<char>, Seq<usize>)>, p: Seq<char>, i: int) -> Option<int>
    decreases gs.len() - i,
{
    if i < 0 || i >= gs.len() {
        None
    } else if gs[i].0 == p {
        Some(i)
    } else {
        group_position(gs, p, i + 1)
    }
}

proof fn lemma_group_position(gs: Seq<(Seq<char>, Seq<usize>)>, p: Seq<char>, i: int)
    requires
        0 <= i,
    ensures
        group_position(gs, p, i) matches Some(k) ==> i <= k < gs.len() && gs[k].0 == p,
        group_position(gs, p, i) is None ==> forall|k: int| i <= k < gs.len() ==> (#[trigger] gs[k]).0 != p,
    decreases gs.len() - i,
{
    if i < gs.len() && gs[i].0 != p {
        lemma_group_position(gs, p, i + 1);
    }
}

/// Adds session `i` of project `p`: to the end of its group, or as a new
/// group at the end.
pub open spec fn add_to_group(gs: Seq<(Seq<char>, Seq<usize>)>, p: Seq<char>, i: usize) -> Seq<(Seq<char>, Seq<usize>)> {
    match group_position(gs, p, 0) {
        Some(k) => gs.update(k, (gs[k].0, gs[k].1.push(i))),
        None => gs.push((p, seq![i])),
    }
}

/// The groups of the first `n` sessions: projects in the order of their
/// first listed session, each with its listed sessions in list order.
pub open spec fn groups_upto(cs: Seq<ConvV>, show_rewinds: bool, filter: Seq<char>, n: int) -> Seq<(Seq<char>, Seq<usize>)>
    decreases n,
{
    if n <= 0 {
        Seq::empty()
    } else {
        let g = groups_upto(cs, show_rewinds, filter, n - 1);
        if listed(cs[n - 1], show_rewinds, filter) {
            add_to_group(g, cs[n - 1].project, (n - 1) as usize)
        } else {
            g
        }
    }
}

/// What the grouping promises for the first `n` sessions: no project has
/// two groups; every member of a group is a listed session of that
/// project; every listed session is in its project's group; and members
/// keep the order of the list.
pub open spec fn grouping_ok(cs: Seq<ConvV>, show_rewinds: bool, filter: Seq<char>, n: int, gs: Seq<(Seq<char>, Seq<usize>)>) -> bool {
    &&& forall|a: int, b: int| 0 <= a < b < gs.len() ==> (#[trigger] gs[a]).0 != (#[trigger] gs[b]).0
    &&& forall|g: int, k: int| 0 <= g < gs.len() && 0 <= k < gs[g].1.len() ==> {
        let i = #[trigger] gs[g].1[k];
        &&& i < n
        &&& listed(cs[i as int], show_rewinds, filter)
        &&& cs[i as int].project == gs[g].0
    }
    &&& forall|i: int| 0 <= i < n && listed(#[trigger] cs[i], show_rewinds, filter) ==> exists|g: int|
        0 <= g < gs.len() && gs[g].0 == cs[i].project && (#[trigger] gs[g].1).contains(i as usize)
    &&& forall|g: int, k: int, l: int| 0 <= g < gs.len() && 0 <= k < l < gs[g].1.len() ==> (#[trigger] gs[g].1[k]) < (#[trigger] gs[g].1[l])
}

/// The sidebar's groups split the listed sessions by project, one group per
/// project, each in list order (see `grouping_ok`).
pub proof fn lemma_groups_partition(cs: Seq<ConvV>, show_rewinds: bool, filter: Seq<char>, n: int)
    requires
        0 <= n <= cs.len(),
        n <= usize::MAX,
    ensures
        grouping_ok(cs, show_rewinds, filter, n, groups_upto(cs, show_rewinds, filter, n)),
    decreases n,
{
    if n > 0 {
        lemma_groups_partition(cs, show_rewinds, filter, n - 1);
        let gs = groups_upto(cs, show_rewinds, filter, n - 1);
        let i = (n - 1) as usize;
        let c = cs[n - 1];
        if listed(c, show_rewinds, filter) {
            let p = c.project;
            lemma_group_position(gs, p, 0);
            let r = add_to_group(gs, p, i);
            match group_position(gs, p, 0) {
                Some(k) => {
                    assert(r == gs.update(k, (gs[k].0, gs[k].1.push(i))));
                    assert forall|g: int, j: int| 0 <= g < r.len() && 0 <= j < r[g].1.len() implies {
                        let x = #[trigger] r[g].1[j];
                        &&& x < n
                        &&& listed(cs[x as int], show_rewinds, filter)
                        &&& cs[x as int].project == r[g].0
                    } by {
                        if g == k && j == gs[k].1.len() {
                        } else {
                            assert(r[g].1[j] == gs[g].1[j]);
                        }
                    }
                    assert forall|x: int| 0 <= x < n && listed(#[trigger] cs[x], show_rewinds, filter) implies exists|g: int|
                        0 <= g < r.len() && r[g].0 == cs[x].project && (#[trigger] r[g].1).contains(x as usize) by {
                        if x == n - 1 {
                            assert(r[k].1[gs[k].1.len() as int] == i);
                        } else {
                            let g = choose|g: int| 0 <= g < gs.len() && gs[g].0 == cs[x].project && (#[trigger] gs[g].1).contains(x as usize);
                            let j = choose|j: int| 0 <= j < gs[g].1.len() && gs[g].1[j] == x as usize;
                            assert(r[g].1[j] == x as usize);
                        }
                    }
                    assert forall|g: int, a: int, b: int| 0 <= g < r.len() && 0 <= a < b < r[g].1.len() implies (#[trigger] r[g].1[a]) < (#[trigger] r[g].1[b]) by {
                        if g == k && b == gs[k].1.len() {
                            assert(r[g].1[a] == gs[k].1[a]);
                            assert(gs[k].1[a] < n - 1);
                        } else {
                            assert(r[g].1[a] == gs[g].1[a]);
                            assert(r[g].1[b] == gs[g].1[b]);
                        }
                    }
                },
                None => {
                    assert(r == gs.push((p, seq![i])));
                    assert forall|g: int, j: int| 0 <= g < r.len() && 0 <= j < r[g].1.len() implies {
                        let x = #[trigger] r[g].1[j];
                        &&& x < n
                        &&& listed(cs[x as int], show_rewinds, filter)
                        &&& cs[x as int].project == r[g].0
                    } by {
                        if g < gs.len() {
                            assert(r[g] == gs[g]);
                        }
                    }
                    assert forall|x: int| 0 <= x < n && listed(#[trigger] cs[x], show_rewinds, filter) implies exists|g: int|
                        0 <= g < r.len() && r[g].0 == cs[x].project && (#[trigger] r[g].1).contains(x as usize) by {
                        if x == n - 1 {
                            let g = gs.len() as int;
                            assert(r[g].1[0] == i);
                        } else {
                            let g = choose|g: int| 0 <= g < gs.len() && gs[g].0 == cs[x].project && (#[trigger] gs[g].1).contains(x as usize);
                            assert(r[g] == gs[g]);
                        }
                    }
                    assert forall|g: int, a: int, b: int| 0 <= g < r.len() && 0 <= a < b < r[g].1.len() implies (#[trigger] r[g].1[a]) < (#[trigger] r[g].1[b]) by {
                        assert(r[g] == gs[g]);
                    }
                    assert forall|a: int, b: int| 0 <= a < b < r.len() implies (#[trigger] r[a]).0 != (#[trigger] r[b]).0 by {
                        if b == gs.len() {
                            assert(gs[a].0 != p);
                        }
                    }
                },
            }
        }
    }
}

/// Whether `c` is listed for the lowercased, non-empty search `filter`.
fn matches_search(c: &ConversationInfo, filter: &Vec<char>) -> (r: bool)
    requires
        filter.len() > 0,
    ensures
        r == (find_seq(haystack(c@), filter@, 0) is Some),
{
    let mut hay: Vec<char> = Vec::new();
    let t = to_lower(c.title.as_str());
    push_str(&mut hay, t.as_str());
    hay.push(' ');
    let f = to_lower(c.filename.as_str());
    push_str(&mut hay, f.as_str());
    hay.push(' ');
    let b = match &c.branch {
        Some(b) => to_lower(b.as_str()),
        None => to_lower(""),
    };
    push_str(&mut hay, b.as_str());
    hay.push(' ');
    let p = to_lower(c.project.as_str());
    push_str(&mut hay, p.as_str());
    proof {
        reveal_strlit(" ");
        reveal_strlit("");
        if c@.branch is None {
            assert(""@ =~= Seq::<char>::empty());
        }
    }
    assert(hay@ =~= haystack(c@));
    match find_pattern(&hay, filter, 0) {
        Some(_) => true,
        None => false,
    }
}

/// Groups the listed sessions by project, for the search text `search`
/// (matched without regard to case).
pub fn sidebar_groups(cs: &Vec<ConversationInfo>, show_rewinds: bool, search: &str) -> (r: Vec<ProjectGroup>)
    ensures
        groups_view(r@) == groups_upto(convs_view(cs@), show_rewinds, lowercase(search@), cs.len() as int),
{
    let ghost v = convs_view(cs@);
    let filter_text = to_lower(search);
    let filter = chars_of(filter_text.as_str());
    let mut groups: Vec<ProjectGroup> = Vec::new();
    let mut i: usize = 0;
    while i < cs.len()
        invariant
            i <= cs.len(),
            v == convs_view(cs@),
            filter@ == lowercase(search@),
            groups_view(groups@) == groups_upto(v, show_rewinds, filter@, i as int),
        decreases cs.len() - i,
    {
        assert(v[i as int] == cs@[i as int]@);
        let shown = show_rewinds || !cs[i].is_rewind;
        let wanted = shown && (filter.len() == 0 || matches_search(&cs[i], &filter));
        if wanted {
            add_member(&mut groups, &cs[i].project, i);
        }
        i = i + 1;
    }
    groups
}

/// Adds session `i` of project `p` to `groups` (see `add_to_group`).
fn add_member(groups: &mut Vec<ProjectGroup>, p: &String, i: usize)
    ensures
        groups_view(final(groups)@) == add_to_group(groups_view(old(groups)@), p@, i),
{
    let ghost gv = groups_view(groups@);
    let mut k: usize = 0;
    while k < groups.len()
        invariant
            k <= groups.len(),
            gv == groups_view(groups@),
            groups@ == old(groups)@,
            group_position(gv, p@, 0) == group_position(gv, p@, k as int),
        decreases groups.len() - k,
    {
        assert(gv[k as int] == (groups@[k as int].project@, groups@[k as int].members@));
        if same_text(groups[k].project.as_str(), p.as_str()) {
            assert(group_position(gv, p@, 0) == Some(k as int));
            let mut members: Vec<usize> = Vec::new();
            let mut j: usize = 0;
            while j < groups[k].members.len()
                invariant
                    k < groups.len(),
                    gv == groups_view(groups@),
                    group_position(gv, p@, 0) == Some(k as int),
                    j <= groups@[k as int].members.len(),
                    members@ == groups@[k as int].members@.take(j as int),
                decreases groups@[k as int].members.len() - j,
            {
                members.push(groups[k].members[j]);
                j = j + 1;
                assert(members@ =~= groups@[k as int].members@.take(j as int));
            }
            assert(members@ =~= groups@[k as int].members@);
            members.push(i);
            let g = ProjectGroup { project: groups[k].project.clone(), members };
            groups.set(k, g);
            assert(groups_view(groups@) =~= gv.update(k as int, (gv[k as int].0, gv[k as int].1.push(i))));
            return;
        }
        k = k + 1;
    }
    let mut members: Vec<usize> = Vec::new();
    members.push(i);
    groups.push(ProjectGroup { project: p.clone(), members });
    assert(groups_view(groups@) =~= gv.push((p@, seq![i])));
}

/// A group's header: `+` when folded or `−` when open, the short project
/// name, and the number of sessions in the group.
pub fn group_header(project: &str, collapsed: bool, count: usize) -> (r: String)
    ensures
        r@ == (if collapsed { "+"@ } else { "−"@ }) + "  "@
            + (if after_last_dash(project@).len() == 0 { project@ } else { after_last_dash(project@) })
            + "  ("@ + decimal(count as nat) + ")"@,
{
    let mut out: Vec<char> = Vec::new();
    if collapsed {
        push_str(&mut out, "+");
    } else {
        push_str(&mut out, "−");
    }
    push_str(&mut out, "  ");
    let short = short_project_name(project);
    push_str(&mut out, short.as_str());
    push_str(&mut out, "  (");
    push_decimal(&mut out, count as u64);
    push_str(&mut out, ")");
    string_from_chars(&out)
}

} // verus!
