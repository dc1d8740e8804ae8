//! Applying the edits and deletions asked for during one frame: edits in
//! the order they were asked for; deletions from the last message to the
//! first, each index once, so that an earlier deletion does not move the
//! messages a later one names.

use vstd::prelude::*;
use crate::session::{Session, SessionV, session_wf, after_edit, after_delete};

verus! {

/// `x` placed into the strictly decreasing `sorted`, unless it is there
/// already.
pub open spec fn insert_desc(sorted: Seq<usize>, x: usize) -> Seq<usize>
    decreases sorted.len(),
{
    if sorted.len() == 0 {
        seq![x]
    } else if sorted[0] == x {
        sorted
    } else if sorted[0] < x {
        seq![x] + sorted
    } else {
        seq![sorted[0]] + insert_desc(sorted.drop_first(), x)
    }
}

/// The values of `s`, each once, from largest to smallest (a descending
/// sort followed by `dedup`).
pub open spec fn desc_unique(s: Seq<usize>) -> Seq<usize>
    decreases s.len(),
{
    if s.len() == 0 {
        Seq::empty()
    } else {
        insert_desc(desc_unique(s.drop_last()), s.last())
    }
}

pub open spec fn strictly_decreasing(s: Seq<usize>) -> bool {
    forall|i: int, j: int| 0 <= i < j < s.len() ==> (#[trigger] s[i]) > (#[trigger] s[j])
}

proof fn lemma_insert_desc_at(sorted: Seq<usize>, p: int, x: usize)
    requires
        0 <= p <= sorted.len(),
        p < sorted.len() ==> sorted[p] <= x,
        forall|k: int| 0 <= k < p ==> (#[trigger] sorted[k]) > x,
    ensures
        insert_desc(sorted, x) == (if p < sorted.len() && sorted[p] == x { sorted } else { sorted.insert(p, x) }),
    decreases p,
{
    if p == 0 {
        if sorted.len() == 0 {
            assert(seq![x] =~= sorted.insert(0, x));
        } else if sorted[0] != x {
            assert(seq![x] + sorted =~= sorted.insert(0, x));
        }
    } else {
        assert(sorted[0] > x);
        let rest = sorted.drop_first();
        assert forall|k: int| 0 <= k < p - 1 implies (#[trigger] rest[k]) > x by {
            assert(rest[k] == sorted[k + 1]);
        }
        lemma_insert_desc_at(rest, p - 1, x);
        if p < sorted.len() && sorted[p] == x {
            assert(rest[p - 1] == sorted[p]);
            assert(seq![sorted[0]] + rest =~= sorted);
        } else {
            if p < sorted.len() {
                assert(rest[p - 1] == sorted[p]);
            }
            assert(seq![sorted[0]] + rest.insert(p - 1, x) =~= sorted.insert(p, x));
        }
    }
}

/// The indices of `idxs`, each once, from largest to smallest.
pub fn descending_unique(idxs: &Vec<usize>) -> (r: Vec<usize>)
    ensures
        r@ == desc_unique(idxs@),
{
    let mut out: Vec<usize> = Vec::new();
    let mut i: usize = 0;
    while i < idxs.len()
        invariant
            i <= idxs.len(),
            out@ == desc_unique(idxs@.take(i as int)),
        decreases idxs.len() - i,
    {
        let x = idxs[i];
        let mut p: usize = 0;
        while p < out.len() && out[p] > x
            invariant
                p <= out.len(),
                forall|k: int| 0 <= k < p ==> (#[trigger] out@[k]) > x,
            decreases out.len() - p,
        {
            p = p + 1;
        }
        proof {
            lemma_insert_desc_at(out@, p as int, x);
            assert(idxs@.take(i + 1).drop_last() =~= idxs@.take(i as int));
            assert(idxs@.take(i + 1).last() == x);
        }
        if !(p < out.len() && out[p] == x) {
            out.insert(p, x);
        }
        i = i + 1;
    }
    assert(idxs@.take(idxs.len() as int) =~= idxs@);
    out
}

proof fn lemma_insert_desc_props(sorted: Seq<usize>, x: usize)
    requires
        strictly_decreasing(sorted),
    ensures
        strictly_decreasing(insert_desc(sorted, x)),
        insert_desc(sorted, x).to_set() == sorted.to_set().insert(x),
    decreases sorted.len(),
{
    let r = insert_desc(sorted, x);
    if sorted.len() == 0 {
        assert(r.to_set() =~= sorted.to_set().insert(x)) by {
            assert(r =~= seq![x]);
            assert forall|y: usize| r.to_set().contains(y) <==> sorted.to_set().insert(x).contains(y) by {
                if r.contains(y) {
                    assert(r[0] == y);
                }
                if y == x {
                    assert(r[0] == x);
                }
            }
        }
    } else if sorted[0] == x {
        assert(sorted.contains(x));
        assert(sorted.to_set().insert(x) =~= sorted.to_set());
    } else if sorted[0] < x {
        assert(r =~= seq![x] + sorted);
        assert forall|i: int, j: int| 0 <= i < j < r.len() implies (#[trigger] r[i]) > (#[trigger] r[j]) by {
            if i == 0 {
                assert(r[j] == sorted[j - 1]);
                if j - 1 > 0 {
                    assert(sorted[0] > sorted[j - 1]);
                }
            } else {
                assert(r[i] == sorted[i - 1]);
                assert(r[j] == sorted[j - 1]);
            }
        }
        assert forall|y: usize| r.to_set().contains(y) <==> sorted.to_set().insert(x).contains(y) by {
            if r.contains(y) {
                let k = choose|k: int| 0 <= k < r.len() && r[k] == y;
                if k > 0 {
                    assert(sorted[k - 1] == y);
                }
            }
            if sorted.contains(y) {
                let k = choose|k: int| 0 <= k < sorted.len() && sorted[k] == y;
                assert(r[k + 1] == y);
            }
            if y == x {
                assert(r[0] == x);
            }
        }
        assert(r.to_set() =~= sorted.to_set().insert(x));
    } else {
        let rest = sorted.drop_first();
        let ri = insert_desc(rest, x);
        assert forall|i: int, j: int| 0 <= i < j < rest.len() implies (#[trigger] rest[i]) > (#[trigger] rest[j]) by {
            assert(rest[i] == sorted[i + 1]);
            assert(rest[j] == sorted[j + 1]);
        }
        lemma_insert_desc_props(rest, x);
        assert(r =~= seq![sorted[0]] + ri);
        assert forall|y: usize| r.to_set().contains(y) <==> sorted.to_set().insert(x).contains(y) by {
            if r.contains(y) {
                let k = choose|k: int| 0 <= k < r.len() && r[k] == y;
                if k > 0 {
                    assert(ri[k - 1] == y);
                    assert(ri.to_set().contains(y));
                    if y != x {
                        assert(rest.to_set().contains(y));
                        let m = choose|m: int| 0 <= m < rest.len() && rest[m] == y;
                        assert(sorted[m + 1] == y);
                    }
                } else {
                    assert(sorted[0] == y);
                }
            }
            if sorted.contains(y) {
                let k = choose|k: int| 0 <= k < sorted.len() && sorted[k] == y;
                if k == 0 {
                    assert(r[0] == y);
                } else {
                    assert(rest[k - 1] == y);
                    assert(rest.to_set().contains(y));
                    assert(ri.to_set().contains(y));
                    let m = choose|m: int| 0 <= m < ri.len() && ri[m] == y;
                    assert(r[m + 1] == y);
                }
            }
            if y == x {
                assert(ri.to_set().contains(x));
                let m = choose|m: int| 0 <= m < ri.len() && ri[m] == x;
                assert(r[m + 1] == x);
            }
        }
        assert(r.to_set() =~= sorted.to_set().insert(x));
        assert forall|i: int, j: int| 0 <= i < j < r.len() implies (#[trigger] r[i]) > (#[trigger] r[j]) by {
            if i == 0 {
                assert(r[j] == ri[j - 1]);
                let y = ri[j - 1];
                assert(ri.to_set().contains(y));
                if y != x {
                    assert(rest.to_set().contains(y));
                    let m = choose|m: int| 0 <= m < rest.len() && rest[m] == y;
                    assert(sorted[m + 1] == y);
                }
            } else {
                assert(r[i] == ri[i - 1]);
                assert(r[j] == ri[j - 1]);
            }
        }
    }
}

/// The deletion order holds each index of `s` once, largest first, and
/// nothing else.
pub proof fn lemma_desc_unique(s: Seq<usize>)
    ensures
        strictly_decreasing(desc_unique(s)),
        desc_unique(s).to_set() == s.to_set(),
    decreases s.len(),
{
    if s.len() == 0 {
        assert(desc_unique(s).to_set() =~= s.to_set());
    } else {
        lemma_desc_unique(s.drop_last());
        lemma_insert_desc_props(desc_unique(s.drop_last()), s.last());
        s.drop_last().lemma_push_to_set_commute(s.last());
        assert(s.drop_last().push(s.last()) =~= s);
    }
}

/// The session after the edits of messages `ks`, in order.
pub open spec fn edits_applied(s: SessionV, ks: Seq<usize>) -> SessionV
    decreases ks.len(),
{
    if ks.len() == 0 {
        s
    } else {
        after_edit(edits_applied(s, ks.drop_last()), ks.last() as int)
    }
}

/// The session after messages `ks` are deleted one after the other.
pub open spec fn deletes_applied(s: SessionV, ks: Seq<usize>) -> SessionV
    decreases ks.len(),
{
    if ks.len() == 0 {
        s
    } else {
        after_delete(deletes_applied(s, ks.drop_last()), ks.last() as int)
    }
}

impl Session {
    /// Commits the edit buffers of messages `idxs`, in that order.
    pub fn commit_edits(&mut self, idxs: &Vec<usize>)
        requires
            session_wf(old(self)@),
            forall|k: int| 0 <= k < idxs.len() ==> (#[trigger] idxs@[k]) < old(self).messages.len(),
        ensures
            final(self)@ == edits_applied(old(self)@, idxs@),
            session_wf(final(self)@),
    {
        let ghost s0 = self@;
        let mut i: usize = 0;
        while i < idxs.len()
            invariant
                i <= idxs.len(),
                session_wf(self@),
                self@ == edits_applied(s0, idxs@.take(i as int)),
                self.messages.len() == s0.messages.len(),
                forall|k: int| 0 <= k < idxs.len() ==> (#[trigger] idxs@[k]) < s0.messages.len(),
            decreases idxs.len() - i,
        {
            assert(idxs@.take(i + 1).drop_last() =~= idxs@.take(i as int));
            assert(idxs@[i as int] < s0.messages.len());
            let ghost before = self@;
            self.commit_edit(idxs[i]);
            assert(self@.messages.len() == before.messages.len());
            i = i + 1;
        }
        assert(idxs@.take(idxs.len() as int) =~= idxs@);
    }

    /// Deletes messages `idxs`: each index once, from the largest down.
    pub fn commit_deletes(&mut self, idxs: &Vec<usize>)
        requires
            session_wf(old(self)@),
        ensures
            final(self)@ == deletes_applied(old(self)@, desc_unique(idxs@)),
            session_wf(final(self)@),
    {
        let order = descending_unique(idxs);
        let ghost s0 = self@;
        let mut i: usize = 0;
        while i < order.len()
            invariant
                i <= order.len(),
                session_wf(self@),
                self@ == deletes_applied(s0, order@.take(i as int)),
            decreases order.len() - i,
        {
            assert(order@.take(i + 1).drop_last() =~= order@.take(i as int));
            self.commit_delete(order[i]);
            i = i + 1;
        }
        assert(order@.take(order.len() as int) =~= order@);
    }
}

} // verus!
