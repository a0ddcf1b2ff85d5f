//! Bounded collector that retains the `k` nearest candidates offered so far.
//!
//! The mathematical meaning of a whole scan is [`top_k`]: fold every
//! candidate, in visit order, through one bounded stable insertion.  The
//! result is the `k` smallest distances, nearest first, with equal
//! distances kept in visit order.

use vstd::prelude::*;

verus! {

/// One retained candidate: its squared distance to the query vector and
/// the node identifier it belongs to.
#[derive(Clone, Copy, PartialEq, Eq, Structural, Debug)]
pub struct Entry {
    pub dist: u128,
    pub id: usize,
}

/// Entries appear in order of non-decreasing distance.
pub open spec fn sorted_by_dist(s: Seq<Entry>) -> bool {
    forall|i: int, j: int| 0 <= i < j < s.len() ==> s[i].dist <= s[j].dist
}

/// The first `k` elements, or all of them when there are fewer than `k`.
pub open spec fn take_at_most<T>(s: Seq<T>, k: nat) -> Seq<T> {
    if s.len() <= k {
        s
    } else {
        s.take(k as int)
    }
}

/// Stable insertion into a distance-sorted sequence: `e` lands after every
/// entry whose distance is at most `e.dist`.
pub open spec fn insert_by_dist(s: Seq<Entry>, e: Entry) -> Seq<Entry>
    decreases s.len(),
{
    if s.len() == 0 {
        seq![e]
    } else if s.last().dist <= e.dist {
        s.push(e)
    } else {
        insert_by_dist(s.drop_last(), e).push(s.last())
    }
}

/// What one `offer` does to a collector of capacity `k`.
pub open spec fn offer_spec(s: Seq<Entry>, e: Entry, k: nat) -> Seq<Entry> {
    take_at_most(insert_by_dist(s, e), k)
}

/// The `k` nearest entries of `cands`, visited left to right: nearest
/// first, ties kept in visit order.
pub open spec fn top_k(cands: Seq<Entry>, k: nat) -> Seq<Entry>
    decreases cands.len(),
{
    if cands.len() == 0 {
        Seq::<Entry>::empty()
    } else {
        offer_spec(top_k(cands.drop_last(), k), cands.last(), k)
    }
}

/// The position stable insertion puts `e` at: right after the last entry
/// whose distance is at most `e.dist`.
pub open spec fn insert_pos(s: Seq<Entry>, e: Entry) -> int
    decreases s.len(),
{
    if s.len() == 0 {
        0
    } else if s.last().dist <= e.dist {
        s.len() as int
    } else {
        insert_pos(s.drop_last(), e)
    }
}

/// On a sorted sequence, `insert_pos` separates the entries at most
/// `e.dist` from those beyond it, and stable insertion is plain insertion
/// there.
pub proof fn lemma_insert_pos(s: Seq<Entry>, e: Entry)
    requires
        sorted_by_dist(s),
    ensures
        0 <= insert_pos(s, e) <= s.len(),
        forall|x: int| 0 <= x < insert_pos(s, e) ==> s[x].dist <= e.dist,
        forall|x: int| insert_pos(s, e) <= x < s.len() ==> s[x].dist > e.dist,
        insert_by_dist(s, e) =~= s.insert(insert_pos(s, e), e),
    decreases s.len(),
{
    if s.len() == 0 {
    } else if s.last().dist <= e.dist {
        assert forall|x: int| 0 <= x < s.len() implies s[x].dist <= e.dist by {
            if x < s.len() - 1 {
                assert(s[x].dist <= s[s.len() - 1].dist);
            }
        }
    } else {
        lemma_insert_pos(s.drop_last(), e);
        let p = insert_pos(s.drop_last(), e);
        assert forall|x: int| 0 <= x < p implies s[x].dist <= e.dist by {
            assert(s.drop_last()[x] == s[x]);
        }
        assert forall|x: int| p <= x < s.len() implies s[x].dist > e.dist by {
            if x < s.len() - 1 {
                assert(s.drop_last()[x] == s[x]);
            }
        }
        assert(insert_by_dist(s, e) =~= s.drop_last().insert(p, e).push(s.last()));
        assert(s.drop_last().insert(p, e).push(s.last()) =~= s.insert(p, e));
    }
}

/// Stable insertion is insertion at the unique position `p` that separates
/// the entries at most `e.dist` from those beyond it.
proof fn lemma_insert_by_dist_at(s: Seq<Entry>, e: Entry, p: int)
    requires
        sorted_by_dist(s),
        0 <= p <= s.len(),
        forall|x: int| 0 <= x < p ==> s[x].dist <= e.dist,
        forall|x: int| p <= x < s.len() ==> s[x].dist > e.dist,
    ensures
        insert_by_dist(s, e) =~= s.insert(p, e),
    decreases s.len(),
{
    if s.len() == 0 {
    } else if s.last().dist <= e.dist {
        assert(p == s.len());
    } else {
        assert(p < s.len());
        lemma_insert_by_dist_at(s.drop_last(), e, p);
    }
}

/// Stable insertion keeps the sequence sorted, grows it by one, and every
/// entry of the result is either a previous entry or the new one.
pub proof fn lemma_insert_by_dist_props(s: Seq<Entry>, e: Entry)
    requires
        sorted_by_dist(s),
    ensures
        sorted_by_dist(insert_by_dist(s, e)),
        insert_by_dist(s, e).len() == s.len() + 1,
        forall|i: int|
            0 <= i < insert_by_dist(s, e).len() ==> s.contains(
                #[trigger] insert_by_dist(s, e)[i],
            ) || insert_by_dist(s, e)[i] == e,
    decreases s.len(),
{
    let r = insert_by_dist(s, e);
    if s.len() == 0 {
        assert(r[0] == e);
    } else if s.last().dist <= e.dist {
        assert forall|i: int, j: int| 0 <= i < j < r.len() implies r[i].dist <= r[j].dist by {
            if j < s.len() {
            } else {
                assert(r[j] == e);
                if i < s.len() - 1 {
                    assert(s[i].dist <= s[s.len() - 1].dist);
                }
            }
        }
        assert forall|i: int| 0 <= i < r.len() implies s.contains(r[i]) || r[i] == e by {
            if i < s.len() {
                assert(r[i] == s[i]);
                assert(s.contains(s[i]));
            }
        }
    } else {
        let inner = insert_by_dist(s.drop_last(), e);
        lemma_insert_by_dist_props(s.drop_last(), e);
        assert forall|i: int, j: int| 0 <= i < j < r.len() implies r[i].dist <= r[j].dist by {
            if j < inner.len() {
            } else {
                assert(r[j] == s.last());
                let x = inner[i];
                assert(s.drop_last().contains(x) || x == e);
                if s.drop_last().contains(x) {
                    let w = choose|w: int| 0 <= w < s.drop_last().len() && s.drop_last()[w] == x;
                    assert(s[w] == x);
                    assert(s[w].dist <= s[s.len() - 1].dist);
                } else {
                    assert(x == e);
                }
            }
        }
        assert forall|i: int| 0 <= i < r.len() implies s.contains(r[i]) || r[i] == e by {
            if i < inner.len() {
                assert(r[i] == inner[i]);
                assert(s.drop_last().contains(inner[i]) || inner[i] == e);
                if s.drop_last().contains(inner[i]) {
                    let v = choose|v: int|
                        0 <= v < s.drop_last().len() && s.drop_last()[v] == inner[i];
                    assert(s[v] == inner[i]);
                    assert(s.contains(s[v]));
                }
            } else {
                assert(r[i] == s.last());
                assert(s.contains(s[s.len() - 1]));
            }
        }
    }
}

/// A prefix of a sorted sequence is sorted and adds no entry.
proof fn lemma_take_at_most_props(s: Seq<Entry>, k: nat)
    requires
        sorted_by_dist(s),
    ensures
        sorted_by_dist(take_at_most(s, k)),
        take_at_most(s, k).len() == if s.len() <= k { s.len() } else { k },
        forall|i: int|
            0 <= i < take_at_most(s, k).len() ==> s.contains(#[trigger] take_at_most(s, k)[i]),
{
    let t = take_at_most(s, k);
    assert forall|i: int| 0 <= i < t.len() implies s.contains(t[i]) by {
        assert(t[i] == s[i]);
    }
}

/// What a whole scan retains: `min(k, cands.len())` entries, sorted
/// nearest first, every one of them a visited candidate.
pub proof fn lemma_top_k_props(cands: Seq<Entry>, k: nat)
    ensures
        top_k(cands, k).len() == if cands.len() <= k { cands.len() } else { k },
        sorted_by_dist(top_k(cands, k)),
        forall|i: int|
            0 <= i < top_k(cands, k).len() ==> cands.contains(#[trigger] top_k(cands, k)[i]),
    decreases cands.len(),
{
    let t = top_k(cands, k);
    if cands.len() == 0 {
    } else {
        let prev = top_k(cands.drop_last(), k);
        lemma_top_k_props(cands.drop_last(), k);
        lemma_insert_by_dist_props(prev, cands.last());
        lemma_take_at_most_props(insert_by_dist(prev, cands.last()), k);
        assert forall|i: int| 0 <= i < t.len() implies cands.contains(t[i]) by {
            let ins = insert_by_dist(prev, cands.last());
            assert(t[i] == ins[i]);
            assert(prev.contains(ins[i]) || ins[i] == cands.last());
            if prev.contains(t[i]) {
                let w = choose|w: int| 0 <= w < prev.len() && prev[w] == t[i];
                assert(cands.drop_last().contains(prev[w]));
                let v = choose|v: int| 0 <= v < cands.drop_last().len() && cands.drop_last()[v]
                    == t[i];
                assert(cands[v] == t[i]);
            } else {
                assert(cands[cands.len() - 1] == t[i]);
            }
        }
    }
}

/// Entries carry pairwise distinct identifiers.
pub open spec fn distinct_ids(s: Seq<Entry>) -> bool {
    forall|i: int, j: int| 0 <= i < j < s.len() ==> s[i].id != s[j].id
}

/// When the visited candidates carry pairwise distinct identifiers, so do
/// the retained entries.
pub proof fn lemma_top_k_distinct_ids(cands: Seq<Entry>, k: nat)
    requires
        distinct_ids(cands),
    ensures
        distinct_ids(top_k(cands, k)),
    decreases cands.len(),
{
    let t = top_k(cands, k);
    lemma_top_k_props(cands, k);
    if cands.len() == 0 || k == 0 {
    } else {
        let rest = cands.drop_last();
        let prev = top_k(rest, k);
        let e = cands.last();
        assert(distinct_ids(rest));
        lemma_top_k_distinct_ids(rest, k);
        lemma_top_k_props(rest, k);
        lemma_insert_pos(prev, e);
        let p = insert_pos(prev, e);
        prev.insert_ensures(p, e);
        let ins = insert_by_dist(prev, e);
        assert forall|i: int| 0 <= i < prev.len() implies prev[i].id != e.id by {
            assert(rest.contains(prev[i]));
            let w = choose|w: int| 0 <= w < rest.len() && rest[w] == prev[i];
            assert(cands[w] == prev[i]);
            assert(cands[cands.len() - 1] == e);
        }
        assert forall|i: int, j: int| 0 <= i < j < ins.len() implies ins[i].id != ins[j].id by {
            if i < p {
                assert(ins[i] == prev[i]);
            } else if i == p {
                assert(ins[i] == e);
            } else {
                assert(ins[i] == prev[i - 1]);
            }
            if j < p {
                assert(ins[j] == prev[j]);
            } else if j == p {
                assert(ins[j] == e);
            } else {
                assert(ins[j] == prev[j - 1]);
            }
        }
        assert forall|i: int, j: int| 0 <= i < j < t.len() implies t[i].id != t[j].id by {
            assert(t[i] == ins[i] && t[j] == ins[j]);
        }
    }
}

/// No candidate beats the retained entries: every visited candidate either
/// appears among them or, the collector being full, is at least as far as
/// the worst retained entry.
pub proof fn lemma_top_k_optimal(cands: Seq<Entry>, k: nat)
    ensures
        forall|x: int|
            0 <= x < cands.len() ==> k == 0 || top_k(cands, k).contains(#[trigger] cands[x]) || (
            top_k(cands, k).len() == k && cands[x].dist >= top_k(cands, k)[k - 1].dist),
    decreases cands.len(),
{
    let t = top_k(cands, k);
    if cands.len() == 0 || k == 0 {
    } else {
        let rest = cands.drop_last();
        let prev = top_k(rest, k);
        let e = cands.last();
        lemma_top_k_props(rest, k);
        lemma_top_k_props(cands, k);
        lemma_top_k_optimal(rest, k);
        lemma_insert_pos(prev, e);
        let ins = insert_by_dist(prev, e);
        let p = insert_pos(prev, e);
        prev.insert_ensures(p, e);
        assert forall|x: int|
            0 <= x < cands.len() implies t.contains(cands[x]) || (t.len() == k && cands[x].dist
            >= t[k - 1].dist) by {
            let c = cands[x];
            if x == cands.len() - 1 {
                // The entry offered last: kept unless it lands right past a
                // full collector.
                if ins.len() <= k {
                    assert(t == ins);
                    assert(t[p] == e);
                    assert(t.contains(c));
                } else {
                    assert(prev.len() == k);
                    if p < k {
                        assert(t[p] == ins[p] && ins[p] == e);
                        assert(t.contains(c));
                    } else {
                        assert(t[k - 1] == ins[k - 1] && ins[k - 1] == prev[k - 1]);
                        assert(prev[k - 1].dist <= e.dist);
                    }
                }
            } else {
                // A candidate seen earlier: either it sat in the previous
                // collector (and at worst fell off the end), or it was
                // already no nearer than the previous worst entry.
                assert(rest[x] == c);
                if prev.contains(c) {
                    let w = choose|w: int| 0 <= w < prev.len() && prev[w] == c;
                    let wi: int = if w < p {
                        w
                    } else {
                        w + 1
                    };
                    assert(ins[wi] == c);
                    if ins.len() <= k {
                        assert(t == ins);
                        assert(t.contains(c));
                    } else {
                        assert(prev.len() == k);
                        if wi < k {
                            assert(t[wi] == ins[wi]);
                            assert(t.contains(c));
                        } else {
                            assert(wi == k);
                            assert(t[k - 1] == ins[k - 1]);
                            assert(ins[k - 1].dist <= ins[k as int].dist);
                        }
                    }
                } else {
                    assert(prev.len() == k && c.dist >= prev[k - 1].dist);
                    assert(ins.len() == k + 1);
                    assert(t.len() == k);
                    assert(t[k - 1] == ins[k - 1]);
                    if p == k {
                        assert(ins[k - 1] == prev[k - 1]);
                    } else if p == k - 1 {
                        assert(ins[k - 1] == e);
                        assert(prev[k - 1].dist > e.dist);
                    } else {
                        assert(ins[k - 1] == prev[k - 2]);
                        assert(prev[k - 2].dist <= prev[k - 1].dist);
                    }
                }
            }
        }
    }
}

/// The bounded collector.  `offer` is O(capacity) by sorted insertion; the
/// retained entries are at every moment `top_k` of what was offered.
pub struct TopK {
    capacity: usize,
    entries: Vec<Entry>,
}

impl View for TopK {
    type V = Seq<Entry>;

    closed spec fn view(&self) -> Seq<Entry> {
        self.entries@
    }
}

impl TopK {
    /// The capacity the collector was created with.
    pub closed spec fn capacity_spec(self) -> nat {
        self.capacity as nat
    }

    /// The retained entries are sorted nearest first and never exceed the
    /// capacity.
    pub open spec fn wf(self) -> bool {
        &&& sorted_by_dist(self@)
        &&& self@.len() <= self.capacity_spec()
    }

    /// An empty collector that will retain at most `k` entries.
    pub fn new(k: usize) -> (c: TopK)
        ensures
            c.wf(),
            c@ == Seq::<Entry>::empty(),
            c.capacity_spec() == k,
    {
        TopK { capacity: k, entries: Vec::new() }
    }

    /// Offers one candidate.  The retained entries become the bounded
    /// stable insertion of the candidate: it is kept exactly when it is
    /// nearer than the current worst retained entry or the collector is
    /// not yet full.
    pub fn offer(&mut self, dist: u128, id: usize)
        requires
            old(self).wf(),
        ensures
            final(self).wf(),
            final(self).capacity_spec() == old(self).capacity_spec(),
            final(self)@ == offer_spec(old(self)@, Entry { dist, id }, old(self).capacity_spec()),
    {
        let e = Entry { dist, id };
        let ghost s0 = self.entries@;
        let len = self.entries.len();
        let mut p: usize = len;
        while p > 0 && self.entries[p - 1].dist > dist
            invariant
                0 <= p <= len,
                len == self.entries@.len(),
                self == old(self),
                forall|x: int| p <= x < len ==> self.entries@[x].dist > dist,
            decreases p,
        {
            p = p - 1;
        }
        proof {
            assert forall|x: int| 0 <= x < p implies s0[x].dist <= dist by {
                assert(s0[p - 1].dist <= dist);
                if x < p - 1 {
                    assert(s0[x].dist <= s0[p - 1].dist);
                }
            }
            lemma_insert_by_dist_at(s0, e, p as int);
        }
        if p == self.capacity {
            proof {
                assert(len == self.capacity);
                assert(offer_spec(s0, e, self.capacity as nat) =~= s0);
            }
            return ;
        }
        self.entries.insert(p, e);
        proof {
            s0.insert_ensures(p as int, e);
            assert forall|i: int, j: int|
                0 <= i < j < self.entries@.len() implies self.entries@[i].dist
                <= self.entries@[j].dist by {
                let t = self.entries@;
                if j < p {
                    assert(t[i] == s0[i] && t[j] == s0[j]);
                } else if j == p {
                    assert(t[j] == e && t[i] == s0[i]);
                } else {
                    assert(t[j] == s0[j - 1]);
                    if i < p {
                        assert(t[i] == s0[i]);
                        assert(s0[i].dist <= e.dist && e.dist < s0[j - 1].dist);
                    } else if i == p {
                        assert(t[i] == e);
                    } else {
                        assert(t[i] == s0[i - 1]);
                    }
                }
            }
        }
        if self.entries.len() > self.capacity {
            let ghost s1 = self.entries@;
            self.entries.pop();
            proof {
                assert(self.entries@ =~= take_at_most(s1, self.capacity as nat));
            }
        }
        proof {
            assert(self.entries@ =~= offer_spec(s0, e, self.capacity as nat));
        }
    }

    /// Consumes the collector and hands out the retained entries, nearest
    /// first.
    pub fn drain(self) -> (r: Vec<Entry>)
        ensures
            r@ == self@,
    {
        self.entries
    }
}

} // verus!
