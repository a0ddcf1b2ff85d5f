//! Locates, by binary search, the contiguous run of a sorted permutation
//! whose nodes satisfy a query's predicate.

use vstd::prelude::*;

use crate::index::{is_id_perm, key_lt, sorted_by_key, SortedIndex};
use crate::{matches_query, Node, Query, QueryKind};

verus! {

/// A prefix-closed bound on a sorted permutation: the positions where it
/// holds form a prefix, and the searched range boundary is where it stops
/// holding.
#[derive(Clone, Copy)]
pub enum BoundPred {
    /// Timestamp strictly below the bound.
    TimeBefore(i64),
    /// Timestamp at most the bound.
    TimeAtMost(i64),
    /// (value, timestamp) lexicographically strictly below the bound pair.
    ValueTimeBefore(i32, i64),
    /// (value, timestamp) lexicographically at most the bound pair.
    ValueTimeAtMost(i32, i64),
}

/// Whether the bound holds of one node.
pub open spec fn bound_holds(bp: BoundPred, n: Node) -> bool {
    match bp {
        BoundPred::TimeBefore(t) => n.timestamp < t,
        BoundPred::TimeAtMost(t) => n.timestamp <= t,
        BoundPred::ValueTimeBefore(v, t) => n.value < v || (n.value == v && n.timestamp < t),
        BoundPred::ValueTimeAtMost(v, t) => n.value < v || (n.value == v && n.timestamp <= t),
    }
}

/// Whether the bound reads the (value, timestamp) key rather than the
/// timestamp key, and so belongs on the permutation sorted by that key.
pub open spec fn bound_uses_value(bp: BoundPred) -> bool {
    match bp {
        BoundPred::TimeBefore(_) => false,
        BoundPred::TimeAtMost(_) => false,
        BoundPred::ValueTimeBefore(_, _) => true,
        BoundPred::ValueTimeAtMost(_, _) => true,
    }
}

/// On a permutation sorted by the matching key, each bound is closed
/// downward: when it holds at a position it holds at every earlier one.
proof fn lemma_bound_prefix_closed(
    nodes: Seq<Node>,
    bp: BoundPred,
    perm: Seq<usize>,
    i: int,
    j: int,
)
    requires
        sorted_by_key(nodes, bound_uses_value(bp), perm),
        forall|x: int| 0 <= x < perm.len() ==> (#[trigger] perm[x]) < nodes.len(),
        0 <= i <= j < perm.len(),
        bound_holds(bp, nodes[perm[j] as int]),
    ensures
        bound_holds(bp, nodes[perm[i] as int]),
{
    if i < j {
        assert(key_lt(nodes, bound_uses_value(bp), perm[i], perm[j]));
    }
}

/// Whether the bound holds of the node with identifier `id`.
fn bound_check(nodes: &Vec<Node>, id: usize, bp: BoundPred) -> (r: bool)
    requires
        id < nodes@.len(),
    ensures
        r == bound_holds(bp, nodes@[id as int]),
{
    let n = &nodes[id];
    match bp {
        BoundPred::TimeBefore(t) => n.timestamp < t,
        BoundPred::TimeAtMost(t) => n.timestamp <= t,
        BoundPred::ValueTimeBefore(v, t) => n.value < v || (n.value == v && n.timestamp < t),
        BoundPred::ValueTimeAtMost(v, t) => n.value < v || (n.value == v && n.timestamp <= t),
    }
}

/// Binary search for the first position of the sorted permutation where
/// the bound no longer holds.
pub fn partition_point(nodes: &Vec<Node>, perm: &Vec<usize>, bp: BoundPred) -> (pos: usize)
    requires
        forall|x: int| 0 <= x < perm@.len() ==> (#[trigger] perm@[x]) < nodes@.len(),
        sorted_by_key(nodes@, bound_uses_value(bp), perm@),
    ensures
        pos <= perm@.len(),
        forall|x: int| 0 <= x < pos ==> bound_holds(bp, nodes@[(#[trigger] perm@[x]) as int]),
        forall|x: int|
            pos <= x < perm@.len() ==> !bound_holds(bp, nodes@[(#[trigger] perm@[x]) as int]),
{
    let mut lo: usize = 0;
    let mut hi: usize = perm.len();
    while lo < hi
        invariant
            0 <= lo <= hi <= perm@.len(),
            forall|x: int| 0 <= x < perm@.len() ==> (#[trigger] perm@[x]) < nodes@.len(),
            sorted_by_key(nodes@, bound_uses_value(bp), perm@),
            forall|x: int| 0 <= x < lo ==> bound_holds(bp, nodes@[(#[trigger] perm@[x]) as int]),
            forall|x: int|
                hi <= x < perm@.len() ==> !bound_holds(bp, nodes@[(#[trigger] perm@[x]) as int]),
        decreases hi - lo,
    {
        let mid = lo + (hi - lo) / 2;
        if bound_check(nodes, perm[mid], bp) {
            proof {
                assert forall|x: int|
                    0 <= x < mid + 1 implies bound_holds(
                    bp,
                    nodes@[(#[trigger] perm@[x]) as int],
                ) by {
                    lemma_bound_prefix_closed(nodes@, bp, perm@, x, mid as int);
                }
            }
            lo = mid + 1;
        } else {
            proof {
                assert forall|x: int|
                    mid <= x < perm@.len() implies !bound_holds(
                    bp,
                    nodes@[(#[trigger] perm@[x]) as int],
                ) by {
                    if bound_holds(bp, nodes@[perm@[x] as int]) {
                        lemma_bound_prefix_closed(nodes@, bp, perm@, mid as int, x);
                    }
                }
            }
            hi = mid;
        }
    }
    lo
}

/// A half-open interval of positions into one of the sorted permutations,
/// holding exactly the candidates of one constrained query.
#[derive(Clone, Copy, PartialEq, Eq, Structural, Debug)]
pub struct CandidateRange {
    pub start: usize,
    pub end: usize,
}

/// The permutation a query of the given kind is located in: the
/// timestamp-sorted one for a plain time range, the (value, timestamp)-
/// sorted one for the kinds that constrain the value.
pub open spec fn index_perm(index: SortedIndex, kind: QueryKind) -> Seq<usize> {
    match kind {
        QueryKind::TimeRange => index.by_timestamp@,
        _ => index.by_value_timestamp@,
    }
}

/// Two binary searches locating the run of candidates of a constrained
/// query: every position inside the returned interval satisfies the
/// query's predicate and every position outside it does not.
pub fn locate_range(nodes: &Vec<Node>, index: &SortedIndex, q: &Query) -> (r: CandidateRange)
    requires
        index.wf(nodes@),
        q.kind != QueryKind::Unconstrained,
    ensures
        r.start <= r.end <= index_perm(*index, q.kind).len(),
        forall|x: int|
            0 <= x < index_perm(*index, q.kind).len() ==> (r.start <= x < r.end <==> matches_query(
                nodes@[(#[trigger] index_perm(*index, q.kind)[x]) as int],
                *q,
            )),
{
    let (s, e): (usize, usize) = match q.kind {
        QueryKind::TimeRange => (
            partition_point(nodes, &index.by_timestamp, BoundPred::TimeBefore(q.time_low)),
            partition_point(nodes, &index.by_timestamp, BoundPred::TimeAtMost(q.time_high)),
        ),
        QueryKind::ValueEq => (
            partition_point(
                nodes,
                &index.by_value_timestamp,
                BoundPred::ValueTimeBefore(q.value, i64::MIN),
            ),
            partition_point(
                nodes,
                &index.by_value_timestamp,
                BoundPred::ValueTimeAtMost(q.value, i64::MAX),
            ),
        ),
        _ => (
            partition_point(
                nodes,
                &index.by_value_timestamp,
                BoundPred::ValueTimeBefore(q.value, q.time_low),
            ),
            partition_point(
                nodes,
                &index.by_value_timestamp,
                BoundPred::ValueTimeAtMost(q.value, q.time_high),
            ),
        ),
    };
    let end = if e < s {
        s
    } else {
        e
    };
    CandidateRange { start: s, end }
}

/// Where the matching identifiers of a sequence stand contiguously and
/// nowhere else, none matches.
proof fn lemma_filter_none(nodes: Seq<Node>, q: Query, s: Seq<usize>)
    requires
        forall|x: int| 0 <= x < s.len() ==> !matches_query(nodes[(#[trigger] s[x]) as int], q),
    ensures
        s.filter(|id: usize| matches_query(nodes[id as int], q)) =~= Seq::<usize>::empty(),
    decreases s.len(),
{
    reveal(Seq::filter);
    if s.len() > 0 {
        lemma_filter_none(nodes, q, s.drop_last());
    }
}

/// A predicate that holds everywhere filters nothing out.
pub proof fn lemma_filter_all<A>(s: Seq<A>, pred: spec_fn(A) -> bool)
    requires
        forall|x: int| 0 <= x < s.len() ==> pred(#[trigger] s[x]),
    ensures
        s.filter(pred) =~= s,
    decreases s.len(),
{
    reveal(Seq::filter);
    if s.len() > 0 {
        lemma_filter_all(s.drop_last(), pred);
    }
}

/// Filtering keeps a duplicate-free sequence duplicate-free.
pub proof fn lemma_filter_no_duplicates<A>(s: Seq<A>, pred: spec_fn(A) -> bool)
    requires
        s.no_duplicates(),
    ensures
        s.filter(pred).no_duplicates(),
    decreases s.len(),
{
    reveal(Seq::filter);
    if s.len() > 0 {
        let rest = s.drop_last();
        assert(rest.no_duplicates());
        lemma_filter_no_duplicates(rest, pred);
        if pred(s.last()) {
            let f = rest.filter(pred);
            let g = f.push(s.last());
            assert forall|i: int, j: int|
                0 <= i < g.len() && 0 <= j < g.len() && i != j implies g[i] != g[j] by {
                if i < f.len() && j < f.len() {
                } else {
                    let a: int = if i < j {
                        i
                    } else {
                        j
                    };
                    assert(g[a] == f[a]);
                    assert(f.contains(f[a]));
                    rest.lemma_filter_contains_rev(pred, f[a]);
                    let w = choose|w: int| 0 <= w < rest.len() && rest[w] == f[a];
                    assert(s[w] == f[a]);
                    assert(s[w] != s[s.len() - 1]);
                }
            }
        }
    }
}

/// Where the matching identifiers of a sequence stand contiguously, the
/// matching subsequence is exactly that contiguous run.
pub proof fn lemma_contiguous_filter(nodes: Seq<Node>, q: Query, s: Seq<usize>, lo: int, hi: int)
    requires
        0 <= lo <= hi <= s.len(),
        forall|x: int|
            0 <= x < s.len() ==> (lo <= x < hi <==> matches_query(
                nodes[(#[trigger] s[x]) as int],
                q,
            )),
    ensures
        s.filter(|id: usize| matches_query(nodes[id as int], q)) =~= s.subrange(lo, hi),
    decreases s.len(),
{
    reveal(Seq::filter);
    if lo == hi {
        lemma_filter_none(nodes, q, s);
    } else if hi == s.len() {
        assert(matches_query(nodes[s[hi - 1] as int], q));
        lemma_contiguous_filter(nodes, q, s.drop_last(), lo, hi - 1);
        assert(s.drop_last().filter(|id: usize| matches_query(nodes[id as int], q)) =~= s.drop_last().subrange(lo, hi - 1));
        assert(s.filter(|id: usize| matches_query(nodes[id as int], q)) =~= s.drop_last().subrange(
            lo,
            hi - 1,
        ).push(s.last()));
    } else {
        assert(!matches_query(nodes[s[s.len() - 1] as int], q));
        lemma_contiguous_filter(nodes, q, s.drop_last(), lo, hi);
    }
}

/// The candidate range holds exactly the identifiers a full linear scan of
/// the table would select for the predicate, each exactly once.
pub proof fn lemma_range_equals_linear_scan(
    nodes: Seq<Node>,
    by_value: bool,
    perm: Seq<usize>,
    q: Query,
    lo: int,
    hi: int,
)
    requires
        is_id_perm(perm, nodes.len()),
        sorted_by_key(nodes, by_value, perm),
        0 <= lo <= hi <= perm.len(),
        forall|x: int|
            0 <= x < perm.len() ==> (lo <= x < hi <==> matches_query(
                nodes[(#[trigger] perm[x]) as int],
                q,
            )),
    ensures
        perm.subrange(lo, hi).no_duplicates(),
        forall|id: usize|
            perm.subrange(lo, hi).contains(id) <==> (id < nodes.len() && matches_query(
                nodes[id as int],
                q,
            )),
{
    let sub = perm.subrange(lo, hi);
    crate::index::lemma_sorted_perm_no_duplicates(nodes, by_value, perm);
    assert forall|i: int, j: int| 0 <= i < sub.len() && 0 <= j < sub.len() && i != j implies sub[i]
        != sub[j] by {
        assert(sub[i] == perm[lo + i] && sub[j] == perm[lo + j]);
    }
    assert forall|id: usize|
        sub.contains(id) implies (id < nodes.len() && matches_query(nodes[id as int], q)) by {
        let w = choose|w: int| 0 <= w < sub.len() && sub[w] == id;
        assert(perm[lo + w] == id);
    }
    assert forall|id: usize|
        id < nodes.len() && matches_query(nodes[id as int], q) implies sub.contains(id) by {
        assert(perm.contains(id));
        let w = choose|w: int| 0 <= w < perm.len() && perm[w] == id;
        assert(lo <= w < hi);
        assert(sub[w - lo] == id);
    }
}

} // verus!
