//! The exact filtered scanner, the per-query dispatcher, the batch driver,
//! and the adapter for an external approximate retriever.

use vstd::prelude::*;

use crate::dist::{lemma_sq_dist_bounds, sq_dist, squared_distance};
use crate::index::{build_sorted_index, id_seq, SortedIndex};
use crate::locate::{index_perm, lemma_contiguous_filter, locate_range};
use crate::topk::{
    lemma_top_k_distinct_ids, lemma_top_k_optimal, lemma_top_k_props, take_at_most, top_k, Entry,
    TopK,
};
use crate::{matches_query, Node, Query, QueryKind};

verus! {

/// The candidate entry of node `id` for query vector `qvec`: its exact
/// squared Euclidean distance, paired with the identifier.
pub open spec fn cand_entry(nodes: Seq<Node>, qvec: Seq<i32>, id: usize) -> Entry {
    Entry { dist: sq_dist(nodes[id as int].vector@, qvec) as u128, id }
}

/// The candidate entries of the identifiers `ids`, in visit order.
pub open spec fn cand_seq(nodes: Seq<Node>, qvec: Seq<i32>, ids: Seq<usize>) -> Seq<Entry> {
    ids.map_values(|id: usize| cand_entry(nodes, qvec, id))
}

/// The identifiers of a sequence of entries, in order.
pub open spec fn ids_of(entries: Seq<Entry>) -> Seq<usize> {
    entries.map_values(|e: Entry| e.id)
}

/// The identifiers a query's strategy visits, in visit order: every
/// identifier for an unconstrained query, and for a constrained one
/// exactly the identifiers satisfying the predicate, in the order of the
/// sorted permutation the query is located in.
pub open spec fn query_candidates(nodes: Seq<Node>, index: SortedIndex, q: Query) -> Seq<usize> {
    if q.kind == QueryKind::Unconstrained {
        id_seq(nodes.len())
    } else {
        index_perm(index, q.kind).filter(|id: usize| matches_query(nodes[id as int], q))
    }
}

/// The answer owed to one query: the identifiers of the `k` nearest
/// candidates, nearest first, ties in visit order.
pub open spec fn query_answer(nodes: Seq<Node>, index: SortedIndex, q: Query, k: nat) -> Seq<
    usize,
> {
    ids_of(top_k(cand_seq(nodes, q.vector@, query_candidates(nodes, index, q)), k))
}

/// Every candidate of a query is a table identifier satisfying the
/// query's predicate.
pub proof fn lemma_candidates_valid(nodes: Seq<Node>, index: SortedIndex, q: Query)
    requires
        index.wf(nodes),
    ensures
        forall|x: int|
            0 <= x < query_candidates(nodes, index, q).len() ==> (#[trigger] query_candidates(
                nodes,
                index,
                q,
            )[x]) < nodes.len() && matches_query(
                nodes[query_candidates(nodes, index, q)[x] as int],
                q,
            ),
{
    let cands = query_candidates(nodes, index, q);
    assert forall|x: int|
        0 <= x < cands.len() implies (#[trigger] cands[x]) < nodes.len() && matches_query(
        nodes[cands[x] as int],
        q,
    ) by {
        if q.kind == QueryKind::Unconstrained {
        } else {
            let perm = index_perm(index, q.kind);
            let pred = |id: usize| matches_query(nodes[id as int], q);
            broadcast use vstd::seq_lib::group_filter_ensures;

            assert(pred(cands[x]));
            assert(perm.filter(pred).contains(cands[x]));
            perm.lemma_filter_contains_rev(pred, cands[x]);
            assert(perm.contains(cands[x]));
        }
    }
}

/// The identifiers `0..n` as a vector: the scan order of an unconstrained
/// exact query.
fn identity_perm(n: usize) -> (v: Vec<usize>)
    ensures
        v@ == id_seq(n as nat),
{
    let mut v: Vec<usize> = Vec::new();
    let mut i: usize = 0;
    while i < n
        invariant
            i <= n,
            v@ =~= id_seq(i as nat),
        decreases n - i,
    {
        v.push(i);
        i = i + 1;
        proof {
            assert(v@ =~= id_seq(i as nat));
        }
    }
    v
}

/// Visits every candidate position of `perm[start..end]` exactly once,
/// computing its exact squared distance to the query vector and offering
/// it to a bounded collector; returns the drained collector.
fn scan_ids(
    nodes: &Vec<Node>,
    perm: &Vec<usize>,
    start: usize,
    end: usize,
    qvec: &Vec<i32>,
    k: usize,
) -> (r: Vec<Entry>)
    requires
        start <= end <= perm@.len(),
        forall|x: int| 0 <= x < perm@.len() ==> (#[trigger] perm@[x]) < nodes@.len(),
        forall|x: int|
            0 <= x < nodes@.len() ==> (#[trigger] nodes@[x]).vector@.len() == qvec@.len(),
    ensures
        r@ == top_k(cand_seq(nodes@, qvec@, perm@.subrange(start as int, end as int)), k as nat),
{
    let dim = qvec.len();
    let mut coll = TopK::new(k);
    let mut j: usize = start;
    proof {
        assert(perm@.subrange(start as int, start as int) =~= Seq::<usize>::empty());
        assert(cand_seq(nodes@, qvec@, Seq::<usize>::empty()) =~= Seq::<Entry>::empty());
    }
    while j < end
        invariant
            start <= j <= end <= perm@.len(),
            dim == qvec@.len(),
            forall|x: int| 0 <= x < perm@.len() ==> (#[trigger] perm@[x]) < nodes@.len(),
            forall|x: int|
                0 <= x < nodes@.len() ==> (#[trigger] nodes@[x]).vector@.len() == qvec@.len(),
            coll.wf(),
            coll.capacity_spec() == k as nat,
            coll@ == top_k(cand_seq(nodes@, qvec@, perm@.subrange(start as int, j as int)), k as nat),
        decreases end - j,
    {
        let id = perm[j];
        let d = squared_distance(&nodes[id].vector, qvec);
        proof {
            lemma_sq_dist_bounds(nodes@[id as int].vector@, qvec@);
            assert(qvec@.len() * 0x1_0000_0000_0000_0000 < 0x1_0000_0000_0000_0000_0000_0000_0000_0000)
                by (nonlinear_arith)
                requires qvec@.len() <= 0xffff_ffff_ffff_ffff;
        }
        coll.offer(d, id);
        j = j + 1;
        proof {
            let prev = perm@.subrange(start as int, j - 1);
            let cur = perm@.subrange(start as int, j as int);
            let c1 = cand_seq(nodes@, qvec@, cur);
            assert(cur.drop_last() =~= prev);
            assert(c1.drop_last() =~= cand_seq(nodes@, qvec@, prev));
            assert(c1.last() == cand_entry(nodes@, qvec@, id));
            assert(Entry { dist: d, id } == cand_entry(nodes@, qvec@, id));
        }
    }
    coll.drain()
}

/// Whether the node satisfies the query's predicate.
fn query_matches(n: &Node, q: &Query) -> (r: bool)
    ensures
        r == matches_query(*n, *q),
{
    match q.kind {
        QueryKind::Unconstrained => true,
        QueryKind::ValueEq => n.value == q.value,
        QueryKind::TimeRange => q.time_low <= n.timestamp && n.timestamp <= q.time_high,
        QueryKind::ValueEqAndTimeRange => n.value == q.value && q.time_low <= n.timestamp
            && n.timestamp <= q.time_high,
    }
}

/// The identifiers of the entries, in order.
fn entry_ids(entries: Vec<Entry>) -> (r: Vec<usize>)
    ensures
        r@ == ids_of(entries@),
{
    let mut out: Vec<usize> = Vec::new();
    let mut j: usize = 0;
    let len = entries.len();
    while j < len
        invariant
            j <= len,
            len == entries@.len(),
            out@ =~= ids_of(entries@.take(j as int)),
        decreases len - j,
    {
        let e = entries[j];
        out.push(e.id);
        j = j + 1;
        proof {
            assert(out@ =~= ids_of(entries@.take(j as int)));
        }
    }
    proof {
        assert(entries@.take(len as int) =~= entries@);
        assert(out@ =~= ids_of(entries@));
    }
    out
}

/// Routes one query to its strategy and answers it: an unconstrained
/// query scans the whole table in identifier order; a constrained query is
/// located in the matching sorted permutation and only its candidate range
/// is scanned.  The result holds the identifiers of the `k` nearest
/// candidates, nearest first, ties broken by visit order; when fewer than
/// `k` candidates satisfy the predicate, the result is correspondingly
/// short.
pub fn answer_query(nodes: &Vec<Node>, index: &SortedIndex, q: &Query, k: usize) -> (r: Vec<
    usize,
>)
    requires
        index.wf(nodes@),
        forall|x: int|
            0 <= x < nodes@.len() ==> (#[trigger] nodes@[x]).vector@.len() == q.vector@.len(),
    ensures
        r@ == query_answer(nodes@, *index, *q, k as nat),
        r@.len() == if query_candidates(nodes@, *index, *q).len() <= k as int {
            query_candidates(nodes@, *index, *q).len() as int
        } else {
            k as int
        },
        forall|i: int|
            0 <= i < r@.len() ==> (#[trigger] r@[i]) < nodes@.len() && matches_query(
                nodes@[r@[i] as int],
                *q,
            ),
        forall|i: int, j: int|
            0 <= i < j < r@.len() ==> sq_dist(nodes@[r@[i] as int].vector@, q.vector@) <= sq_dist(
                nodes@[r@[j] as int].vector@,
                q.vector@,
            ),
        r@.no_duplicates(),
{
    let ghost cands = query_candidates(nodes@, *index, *q);
    let dim = q.vector.len();
    let entries: Vec<Entry> = if matches!(q.kind, QueryKind::Unconstrained) {
        let idv = identity_perm(nodes.len());
        let n = idv.len();
        proof {
            assert(idv@.subrange(0, n as int) =~= idv@);
        }
        scan_ids(nodes, &idv, 0, n, &q.vector, k)
    } else {
        let range = locate_range(nodes, index, q);
        let r = if matches!(q.kind, QueryKind::TimeRange) {
            scan_ids(nodes, &index.by_timestamp, range.start, range.end, &q.vector, k)
        } else {
            scan_ids(nodes, &index.by_value_timestamp, range.start, range.end, &q.vector, k)
        };
        proof {
            lemma_contiguous_filter(
                nodes@,
                *q,
                index_perm(*index, q.kind),
                range.start as int,
                range.end as int,
            );
        }
        r
    };
    proof {
        assert(entries@ == top_k(cand_seq(nodes@, q.vector@, cands), k as nat));
        lemma_top_k_props(cand_seq(nodes@, q.vector@, cands), k as nat);
        lemma_candidates_valid(nodes@, *index, *q);
        if q.kind != QueryKind::Unconstrained {
            let by_value = q.kind != QueryKind::TimeRange;
            crate::index::lemma_sorted_perm_no_duplicates(
                nodes@,
                by_value,
                index_perm(*index, q.kind),
            );
            crate::locate::lemma_filter_no_duplicates(
                index_perm(*index, q.kind),
                |id: usize| matches_query(nodes@[id as int], *q),
            );
        }
        assert forall|i: int, j: int| 0 <= i < j < cands.len() implies cands[i] != cands[j] by {}
        let cs0 = cand_seq(nodes@, q.vector@, cands);
        assert forall|i: int, j: int| 0 <= i < j < cs0.len() implies cs0[i].id != cs0[j].id by {
            assert(cs0[i] == cand_entry(nodes@, q.vector@, cands[i]));
            assert(cs0[j] == cand_entry(nodes@, q.vector@, cands[j]));
        }
        lemma_top_k_distinct_ids(cs0, k as nat);
        assert forall|i: int|
            0 <= i < entries@.len() implies (#[trigger] entries@[i]).id < nodes@.len()
            && matches_query(nodes@[entries@[i].id as int], *q) && entries@[i].dist as int
            == sq_dist(nodes@[entries@[i].id as int].vector@, q.vector@) by {
            let cs = cand_seq(nodes@, q.vector@, cands);
            assert(cs.contains(entries@[i]));
            let w = choose|w: int| 0 <= w < cs.len() && cs[w] == entries@[i];
            assert(cs[w] == cand_entry(nodes@, q.vector@, cands[w]));
            lemma_sq_dist_bounds(nodes@[cands[w] as int].vector@, q.vector@);
            assert(nodes@[cands[w] as int].vector@.len() == dim);
            assert(nodes@[cands[w] as int].vector@.len() * 0x1_0000_0000_0000_0000
                < 0x1_0000_0000_0000_0000_0000_0000_0000_0000) by (nonlinear_arith)
                requires nodes@[cands[w] as int].vector@.len() <= 0xffff_ffff_ffff_ffff;
        }
    }
    entry_ids(entries)
}

/// Determinism: the contract of [`answer_query`] pins its result to
/// [`query_answer`], a function of the table, the index and the query
/// alone, so running the same query twice over the same table and index
/// yields identical ordered results.
pub proof fn lemma_query_determinism(
    nodes: Seq<Node>,
    index: SortedIndex,
    q: Query,
    k: nat,
    r1: Seq<usize>,
    r2: Seq<usize>,
)
    requires
        r1 == query_answer(nodes, index, q, k),
        r2 == query_answer(nodes, index, q, k),
    ensures
        r1 == r2,
{
}

/// The exact strategies miss no nearer node: every candidate of a query
/// either appears in the answer or, the answer already holding `k`
/// identifiers, is at least as far from the query vector as the farthest
/// answered one.  Against a brute-force oracle the answer's recall is
/// therefore total.
pub proof fn lemma_answer_misses_no_nearer_node(
    nodes: Seq<Node>,
    index: SortedIndex,
    q: Query,
    k: nat,
)
    requires
        index.wf(nodes),
        forall|x: int|
            0 <= x < nodes.len() ==> (#[trigger] nodes[x]).vector@.len() == q.vector@.len(),
        q.vector@.len() <= 0xffff_ffff_ffff_ffff,
    ensures
        forall|x: int|
            0 <= x < query_candidates(nodes, index, q).len() ==> k == 0 || query_answer(
                nodes,
                index,
                q,
                k,
            ).contains(#[trigger] query_candidates(nodes, index, q)[x]) || (query_answer(
                nodes,
                index,
                q,
                k,
            ).len() == k && sq_dist(
                nodes[query_candidates(nodes, index, q)[x] as int].vector@,
                q.vector@,
            ) >= sq_dist(
                nodes[query_answer(nodes, index, q, k)[k - 1] as int].vector@,
                q.vector@,
            )),
{
    let cands = query_candidates(nodes, index, q);
    let cs = cand_seq(nodes, q.vector@, cands);
    let t = top_k(cs, k);
    let r = query_answer(nodes, index, q, k);
    lemma_candidates_valid(nodes, index, q);
    lemma_top_k_props(cs, k);
    lemma_top_k_optimal(cs, k);
    assert forall|x: int|
        0 <= x < cands.len() implies k == 0 || r.contains(#[trigger] cands[x]) || (r.len() == k
        && sq_dist(nodes[cands[x] as int].vector@, q.vector@) >= sq_dist(
        nodes[r[k - 1] as int].vector@,
        q.vector@,
    )) by {
        if k > 0 {
            assert(cs[x] == cand_entry(nodes, q.vector@, cands[x]));
            lemma_sq_dist_bounds(nodes[cands[x] as int].vector@, q.vector@);
            assert(nodes[cands[x] as int].vector@.len() * 0x1_0000_0000_0000_0000
                < 0x1_0000_0000_0000_0000_0000_0000_0000_0000) by (nonlinear_arith)
                requires nodes[cands[x] as int].vector@.len() <= 0xffff_ffff_ffff_ffff;
            if t.contains(cs[x]) {
                let w = choose|w: int| 0 <= w < t.len() && t[w] == cs[x];
                assert(r[w] == cands[x]);
                assert(r.contains(cands[x]));
            } else {
                assert(t.len() == k && cs[x].dist >= t[k - 1].dist);
                let last = t[k - 1];
                assert(cs.contains(last));
                let v = choose|v: int| 0 <= v < cs.len() && cs[v] == last;
                assert(cs[v] == cand_entry(nodes, q.vector@, cands[v]));
                assert(r[k - 1] == last.id);
                lemma_sq_dist_bounds(nodes[cands[v] as int].vector@, q.vector@);
                assert(nodes[cands[v] as int].vector@.len() * 0x1_0000_0000_0000_0000
                    < 0x1_0000_0000_0000_0000_0000_0000_0000_0000) by (nonlinear_arith)
                    requires nodes[cands[v] as int].vector@.len() <= 0xffff_ffff_ffff_ffff;
            }
        }
    }
}

/// The identifiers a full linear scan visits for a query: every table
/// identifier satisfying the predicate, in identifier order.
pub open spec fn full_scan_candidates(nodes: Seq<Node>, q: Query) -> Seq<usize> {
    id_seq(nodes.len()).filter(|id: usize| matches_query(nodes[id as int], q))
}

/// The answer of the exact full-scan strategy: the `k` nearest satisfying
/// nodes, nearest first, ties in identifier order.
pub open spec fn full_scan_answer(nodes: Seq<Node>, q: Query, k: nat) -> Seq<usize> {
    ids_of(top_k(cand_seq(nodes, q.vector@, full_scan_candidates(nodes, q)), k))
}

/// For an unconstrained query the dispatcher's strategy is itself the full
/// scan, so the two exact paths give one and the same answer.
pub proof fn lemma_unconstrained_paths_agree(nodes: Seq<Node>, index: SortedIndex, q: Query, k: nat)
    requires
        q.kind == QueryKind::Unconstrained,
    ensures
        query_answer(nodes, index, q, k) == full_scan_answer(nodes, q, k),
{
    let pred = |id: usize| matches_query(nodes[id as int], q);
    crate::locate::lemma_filter_all(id_seq(nodes.len()), pred);
}

/// Scans the whole table in identifier order, testing the predicate on
/// every node and offering the exact squared distance of each satisfying
/// one: the brute-force strategy, one collector pass without any index.
fn scan_full_table(nodes: &Vec<Node>, q: &Query, k: usize) -> (r: Vec<Entry>)
    requires
        forall|x: int|
            0 <= x < nodes@.len() ==> (#[trigger] nodes@[x]).vector@.len() == q.vector@.len(),
    ensures
        r@ == top_k(cand_seq(nodes@, q.vector@, full_scan_candidates(nodes@, *q)), k as nat),
{
    let ghost pred = |id: usize| matches_query(nodes@[id as int], *q);
    let dim = q.vector.len();
    let n = nodes.len();
    let mut coll = TopK::new(k);
    let mut j: usize = 0;
    proof {
        reveal(Seq::filter);
        assert(id_seq(0) =~= Seq::<usize>::empty());
        assert(cand_seq(nodes@, q.vector@, id_seq(0).filter(pred)) =~= Seq::<Entry>::empty());
    }
    while j < n
        invariant
            j <= n,
            n == nodes@.len(),
            dim == q.vector@.len(),
            pred == (|id: usize| matches_query(nodes@[id as int], *q)),
            forall|x: int|
                0 <= x < nodes@.len() ==> (#[trigger] nodes@[x]).vector@.len() == q.vector@.len(),
            coll.wf(),
            coll.capacity_spec() == k as nat,
            coll@ == top_k(cand_seq(nodes@, q.vector@, id_seq(j as nat).filter(pred)), k as nat),
        decreases n - j,
    {
        let ghost prev_ids = id_seq(j as nat).filter(pred);
        let hit = query_matches(&nodes[j], q);
        if hit {
            let d = squared_distance(&nodes[j].vector, &q.vector);
            proof {
                lemma_sq_dist_bounds(nodes@[j as int].vector@, q.vector@);
                assert(q.vector@.len() * 0x1_0000_0000_0000_0000
                    < 0x1_0000_0000_0000_0000_0000_0000_0000_0000) by (nonlinear_arith)
                    requires q.vector@.len() <= 0xffff_ffff_ffff_ffff;
            }
            coll.offer(d, j);
            proof {
                assert(Entry { dist: d, id: j } == cand_entry(nodes@, q.vector@, j));
            }
        }
        j = j + 1;
        proof {
            reveal(Seq::filter);
            let cur_raw = id_seq(j as nat);
            assert(cur_raw.drop_last() =~= id_seq((j - 1) as nat));
            assert(cur_raw.last() == (j - 1) as usize);
            let cur_ids = cur_raw.filter(pred);
            if pred((j - 1) as usize) {
                assert(cur_ids =~= prev_ids.push((j - 1) as usize));
                let c1 = cand_seq(nodes@, q.vector@, cur_ids);
                assert(c1.drop_last() =~= cand_seq(nodes@, q.vector@, prev_ids));
                assert(c1.last() == cand_entry(nodes@, q.vector@, (j - 1) as usize));
            } else {
                assert(cur_ids =~= prev_ids);
            }
        }
    }
    coll.drain()
}

/// Answers one query by the brute-force strategy: a full linear scan with
/// the predicate tested on every node and exact distances throughout.  No
/// sorted index is consulted; the answer is the `k` nearest satisfying
/// nodes, nearest first, ties in identifier order.
pub fn answer_query_full_scan(nodes: &Vec<Node>, q: &Query, k: usize) -> (r: Vec<usize>)
    requires
        forall|x: int|
            0 <= x < nodes@.len() ==> (#[trigger] nodes@[x]).vector@.len() == q.vector@.len(),
    ensures
        r@ == full_scan_answer(nodes@, *q, k as nat),
        r@.len() == if full_scan_candidates(nodes@, *q).len() <= k as int {
            full_scan_candidates(nodes@, *q).len() as int
        } else {
            k as int
        },
        forall|i: int|
            0 <= i < r@.len() ==> (#[trigger] r@[i]) < nodes@.len() && matches_query(
                nodes@[r@[i] as int],
                *q,
            ),
        r@.no_duplicates(),
{
    let nn = nodes.len();
    let entries = scan_full_table(nodes, q, k);
    proof {
        let cands = full_scan_candidates(nodes@, *q);
        let cs = cand_seq(nodes@, q.vector@, cands);
        lemma_top_k_props(cs, k as nat);
        let pred = |id: usize| matches_query(nodes@[id as int], *q);
        let ids = id_seq(nodes@.len());
        assert forall|i: int, j: int|
            0 <= i < ids.len() && 0 <= j < ids.len() && i != j implies ids[i] != ids[j] by {
            assert(ids[i] == i as usize && ids[j] == j as usize);
            assert(i <= nn && j <= nn);
        }
        assert(ids.no_duplicates());
        crate::locate::lemma_filter_no_duplicates(id_seq(nodes@.len()), pred);
        assert forall|i: int, j: int| 0 <= i < j < cs.len() implies cs[i].id != cs[j].id by {
            assert(cs[i] == cand_entry(nodes@, q.vector@, cands[i]));
            assert(cs[j] == cand_entry(nodes@, q.vector@, cands[j]));
        }
        lemma_top_k_distinct_ids(cs, k as nat);
        broadcast use vstd::seq_lib::group_filter_ensures;

        assert forall|x: int| 0 <= x < cands.len() implies (#[trigger] cands[x]) < nodes@.len()
            && matches_query(nodes@[cands[x] as int], *q) by {
            assert(pred(cands[x]));
            assert(id_seq(nodes@.len()).filter(pred).contains(cands[x]));
            id_seq(nodes@.len()).lemma_filter_contains_rev(pred, cands[x]);
            let w = choose|w: int|
                0 <= w < id_seq(nodes@.len()).len() && id_seq(nodes@.len())[w] == cands[x];
            assert(cands[x] == w as usize);
        }
        assert forall|i: int|
            0 <= i < entries@.len() implies (#[trigger] entries@[i]).id < nodes@.len()
            && matches_query(nodes@[entries@[i].id as int], *q) by {
            assert(cs.contains(entries@[i]));
            let w = choose|w: int| 0 <= w < cs.len() && cs[w] == entries@[i];
            assert(cs[w] == cand_entry(nodes@, q.vector@, cands[w]));
        }
    }
    entry_ids(entries)
}

/// Answers every query of the batch by the brute-force strategy, writing
/// each answer into the output slot of the query's position.
pub fn brute_force(nodes: &Vec<Node>, queries: &Vec<Query>, k: usize) -> (r: Vec<Vec<usize>>)
    requires
        forall|x: int, y: int|
            0 <= x < nodes@.len() && 0 <= y < queries@.len() ==> (#[trigger] nodes@[x]).vector@.len()
                == (#[trigger] queries@[y]).vector@.len(),
    ensures
        r@.len() == queries@.len(),
        forall|i: int|
            0 <= i < r@.len() ==> (#[trigger] r@[i])@ == full_scan_answer(
                nodes@,
                queries@[i],
                k as nat,
            ),
        forall|i: int| 0 <= i < r@.len() ==> (#[trigger] r@[i])@.no_duplicates(),
{
    let mut out: Vec<Vec<usize>> = Vec::new();
    let mut i: usize = 0;
    let qn = queries.len();
    while i < qn
        invariant
            i <= qn,
            qn == queries@.len(),
            forall|x: int, y: int|
                0 <= x < nodes@.len() && 0 <= y < queries@.len() ==> (#[trigger] nodes@[x]).vector@.len()
                    == (#[trigger] queries@[y]).vector@.len(),
            out@.len() == i,
            forall|x: int|
                0 <= x < i ==> (#[trigger] out@[x])@ == full_scan_answer(
                    nodes@,
                    queries@[x],
                    k as nat,
                ),
            forall|x: int| 0 <= x < i ==> (#[trigger] out@[x])@.no_duplicates(),
        decreases qn - i,
    {
        let ans = answer_query_full_scan(nodes, &queries[i], k);
        out.push(ans);
        i = i + 1;
    }
    out
}

/// Builds the sorted index once, then answers every query of the batch
/// against it, writing each answer into the output slot of the query's
/// position.
pub fn solve(nodes: &Vec<Node>, queries: &Vec<Query>, k: usize) -> (r: Vec<Vec<usize>>)
    requires
        forall|x: int, y: int|
            0 <= x < nodes@.len() && 0 <= y < queries@.len() ==> (#[trigger] nodes@[x]).vector@.len()
                == (#[trigger] queries@[y]).vector@.len(),
    ensures
        r@.len() == queries@.len(),
        exists|index: SortedIndex|
            index.wf(nodes@) && forall|i: int|
                0 <= i < r@.len() ==> (#[trigger] r@[i])@ == query_answer(
                    nodes@,
                    index,
                    queries@[i],
                    k as nat,
                ),
        forall|i: int, j: int|
            0 <= i < r@.len() && 0 <= j < r@[i]@.len() ==> (#[trigger] r@[i]@[j]) < nodes@.len()
                && matches_query(nodes@[r@[i]@[j] as int], queries@[i]),
        forall|i: int| 0 <= i < r@.len() ==> (#[trigger] r@[i])@.len() <= k,
        forall|i: int| 0 <= i < r@.len() ==> (#[trigger] r@[i])@.no_duplicates(),
{
    let idx = build_sorted_index(nodes);
    let mut out: Vec<Vec<usize>> = Vec::new();
    let mut i: usize = 0;
    let qn = queries.len();
    while i < qn
        invariant
            i <= qn,
            qn == queries@.len(),
            idx.wf(nodes@),
            forall|x: int, y: int|
                0 <= x < nodes@.len() && 0 <= y < queries@.len() ==> (#[trigger] nodes@[x]).vector@.len()
                    == (#[trigger] queries@[y]).vector@.len(),
            out@.len() == i,
            forall|x: int|
                0 <= x < i ==> (#[trigger] out@[x])@ == query_answer(
                    nodes@,
                    idx,
                    queries@[x],
                    k as nat,
                ),
            forall|x: int, y: int|
                0 <= x < i && 0 <= y < out@[x]@.len() ==> (#[trigger] out@[x]@[y]) < nodes@.len()
                    && matches_query(nodes@[out@[x]@[y] as int], queries@[x]),
            forall|x: int| 0 <= x < i ==> (#[trigger] out@[x])@.len() <= k,
            forall|x: int| 0 <= x < i ==> (#[trigger] out@[x])@.no_duplicates(),
        decreases qn - i,
    {
        let ans = answer_query(nodes, &idx, &queries[i], k);
        out.push(ans);
        i = i + 1;
    }
    out
}

/// The identifiers an external approximate retriever's answer stands for:
/// the retriever numbers nodes from 1, so each of its identifiers in
/// `1..=n` is shifted down by one, and anything outside that range is
/// dropped.
pub open spec fn adapted_ids(raw: Seq<u32>, n: nat) -> Seq<usize> {
    raw.filter(|x: u32| 1 <= x <= n).map_values(|x: u32| (x - 1) as usize)
}

/// Reconciles an external approximate retriever's answer with the table's
/// zero-based identifiers: shifts each one-based identifier down by one,
/// drops identifiers outside the table, and keeps at most `k`, in the
/// retriever's order.
pub fn adapt_approximate_ids(raw: &Vec<u32>, n: usize, k: usize) -> (r: Vec<usize>)
    ensures
        r@ == take_at_most(adapted_ids(raw@, n as nat), k as nat),
        r@.len() <= k,
        forall|i: int| 0 <= i < r@.len() ==> (#[trigger] r@[i]) < n,
{
    let mut out: Vec<usize> = Vec::new();
    let mut j: usize = 0;
    let len = raw.len();
    proof {
        reveal(Seq::filter);
        assert(raw@.take(0) =~= Seq::<u32>::empty());
        assert(adapted_ids(raw@.take(0), n as nat) =~= Seq::<usize>::empty());
    }
    while j < len
        invariant
            j <= len,
            len == raw@.len(),
            out@ == take_at_most(adapted_ids(raw@.take(j as int), n as nat), k as nat),
            out@.len() <= k,
            forall|i: int| 0 <= i < out@.len() ==> (#[trigger] out@[i]) < n,
        decreases len - j,
    {
        let x = raw[j];
        let keep = x >= 1 && x as u64 <= n as u64;
        if keep && out.len() < k {
            out.push((x - 1) as usize);
        }
        j = j + 1;
        proof {
            reveal(Seq::filter);
            let pred = |y: u32| 1 <= y <= n as nat;
            let prev = raw@.take(j - 1);
            let cur = raw@.take(j as int);
            assert(cur.drop_last() =~= prev);
            assert(cur.last() == x);
            if pred(x) {
                assert(cur.filter(pred) =~= prev.filter(pred).push(x));
                assert(adapted_ids(cur, n as nat) =~= adapted_ids(prev, n as nat).push(
                    (x - 1) as usize,
                ));
            } else {
                assert(cur.filter(pred) =~= prev.filter(pred));
                assert(adapted_ids(cur, n as nat) =~= adapted_ids(prev, n as nat));
            }
            assert(out@ == take_at_most(adapted_ids(cur, n as nat), k as nat));
        }
    }
    proof {
        assert(raw@.take(len as int) =~= raw@);
    }
    out
}

} // verus!
