//! Builds the two sorted permutations of node identifiers that constrained
//! queries are located in.
//!
//! Both permutations are strictly sorted by an injective key (the sort key
//! with the identifier as final tie-break), so each is the unique sorted
//! arrangement of `0..n`: rebuilding the index over the same table yields
//! the same permutations.

use vstd::prelude::*;

use crate::Node;

verus! {

/// The identifiers `0, 1, .., n-1` in order: the visit order of a plain
/// linear scan of the table.
pub open spec fn id_seq(n: nat) -> Seq<usize> {
    Seq::new(n, |i: int| i as usize)
}

/// `s` holds every identifier below `n`, and nothing else, in `n` slots.
pub open spec fn is_id_perm(s: Seq<usize>, n: nat) -> bool {
    &&& s.len() == n
    &&& forall|x: int| 0 <= x < s.len() ==> (#[trigger] s[x]) < n
    &&& forall|id: usize| id < n ==> s.contains(id)
}

/// Strict order on identifiers by (timestamp, identifier).
pub open spec fn time_lt(nodes: Seq<Node>, a: usize, b: usize) -> bool {
    ||| nodes[a as int].timestamp < nodes[b as int].timestamp
    ||| (nodes[a as int].timestamp == nodes[b as int].timestamp && a < b)
}

/// Strict order on identifiers by (value, timestamp, identifier).
pub open spec fn value_time_lt(nodes: Seq<Node>, a: usize, b: usize) -> bool {
    ||| nodes[a as int].value < nodes[b as int].value
    ||| (nodes[a as int].value == nodes[b as int].value && time_lt(nodes, a, b))
}

/// The order a permutation is sorted by: by (value, timestamp) when
/// `by_value` is set, by timestamp alone otherwise; the identifier breaks
/// remaining ties, so distinct identifiers always compare strictly.
pub open spec fn key_lt(nodes: Seq<Node>, by_value: bool, a: usize, b: usize) -> bool {
    if by_value {
        value_time_lt(nodes, a, b)
    } else {
        time_lt(nodes, a, b)
    }
}

/// Every pair of positions of `s` is strictly ordered by the key.
pub open spec fn sorted_by_key(nodes: Seq<Node>, by_value: bool, s: Seq<usize>) -> bool {
    forall|i: int, j: int|
        0 <= i < j < s.len() ==> key_lt(nodes, by_value, #[trigger] s[i], #[trigger] s[j])
}

/// Distinct identifiers always compare, one way and only one.
proof fn lemma_key_lt_total(nodes: Seq<Node>, by_value: bool, a: usize, b: usize)
    requires
        a != b,
    ensures
        key_lt(nodes, by_value, a, b) <==> !key_lt(nodes, by_value, b, a),
{
}

/// The two sorted permutations of the node identifiers.  `by_timestamp`
/// is ordered ascending by timestamp, `by_value_timestamp` ascending by
/// (value, timestamp); ties are in ascending identifier order.
pub struct SortedIndex {
    pub by_timestamp: Vec<usize>,
    pub by_value_timestamp: Vec<usize>,
}

impl SortedIndex {
    /// Both sequences are permutations of `0..n`, each sorted by its key.
    pub open spec fn wf(self, nodes: Seq<Node>) -> bool {
        &&& is_id_perm(self.by_timestamp@, nodes.len())
        &&& sorted_by_key(nodes, false, self.by_timestamp@)
        &&& is_id_perm(self.by_value_timestamp@, nodes.len())
        &&& sorted_by_key(nodes, true, self.by_value_timestamp@)
    }
}

/// Compares two identifiers by the selected key.
fn key_less(nodes: &Vec<Node>, by_value: bool, a: usize, b: usize) -> (r: bool)
    requires
        a < nodes@.len(),
        b < nodes@.len(),
    ensures
        r == key_lt(nodes@, by_value, a, b),
{
    let na = &nodes[a];
    let nb = &nodes[b];
    if by_value && na.value != nb.value {
        na.value < nb.value
    } else if na.timestamp != nb.timestamp {
        na.timestamp < nb.timestamp
    } else {
        a < b
    }
}

/// Sorts the identifiers `0..n` ascending by the selected key, by
/// insertion into an already sorted prefix of identifiers.
fn sort_ids(nodes: &Vec<Node>, by_value: bool) -> (perm: Vec<usize>)
    ensures
        is_id_perm(perm@, nodes@.len()),
        sorted_by_key(nodes@, by_value, perm@),
{
    let n = nodes.len();
    let mut perm: Vec<usize> = Vec::new();
    let mut m: usize = 0;
    while m < n
        invariant
            m <= n,
            n == nodes@.len(),
            perm@.len() == m,
            forall|x: int| 0 <= x < perm@.len() ==> (#[trigger] perm@[x]) < m,
            forall|id: usize| id < m ==> perm@.contains(id),
            sorted_by_key(nodes@, by_value, perm@),
        decreases n - m,
    {
        let ghost s0 = perm@;
        let len = perm.len();
        let mut p: usize = 0;
        while p < len && key_less(nodes, by_value, perm[p], m)
            invariant
                0 <= p <= len,
                len == perm@.len(),
                perm@ == s0,
                m < n,
                n == nodes@.len(),
                forall|x: int| 0 <= x < perm@.len() ==> (#[trigger] perm@[x]) < m,
                forall|x: int| 0 <= x < p ==> key_lt(nodes@, by_value, #[trigger] perm@[x], m),
            decreases len - p,
        {
            p = p + 1;
        }
        proof {
            assert forall|x: int| p <= x < s0.len() implies key_lt(nodes@, by_value, m, #[trigger] s0[x]) by {
                lemma_key_lt_total(nodes@, by_value, s0[p as int], m);
                assert(key_lt(nodes@, by_value, m, s0[p as int]));
                if x > p {
                    assert(key_lt(nodes@, by_value, s0[p as int], s0[x]));
                }
            }
        }
        perm.insert(p, m);
        proof {
            s0.insert_ensures(p as int, m);
            let t = perm@;
            assert forall|x: int| 0 <= x < t.len() implies (#[trigger] t[x]) < m + 1 by {
                if x < p {
                    assert(t[x] == s0[x]);
                } else if x == p {
                } else {
                    assert(t[x] == s0[x - 1]);
                }
            }
            assert forall|id: usize| id < m + 1 implies t.contains(id) by {
                if id < m {
                    assert(s0.contains(id));
                    let w = choose|w: int| 0 <= w < s0.len() && s0[w] == id;
                    if w < p {
                        assert(t[w] == id);
                    } else {
                        assert(t[w + 1] == id);
                    }
                } else {
                    assert(t[p as int] == id);
                }
            }
            assert forall|i: int, j: int|
                0 <= i < j < t.len() implies key_lt(nodes@, by_value, #[trigger] t[i], #[trigger] t[j]) by {
                if j < p {
                    assert(t[i] == s0[i] && t[j] == s0[j]);
                } else if j == p {
                    assert(t[i] == s0[i] && t[j] == m);
                } else {
                    assert(t[j] == s0[j - 1]);
                    if i < p {
                        assert(t[i] == s0[i]);
                    } else if i == p {
                        assert(t[i] == m);
                    } else {
                        assert(t[i] == s0[i - 1]);
                    }
                }
            }
        }
        m = m + 1;
    }
    perm
}

/// Builds both sorted permutations of the table's identifiers.  Runs once;
/// the result is read-only for the rest of a run.
pub fn build_sorted_index(nodes: &Vec<Node>) -> (idx: SortedIndex)
    ensures
        idx.wf(nodes@),
{
    SortedIndex {
        by_timestamp: sort_ids(nodes, false),
        by_value_timestamp: sort_ids(nodes, true),
    }
}

/// A strictly sorted permutation has no repeated identifier.
pub proof fn lemma_sorted_perm_no_duplicates(nodes: Seq<Node>, by_value: bool, s: Seq<usize>)
    requires
        sorted_by_key(nodes, by_value, s),
    ensures
        s.no_duplicates(),
{
    assert forall|i: int, j: int| 0 <= i < s.len() && 0 <= j < s.len() && i != j implies s[i]
        != s[j] by {
        if i < j {
            assert(key_lt(nodes, by_value, s[i], s[j]));
        } else {
            assert(key_lt(nodes, by_value, s[j], s[i]));
        }
    }
}

} // verus!
