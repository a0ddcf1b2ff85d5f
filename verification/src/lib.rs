//! Hybrid filtered k-nearest-neighbour query engine.
//!
//! Answers k-nearest-neighbour queries over a fixed table of nodes, where a
//! query may additionally constrain candidates to an exact attribute value,
//! to a timestamp interval, or to both.  Scalar attributes and vector
//! coordinates are plain integers: a caller that starts from another scalar
//! domain converts each value to an order-preserving (for keys) or
//! fixed-point (for coordinates) integer before building the table.
//!
//! The pipeline: [`index::build_sorted_index`] sorts the node identifiers
//! into the two permutations of [`index::SortedIndex`]; for a constrained
//! query, [`locate::locate_range`] binary-searches the contiguous run of
//! candidates; [`engine::answer_query`] scans the candidates, keeping the
//! `k` nearest in a [`topk::TopK`] collector, and [`engine::solve`] does so
//! for a whole batch.  [`engine::brute_force`] is the index-free strategy
//! that scans the whole table per query; [`engine::adapt_approximate_ids`]
//! reconciles an external approximate retriever's answer with the table's
//! identifiers; [`recall::knn_recall_hits`] counts a result table's hits
//! against a reference table.

use vstd::prelude::*;

pub mod dist;
pub mod engine;
pub mod index;
pub mod locate;
pub mod recall;
pub mod topk;

verus! {

/// One entry of the node table: an integer attribute value, an integer
/// timestamp key (any order-preserving encoding of the source timestamps),
/// and the coordinate vector.
pub struct Node {
    pub value: i32,
    pub timestamp: i64,
    pub vector: Vec<i32>,
}

impl Node {
    /// A node is well formed for dimension `dim` when its vector has
    /// exactly `dim` coordinates.
    pub open spec fn wf(self, dim: nat) -> bool {
        self.vector@.len() == dim
    }
}

/// Every node of the table has a `dim`-coordinate vector.
pub open spec fn table_wf(nodes: Seq<Node>, dim: nat) -> bool {
    forall|i: int| 0 <= i < nodes.len() ==> #[trigger] nodes[i].wf(dim)
}

/// The filter a query imposes on candidate nodes.
#[derive(Clone, Copy, PartialEq, Eq, Structural, Debug)]
pub enum QueryKind {
    Unconstrained,
    ValueEq,
    TimeRange,
    ValueEqAndTimeRange,
}

/// One query: a filter predicate (kind plus the scalars it reads) and a
/// query vector.  `value` is read only by `ValueEq` and
/// `ValueEqAndTimeRange`; `time_low` and `time_high` only by `TimeRange`
/// and `ValueEqAndTimeRange`.
pub struct Query {
    pub kind: QueryKind,
    pub value: i32,
    pub time_low: i64,
    pub time_high: i64,
    pub vector: Vec<i32>,
}

impl Query {
    /// A query is well formed for dimension `dim` when its vector has
    /// exactly `dim` coordinates.
    pub open spec fn wf(self, dim: nat) -> bool {
        self.vector@.len() == dim
    }
}

/// Whether node `n` satisfies the predicate of query `q`.
pub open spec fn matches_query(n: Node, q: Query) -> bool {
    match q.kind {
        QueryKind::Unconstrained => true,
        QueryKind::ValueEq => n.value == q.value,
        QueryKind::TimeRange => q.time_low <= n.timestamp <= q.time_high,
        QueryKind::ValueEqAndTimeRange => n.value == q.value && q.time_low <= n.timestamp
            <= q.time_high,
    }
}

/// An error of the engine itself.  Malformed files and not-a-number
/// timestamps are rejected by the loader before a table is built, so the
/// one condition left to report here is a query kind code outside the four
/// defined codes.
#[derive(Clone, Copy, PartialEq, Eq, Structural, Debug)]
pub enum QueryError {
    InvalidKind,
}

/// Maps a raw query kind code, as stored in a query file, to the kind it
/// denotes.  Exactly the codes 0 through 3 are defined; every other code is
/// rejected.
pub fn classify(code: u32) -> (r: Result<QueryKind, QueryError>)
    ensures
        code == 0 ==> r == Ok::<QueryKind, QueryError>(QueryKind::Unconstrained),
        code == 1 ==> r == Ok::<QueryKind, QueryError>(QueryKind::ValueEq),
        code == 2 ==> r == Ok::<QueryKind, QueryError>(QueryKind::TimeRange),
        code == 3 ==> r == Ok::<QueryKind, QueryError>(QueryKind::ValueEqAndTimeRange),
        code > 3 ==> r == Err::<QueryKind, QueryError>(QueryError::InvalidKind),
{
    match code {
        0 => Ok(QueryKind::Unconstrained),
        1 => Ok(QueryKind::ValueEq),
        2 => Ok(QueryKind::TimeRange),
        3 => Ok(QueryKind::ValueEqAndTimeRange),
        _ => Err(QueryError::InvalidKind),
    }
}

} // verus!
