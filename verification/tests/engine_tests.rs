use hybrid_vector_search::engine::{answer_query, answer_query_full_scan, brute_force, solve};
use hybrid_vector_search::index::build_sorted_index;
use hybrid_vector_search::locate::locate_range;
use hybrid_vector_search::{Node, Query, QueryKind};

fn vec_with(dim: usize, head: &[i32]) -> Vec<i32> {
    let mut v: Vec<i32> = vec![0; dim];
    for (i, c) in head.iter().enumerate() {
        v[i] = *c;
    }
    v
}

fn node(value: i32, timestamp: i64, dim: usize, head: &[i32]) -> Node {
    Node { value, timestamp, vector: vec_with(dim, head) }
}

fn query(kind: QueryKind, value: i32, lo: i64, hi: i64, dim: usize, head: &[i32]) -> Query {
    Query { kind, value, time_low: lo, time_high: hi, vector: vec_with(dim, head) }
}

// The four-node table of the end-to-end scenarios: timestamps 0, 5, 2, 10
// stand for the source timestamps 0.0, 5.0, 2.0, 10.0.
fn scenario_table(dim: usize) -> Vec<Node> {
    vec![
        node(1, 0, dim, &[1, 0]),
        node(1, 5, dim, &[0, 1]),
        node(2, 2, dim, &[1, 1]),
        node(1, 10, dim, &[2, 0]),
    ]
}

#[test]
fn index_permutations_are_sorted() {
    let nodes = vec![
        node(2, 5, 3, &[1]),
        node(1, 1, 3, &[2]),
        node(2, 3, 3, &[3]),
    ];
    let idx = build_sorted_index(&nodes);
    assert_eq!(idx.by_timestamp, vec![1, 2, 0]);
    // (value, timestamp) keys: (2,5), (1,1), (2,3).
    assert_eq!(idx.by_value_timestamp, vec![1, 2, 0]);
}

#[test]
fn index_breaks_key_ties_by_identifier() {
    let nodes = vec![
        node(1, 7, 1, &[0]),
        node(1, 7, 1, &[0]),
        node(1, 3, 1, &[0]),
    ];
    let idx = build_sorted_index(&nodes);
    assert_eq!(idx.by_timestamp, vec![2, 0, 1]);
    assert_eq!(idx.by_value_timestamp, vec![2, 0, 1]);
}

#[test]
fn index_rebuild_is_deterministic() {
    let nodes = scenario_table(4);
    let a = build_sorted_index(&nodes);
    let b = build_sorted_index(&nodes);
    assert_eq!(a.by_timestamp, b.by_timestamp);
    assert_eq!(a.by_value_timestamp, b.by_value_timestamp);
}

#[test]
fn locate_value_eq_covers_all_equal_values() {
    let nodes = scenario_table(4);
    let idx = build_sorted_index(&nodes);
    let q = query(QueryKind::ValueEq, 1, 0, 0, 4, &[0]);
    let r = locate_range(&nodes, &idx, &q);
    assert_eq!(r.end - r.start, 3);
    for x in r.start..r.end {
        assert_eq!(nodes[idx.by_value_timestamp[x]].value, 1);
    }
}

#[test]
fn locate_value_eq_no_match_is_empty() {
    let nodes = scenario_table(4);
    let idx = build_sorted_index(&nodes);
    let q = query(QueryKind::ValueEq, 5, 0, 0, 4, &[0]);
    let r = locate_range(&nodes, &idx, &q);
    assert_eq!(r.start, r.end);
}

#[test]
fn locate_time_range_bounds_equal_to_keys_are_inclusive() {
    let nodes = scenario_table(4);
    let idx = build_sorted_index(&nodes);
    // Bounds equal to existing timestamps on both sides: 2 and 5.
    let q = query(QueryKind::TimeRange, 0, 2, 5, 4, &[0]);
    let r = locate_range(&nodes, &idx, &q);
    let ids: Vec<usize> = (r.start..r.end).map(|x| idx.by_timestamp[x]).collect();
    assert_eq!(ids, vec![2, 1]);
}

#[test]
fn locate_time_range_outside_key_range_is_empty() {
    let nodes = scenario_table(4);
    let idx = build_sorted_index(&nodes);
    let q = query(QueryKind::TimeRange, 0, 100, 200, 4, &[0]);
    let r = locate_range(&nodes, &idx, &q);
    assert_eq!(r.start, r.end);
}

#[test]
fn locate_time_range_inverted_bounds_is_empty() {
    let nodes = scenario_table(4);
    let idx = build_sorted_index(&nodes);
    let q = query(QueryKind::TimeRange, 0, 6, 1, 4, &[0]);
    let r = locate_range(&nodes, &idx, &q);
    assert_eq!(r.start, r.end);
}

#[test]
fn locate_matches_linear_scan_on_mixed_table() {
    let values: Vec<i32> = vec![3, 1, 4, 1, 5, 9, 2, 6, 5, 3];
    let times: Vec<i64> = vec![7, -2, 0, 9, 4, 4, -5, 1, 4, 7];
    let nodes: Vec<Node> = values
        .iter()
        .zip(times.iter())
        .map(|(v, t)| node(*v, *t, 2, &[0]))
        .collect();
    let idx = build_sorted_index(&nodes);
    // Time range [0, 4]: compare the located run against a direct scan.
    let q = query(QueryKind::TimeRange, 0, 0, 4, 2, &[0]);
    let r = locate_range(&nodes, &idx, &q);
    let mut located: Vec<usize> = (r.start..r.end).map(|x| idx.by_timestamp[x]).collect();
    located.sort();
    let expected: Vec<usize> = (0..nodes.len())
        .filter(|i| 0 <= times[*i] && times[*i] <= 4)
        .collect();
    assert_eq!(located, expected);
}

#[test]
fn value_eq_scenario() {
    // ValueEq value=1, K=2, query vector [1,0,..]: candidates are ids 0, 1
    // and 3 with squared distances 0, 2 and 1; id 2 has the wrong value.
    // The two nearest are ids 0 and 3.
    let nodes = scenario_table(100);
    let idx = build_sorted_index(&nodes);
    let q = query(QueryKind::ValueEq, 1, 0, 0, 100, &[1]);
    let r = answer_query(&nodes, &idx, &q, 2);
    assert_eq!(r, vec![0, 3]);
}

#[test]
fn value_eq_scenario_without_truncation() {
    // With K=3 all value-1 nodes are returned, nearest first, and id 2 is
    // still excluded.
    let nodes = scenario_table(100);
    let idx = build_sorted_index(&nodes);
    let q = query(QueryKind::ValueEq, 1, 0, 0, 100, &[1]);
    let r = answer_query(&nodes, &idx, &q, 3);
    assert_eq!(r, vec![0, 3, 1]);
    assert!(!r.contains(&2));
}

#[test]
fn time_range_scenario() {
    // Time range [1, 6] over the scenario table: ids 1 (t=5) and 2 (t=2)
    // qualify; with query vector [1,0,..] their squared distances are 2
    // and 1, so id 2 comes first.
    let nodes = scenario_table(100);
    let idx = build_sorted_index(&nodes);
    let q = query(QueryKind::TimeRange, 0, 1, 6, 100, &[1]);
    let r = answer_query(&nodes, &idx, &q, 100);
    assert_eq!(r, vec![2, 1]);
}

#[test]
fn value_eq_and_time_range_needs_both() {
    // value=1 and t in [1, 6]: only id 1 satisfies both.
    let nodes = scenario_table(100);
    let idx = build_sorted_index(&nodes);
    let q = query(QueryKind::ValueEqAndTimeRange, 1, 1, 6, 100, &[1]);
    let r = answer_query(&nodes, &idx, &q, 100);
    assert_eq!(r, vec![1]);
}

#[test]
fn empty_predicate_yields_empty_result() {
    let nodes = scenario_table(8);
    let idx = build_sorted_index(&nodes);
    let q = query(QueryKind::ValueEqAndTimeRange, 2, 5, 9, 8, &[1]);
    let r = answer_query(&nodes, &idx, &q, 100);
    assert!(r.is_empty());
}

#[test]
fn unconstrained_equals_brute_force_oracle() {
    let nodes = vec![
        node(0, 0, 3, &[10, 0, 0]),
        node(0, 0, 3, &[0, 0, 0]),
        node(0, 0, 3, &[3, 4, 0]),
        node(0, 0, 3, &[1, 1, 1]),
        node(0, 0, 3, &[-2, 0, 2]),
    ];
    let idx = build_sorted_index(&nodes);
    let q = query(QueryKind::Unconstrained, 0, 0, 0, 3, &[0, 0, 0]);
    let r = answer_query(&nodes, &idx, &q, 3);
    // Brute-force oracle: distances 100, 0, 25, 3, 8 in identifier order;
    // a stable sort by distance ranks ids 1, 3, 4, 2, 0.
    let mut oracle: Vec<(u128, usize)> = vec![(100, 0), (0, 1), (25, 2), (3, 3), (8, 4)];
    oracle.sort_by_key(|p| p.0);
    let expected: Vec<usize> = oracle.iter().take(3).map(|p| p.1).collect();
    assert_eq!(r, expected);
}

#[test]
fn unconstrained_tie_break_is_visit_order() {
    let nodes = vec![
        node(0, 0, 2, &[1, 0]),
        node(0, 0, 2, &[0, 1]),
        node(0, 0, 2, &[0, 0]),
    ];
    let idx = build_sorted_index(&nodes);
    let q = query(QueryKind::Unconstrained, 0, 0, 0, 2, &[0, 0]);
    let r = answer_query(&nodes, &idx, &q, 2);
    // Ids 0 and 1 are equally far (distance 1); id 2 is nearest; the tie
    // is broken in favour of the earlier identifier.
    assert_eq!(r, vec![2, 0]);
}

#[test]
fn same_query_twice_gives_identical_results() {
    let nodes = scenario_table(16);
    let idx = build_sorted_index(&nodes);
    let q = query(QueryKind::TimeRange, 0, 0, 10, 16, &[1, 1]);
    let a = answer_query(&nodes, &idx, &q, 3);
    let b = answer_query(&nodes, &idx, &q, 3);
    assert_eq!(a, b);
}

#[test]
fn solve_answers_each_slot_independently() {
    let nodes = scenario_table(100);
    let queries = vec![
        query(QueryKind::ValueEq, 1, 0, 0, 100, &[1]),
        query(QueryKind::TimeRange, 0, 1, 6, 100, &[1]),
        query(QueryKind::Unconstrained, 0, 0, 0, 100, &[1]),
        query(QueryKind::ValueEq, 42, 0, 0, 100, &[1]),
    ];
    let r = solve(&nodes, &queries, 2);
    assert_eq!(r.len(), 4);
    assert_eq!(r[0], vec![0, 3]);
    assert_eq!(r[1], vec![2, 1]);
    // Unconstrained: distances 0, 2, 1, 1 in identifier order.
    assert_eq!(r[2], vec![0, 2]);
    assert_eq!(r[3], Vec::<usize>::new());
}

#[test]
fn full_scan_agrees_with_dispatcher_on_unconstrained() {
    let nodes = scenario_table(100);
    let idx = build_sorted_index(&nodes);
    let q = query(QueryKind::Unconstrained, 0, 0, 0, 100, &[1]);
    let via_dispatcher = answer_query(&nodes, &idx, &q, 3);
    let via_full_scan = answer_query_full_scan(&nodes, &q, 3);
    assert_eq!(via_dispatcher, via_full_scan);
}

#[test]
fn full_scan_filters_by_predicate() {
    // The brute-force strategy visits candidates in identifier order, so
    // the value-1 nodes rank 0, 3, 1 by distance, as on the range path.
    let nodes = scenario_table(100);
    let q = query(QueryKind::ValueEq, 1, 0, 0, 100, &[1]);
    let r = answer_query_full_scan(&nodes, &q, 3);
    assert_eq!(r, vec![0, 3, 1]);
}

#[test]
fn brute_force_batch() {
    let nodes = scenario_table(100);
    let queries = vec![
        query(QueryKind::TimeRange, 0, 1, 6, 100, &[1]),
        query(QueryKind::ValueEqAndTimeRange, 1, 1, 6, 100, &[1]),
    ];
    let r = brute_force(&nodes, &queries, 10);
    assert_eq!(r.len(), 2);
    assert_eq!(r[0], vec![2, 1]);
    assert_eq!(r[1], vec![1]);
}

#[test]
fn solve_with_empty_table() {
    let nodes: Vec<Node> = vec![];
    let queries = vec![query(QueryKind::Unconstrained, 0, 0, 0, 4, &[1])];
    let r = solve(&nodes, &queries, 5);
    assert_eq!(r.len(), 1);
    assert!(r[0].is_empty());
}
