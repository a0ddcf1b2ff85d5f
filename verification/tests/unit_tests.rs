use hybrid_vector_search::classify;
use hybrid_vector_search::dist::squared_distance;
use hybrid_vector_search::engine::adapt_approximate_ids;
use hybrid_vector_search::recall::knn_recall_hits;
use hybrid_vector_search::topk::TopK;
use hybrid_vector_search::{QueryError, QueryKind};

#[test]
fn classify_defined_codes() {
    assert_eq!(classify(0), Ok(QueryKind::Unconstrained));
    assert_eq!(classify(1), Ok(QueryKind::ValueEq));
    assert_eq!(classify(2), Ok(QueryKind::TimeRange));
    assert_eq!(classify(3), Ok(QueryKind::ValueEqAndTimeRange));
}

#[test]
fn classify_rejects_unknown_codes() {
    assert_eq!(classify(4), Err(QueryError::InvalidKind));
    assert_eq!(classify(7), Err(QueryError::InvalidKind));
    assert_eq!(classify(u32::MAX), Err(QueryError::InvalidKind));
}

#[test]
fn squared_distance_exact_value() {
    let a: Vec<i32> = vec![1, 2, 3];
    let b: Vec<i32> = vec![4, 6, 3];
    assert_eq!(squared_distance(&a, &b), 9 + 16);
}

#[test]
fn squared_distance_empty_vectors() {
    let a: Vec<i32> = vec![];
    let b: Vec<i32> = vec![];
    assert_eq!(squared_distance(&a, &b), 0);
}

#[test]
fn squared_distance_extreme_coordinates() {
    let a: Vec<i32> = vec![i32::MAX];
    let b: Vec<i32> = vec![i32::MIN];
    // The difference is 2^32 - 1; its square is exact in u128.
    let d: u128 = (u32::MAX as u128) * (u32::MAX as u128);
    assert_eq!(squared_distance(&a, &b), d);
}

#[test]
fn topk_returns_nearest_first() {
    let mut c = TopK::new(3);
    c.offer(5, 0);
    c.offer(3, 1);
    c.offer(9, 2);
    c.offer(4, 3);
    let r = c.drain();
    let got: Vec<(u128, usize)> = r.iter().map(|e| (e.dist, e.id)).collect();
    assert_eq!(got, vec![(3, 1), (4, 3), (5, 0)]);
}

#[test]
fn topk_ties_keep_visit_order() {
    let mut c = TopK::new(2);
    c.offer(7, 10);
    c.offer(7, 11);
    c.offer(7, 12);
    let r = c.drain();
    let got: Vec<usize> = r.iter().map(|e| e.id).collect();
    assert_eq!(got, vec![10, 11]);
}

#[test]
fn topk_evicts_current_worst() {
    let mut c = TopK::new(2);
    c.offer(9, 1);
    c.offer(8, 2);
    c.offer(7, 3);
    let r = c.drain();
    let got: Vec<(u128, usize)> = r.iter().map(|e| (e.dist, e.id)).collect();
    assert_eq!(got, vec![(7, 3), (8, 2)]);
}

#[test]
fn topk_zero_capacity_retains_nothing() {
    let mut c = TopK::new(0);
    c.offer(1, 0);
    c.offer(2, 1);
    assert!(c.drain().is_empty());
}

#[test]
fn topk_short_when_fewer_offers_than_capacity() {
    let mut c = TopK::new(10);
    c.offer(2, 4);
    c.offer(1, 5);
    let r = c.drain();
    let got: Vec<usize> = r.iter().map(|e| e.id).collect();
    assert_eq!(got, vec![5, 4]);
}

#[test]
fn adapter_shifts_and_drops_out_of_table_ids() {
    // External retrievers number nodes from 1; 0 and anything above the
    // table size carry no meaning and are dropped.
    let raw: Vec<u32> = vec![3, 1, 0, 7, 2];
    let r = adapt_approximate_ids(&raw, 5, 10);
    assert_eq!(r, vec![2, 0, 1]);
}

#[test]
fn adapter_truncates_to_k() {
    let raw: Vec<u32> = vec![3, 1, 2];
    let r = adapt_approximate_ids(&raw, 5, 2);
    assert_eq!(r, vec![2, 0]);
}

#[test]
fn adapter_empty_input() {
    let raw: Vec<u32> = vec![];
    let r = adapt_approximate_ids(&raw, 5, 3);
    assert!(r.is_empty());
}

#[test]
fn recall_hits_counts_reference_entries_found() {
    let knns: Vec<Vec<u32>> = vec![vec![1, 2, 3], vec![4, 5]];
    let gt: Vec<Vec<u32>> = vec![vec![2, 9, 1], vec![5, 5]];
    // Row 0 finds 2 and 1 of the reference row; row 1 finds 5 twice.
    assert_eq!(knn_recall_hits(&knns, &gt), 4);
}

#[test]
fn recall_hits_empty_tables() {
    let knns: Vec<Vec<u32>> = vec![];
    let gt: Vec<Vec<u32>> = vec![];
    assert_eq!(knn_recall_hits(&knns, &gt), 0);
}
