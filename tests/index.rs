use openvdb::index::{Hit, IndexError, SearchRequest, InMemoryIndex};
use serde_json::Value;

fn bits(xs: &[f32]) -> Vec<u32> {
    xs.iter().map(|x| x.to_bits()).collect()
}

fn meta(text: &str) -> Option<Value> {
    Some(Value::String(text.to_string()))
}

#[test]
fn new_rejects_zero_dimension() {
    assert!(matches!(InMemoryIndex::new(0), Err(IndexError::InvalidDimension)));
    let idx = InMemoryIndex::new(3).unwrap();
    assert_eq!(idx.dimension(), 3);
    assert_eq!(idx.vector_count(), 0);
}

#[test]
fn upsert_then_export() {
    let mut idx = InMemoryIndex::new(3).unwrap();
    assert_eq!(idx.upsert("a".to_string(), bits(&[1.0, 0.0, 0.0]), meta("x")), Ok(0));
    assert_eq!(idx.upsert("b".to_string(), bits(&[0.0, 1.0, 0.0]), None), Ok(1));
    let out = idx.export_vectors();
    assert_eq!(out.len(), 2);
    assert_eq!(out[0].id, "a");
    assert_eq!(out[0].values, bits(&[1.0, 0.0, 0.0]));
    assert_eq!(out[0].metadata, meta("x"));
    assert_eq!(out[1].id, "b");
    assert_eq!(out[1].metadata, None);
}

#[test]
fn dimension_mismatch_leaves_index_unchanged() {
    let mut idx = InMemoryIndex::new(3).unwrap();
    idx.upsert("a".to_string(), bits(&[1.0, 2.0, 3.0]), None).unwrap();
    let r = idx.upsert("b".to_string(), bits(&[1.0, 2.0]), None);
    assert_eq!(r, Err(IndexError::DimensionMismatch { expected: 3, found: 2 }));
    let r = idx.upsert("a".to_string(), bits(&[1.0, 2.0, 3.0, 4.0]), None);
    assert_eq!(r, Err(IndexError::DimensionMismatch { expected: 3, found: 4 }));
    assert_eq!(idx.vector_count(), 1);
    assert_eq!(idx.export_vectors()[0].values, bits(&[1.0, 2.0, 3.0]));
}

#[test]
fn zero_vector_is_refused_for_upsert_and_query() {
    let mut idx = InMemoryIndex::new(3).unwrap();
    let r = idx.upsert("z".to_string(), bits(&[0.0, 0.0, 0.0]), None);
    assert_eq!(r, Err(IndexError::DegenerateVector));
    assert_eq!(idx.vector_count(), 0);
    for k in [0usize, 1, 10] {
        assert_eq!(idx.plan_query(&bits(&[0.0, 0.0, 0.0]), k), Err(IndexError::DegenerateVector));
    }
    idx.upsert("a".to_string(), bits(&[1.0, 0.0, 0.0]), None).unwrap();
    assert_eq!(idx.plan_query(&bits(&[0.0, -0.0, 0.0]), 3), Err(IndexError::DegenerateVector));
}

#[test]
fn squares_that_underflow_count_as_zero() {
    let mut idx = InMemoryIndex::new(2).unwrap();
    // 1e-30 squared underflows to zero in single precision; 1e-20 squared does not.
    assert_eq!((1e-30f32 * 1e-30f32), 0.0);
    assert!((1e-20f32 * 1e-20f32) > 0.0);
    let r = idx.upsert("tiny".to_string(), bits(&[1e-30, 0.0]), None);
    assert_eq!(r, Err(IndexError::DegenerateVector));
    assert_eq!(idx.upsert("small".to_string(), bits(&[1e-20, 0.0]), None), Ok(0));
    // The largest magnitude whose square rounds to zero, and the next one up.
    let edge = f32::from_bits(0x1A00_0000);
    assert_eq!(edge * edge, 0.0);
    let above = f32::from_bits(0x1A00_0001);
    assert!(above * above > 0.0);
    assert_eq!(idx.upsert("edge".to_string(), bits(&[edge, -edge]), None), Err(IndexError::DegenerateVector));
    assert_eq!(idx.upsert("above".to_string(), bits(&[0.0, above]), None), Ok(1));
    // NaN is not degenerate: its square is NaN, not zero.
    assert_eq!(idx.upsert("nan".to_string(), bits(&[f32::NAN, 0.0]), None), Ok(2));
}

#[test]
fn upsert_twice_keeps_one_record_with_latest_values() {
    let mut idx = InMemoryIndex::new(2).unwrap();
    let first = idx.upsert("a".to_string(), bits(&[1.0, 0.0]), meta("old")).unwrap();
    let second = idx.upsert("a".to_string(), bits(&[0.0, 1.0]), meta("new")).unwrap();
    assert_ne!(first, second);
    assert_eq!(idx.vector_count(), 1);
    let out = idx.export_vectors();
    assert_eq!(out.len(), 1);
    assert_eq!(out[0].values, bits(&[0.0, 1.0]));
    assert_eq!(out[0].metadata, meta("new"));
}

#[test]
fn delete_reports_presence_and_reupsert_gets_fresh_internal_id() {
    let mut idx = InMemoryIndex::new(2).unwrap();
    assert_eq!(idx.upsert("a".to_string(), bits(&[1.0, 0.0]), None), Ok(0));
    assert!(idx.delete(&"a".to_string()));
    assert!(!idx.delete(&"a".to_string()));
    assert_eq!(idx.vector_count(), 0);
    assert_eq!(idx.upsert("a".to_string(), bits(&[1.0, 0.0]), None), Ok(1));
    assert_eq!(idx.upsert("b".to_string(), bits(&[1.0, 1.0]), None), Ok(2));
}

#[test]
fn plan_query_asks_for_overfetched_candidates() {
    let mut idx = InMemoryIndex::new(2).unwrap();
    let q = bits(&[1.0, 0.0]);
    assert_eq!(idx.plan_query(&q, 5), Ok(None));
    idx.upsert("a".to_string(), bits(&[1.0, 0.0]), None).unwrap();
    assert_eq!(idx.plan_query(&q, 0), Ok(None));
    assert_eq!(idx.plan_query(&q, 5), Ok(Some(SearchRequest { candidates: 20, ef: 64 })));
    assert_eq!(idx.plan_query(&q, 100), Ok(Some(SearchRequest { candidates: 400, ef: 100 })));
    assert_eq!(
        idx.plan_query(&q, usize::MAX / 2),
        Ok(Some(SearchRequest { candidates: usize::MAX, ef: usize::MAX / 2 }))
    );
    assert_eq!(
        idx.plan_query(&bits(&[1.0]), 5),
        Err(IndexError::DimensionMismatch { expected: 2, found: 1 })
    );
}

#[test]
fn resolve_drops_deleted_and_repeated_hits() {
    let mut idx = InMemoryIndex::new(2).unwrap();
    idx.upsert("a".to_string(), bits(&[1.0, 0.0]), meta("A")).unwrap();
    idx.upsert("b".to_string(), bits(&[0.0, 1.0]), None).unwrap();
    idx.upsert("c".to_string(), bits(&[1.0, 1.0]), None).unwrap();
    idx.delete(&"a".to_string());
    let a_again = idx.upsert("a".to_string(), bits(&[1.0, 0.0]), meta("A2")).unwrap();
    assert_eq!(a_again, 3);
    let hits = vec![
        Hit { internal_id: 0, score: 1.0f32.to_bits() },
        Hit { internal_id: 3, score: 0.99f32.to_bits() },
        Hit { internal_id: 3, score: 0.98f32.to_bits() },
        Hit { internal_id: 2, score: 0.7f32.to_bits() },
        Hit { internal_id: 1, score: 0.1f32.to_bits() },
    ];
    let out = idx.resolve_hits(&hits, 10);
    let ids: Vec<&str> = out.iter().map(|p| p.id.as_str()).collect();
    assert_eq!(ids, vec!["a", "c", "b"]);
    assert_eq!(f32::from_bits(out[0].score), 0.99);
    assert_eq!(out[0].metadata, meta("A2"));
    let top2 = idx.resolve_hits(&hits, 2);
    let ids: Vec<&str> = top2.iter().map(|p| p.id.as_str()).collect();
    assert_eq!(ids, vec!["a", "c"]);
    assert!(idx.resolve_hits(&hits, 0).is_empty());
}

#[test]
fn deleted_id_never_returned_after_other_upserts() {
    let mut idx = InMemoryIndex::new(2).unwrap();
    let old = idx.upsert("gone".to_string(), bits(&[1.0, 0.0]), None).unwrap();
    idx.delete(&"gone".to_string());
    let other = idx.upsert("kept".to_string(), bits(&[1.0, 0.0]), None).unwrap();
    let hits = vec![
        Hit { internal_id: old, score: 1.0f32.to_bits() },
        Hit { internal_id: other, score: 1.0f32.to_bits() },
    ];
    let out = idx.resolve_hits(&hits, 5);
    assert_eq!(out.len(), 1);
    assert_eq!(out[0].id, "kept");
}

#[test]
fn overwritten_vector_node_no_longer_resolves() {
    let mut idx = InMemoryIndex::new(2).unwrap();
    let old = idx.upsert("a".to_string(), bits(&[1.0, 0.0]), meta("old")).unwrap();
    let new = idx.upsert("a".to_string(), bits(&[0.0, 1.0]), meta("new")).unwrap();
    assert_eq!((old, new), (0, 1));
    // The graph still holds a node for the old vector; a hit on it is dropped.
    let hits = vec![
        Hit { internal_id: old, score: 1.0f32.to_bits() },
        Hit { internal_id: new, score: 0.0f32.to_bits() },
    ];
    let out = idx.resolve_hits(&hits, 5);
    assert_eq!(out.len(), 1);
    assert_eq!(out[0].id, "a");
    assert_eq!(f32::from_bits(out[0].score), 0.0);
    assert_eq!(out[0].metadata, meta("new"));
}
