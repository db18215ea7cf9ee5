use openvdb::index::{Hit, IndexError, SearchRequest};
use openvdb::models::{CreateCollectionRequest, QueryRequest, UpsertRequest, VectorData};
use openvdb::registry::{ApiError, Registry};
use openvdb::service::{
    collection_stats, create_collection, delete_collection, delete_vector, get_collection,
    health, list_collections, plan_query_vectors, query_vectors, upsert_vectors,
};
use openvdb::snapshot::snapshot_state;
use openvdb::wal::{replay_wal, WalEntry};

fn bits(xs: &[f32]) -> Vec<u32> {
    xs.iter().map(|x| x.to_bits()).collect()
}

fn s(text: &str) -> String {
    text.to_string()
}

fn vector(id: &str, xs: &[f32]) -> VectorData {
    VectorData { id: s(id), values: bits(xs), metadata: None }
}

fn create(reg: &mut Registry, tenant: &str, name: &str, dimension: usize) {
    let r = create_collection(reg, &s(tenant), CreateCollectionRequest { name: s(name), dimension });
    assert!(r.result.is_ok());
}

/// What a snapshot of the registry holds, as plain values.
fn contents(reg: &Registry) -> Vec<(String, String, usize, Vec<(String, Vec<u32>)>)> {
    snapshot_state(reg)
        .collections
        .into_iter()
        .map(|c| {
            let vs = c.vectors.into_iter().map(|v| (v.id, v.values)).collect();
            (c.tenant, c.name, c.dimension, vs)
        })
        .collect()
}

#[test]
fn health_says_ok() {
    assert_eq!(health().status, "ok");
}

#[test]
fn create_refuses_zero_dimension_and_duplicates() {
    let mut reg = Registry::new();
    let r = create_collection(&mut reg, &s("t"), CreateCollectionRequest { name: s("c"), dimension: 0 });
    assert!(matches!(r.result, Err(ApiError::InvalidInput(IndexError::InvalidDimension))));
    assert!(r.log.is_empty());
    let r = create_collection(&mut reg, &s("t"), CreateCollectionRequest { name: s("c"), dimension: 3 });
    let resp = r.result.unwrap();
    assert_eq!(resp.name, "c");
    assert_eq!(resp.dimension, 3);
    assert_eq!(r.log.len(), 1);
    let r = create_collection(&mut reg, &s("t"), CreateCollectionRequest { name: s("c"), dimension: 4 });
    assert!(matches!(r.result, Err(ApiError::Conflict)));
    assert!(r.log.is_empty());
    // The same name under another tenant is a different collection.
    create(&mut reg, "u", "c", 4);
    assert_eq!(reg.len(), 2);
}

#[test]
fn list_get_and_stats() {
    let mut reg = Registry::new();
    create(&mut reg, "t", "a", 2);
    create(&mut reg, "u", "x", 5);
    create(&mut reg, "t", "b", 3);
    let out = upsert_vectors(&mut reg, &s("t"), &s("a"), UpsertRequest { vectors: vec![vector("v", &[1.0, 2.0])] });
    assert_eq!(out.result.unwrap().upserted, 1);
    let list = list_collections(&reg, &s("t")).collections;
    let names: Vec<(&str, usize, usize)> = list.iter().map(|c| (c.name.as_str(), c.dimension, c.vectors)).collect();
    assert_eq!(names, vec![("a", 2, 1), ("b", 3, 0)]);
    assert!(list_collections(&reg, &s("nobody")).collections.is_empty());
    let got = get_collection(&reg, &s("t"), s("a")).unwrap();
    assert_eq!((got.name.as_str(), got.dimension, got.vectors), ("a", 2, 1));
    assert!(matches!(get_collection(&reg, &s("u"), s("a")), Err(ApiError::NotFound)));
    let stats = collection_stats(&reg, &s("u"), s("x")).unwrap();
    assert_eq!(stats.index_type, "hnsw_cosine");
    assert_eq!(stats.dimension, 5);
    assert!(matches!(collection_stats(&reg, &s("t"), s("x")), Err(ApiError::NotFound)));
}

#[test]
fn delete_collection_drops_tenant_when_last_goes() {
    let mut reg = Registry::new();
    create(&mut reg, "t", "a", 2);
    let r = delete_collection(&mut reg, &s("t"), &s("missing"));
    assert!(matches!(r.result, Err(ApiError::NotFound)));
    assert!(r.log.is_empty());
    let r = delete_collection(&mut reg, &s("t"), &s("a"));
    assert!(r.result.unwrap().deleted);
    assert_eq!(r.log.len(), 1);
    assert_eq!(reg.len(), 0);
    assert!(list_collections(&reg, &s("t")).collections.is_empty());
}

#[test]
fn batch_upsert_stops_at_first_refusal_and_keeps_earlier_items() {
    let mut reg = Registry::new();
    create(&mut reg, "t", "c", 2);
    let batch = UpsertRequest {
        vectors: vec![vector("a", &[1.0, 0.0]), vector("b", &[0.0, 1.0]), vector("bad", &[1.0]), vector("d", &[1.0, 1.0])],
    };
    let out = upsert_vectors(&mut reg, &s("t"), &s("c"), batch);
    assert_eq!(out.result.unwrap_err(), ApiError::InvalidInput(IndexError::DimensionMismatch { expected: 2, found: 1 }));
    assert_eq!(out.internal_ids, vec![0, 1]);
    assert_eq!(out.log.len(), 2);
    assert_eq!(reg.get(&s("t"), &s("c")).unwrap().vector_count(), 2);
    let out = upsert_vectors(&mut reg, &s("t"), &s("missing"), UpsertRequest { vectors: vec![vector("a", &[1.0, 0.0])] });
    assert!(matches!(out.result, Err(ApiError::NotFound)));
    assert!(out.log.is_empty());
}

#[test]
fn upsert_into_collection_checks_dimension_and_norm() {
    let mut reg = Registry::new();
    create(&mut reg, "t", "c", 3);
    let out = upsert_vectors(&mut reg, &s("t"), &s("c"), UpsertRequest { vectors: vec![vector("z", &[0.0, 0.0, 0.0])] });
    assert!(matches!(out.result, Err(ApiError::InvalidInput(IndexError::DegenerateVector))));
    let out = upsert_vectors(&mut reg, &s("t"), &s("c"), UpsertRequest { vectors: vec![vector("w", &[1.0, 0.0, 0.0, 0.0])] });
    assert!(matches!(out.result, Err(ApiError::InvalidInput(IndexError::DimensionMismatch { expected: 3, found: 4 }))));
    assert_eq!(reg.get(&s("t"), &s("c")).unwrap().vector_count(), 0);
}

#[test]
fn delete_vector_logs_only_real_deletes() {
    let mut reg = Registry::new();
    create(&mut reg, "t", "c", 2);
    upsert_vectors(&mut reg, &s("t"), &s("c"), UpsertRequest { vectors: vec![vector("a", &[1.0, 0.0])] });
    let r = delete_vector(&mut reg, &s("t"), &s("c"), &s("a"));
    assert!(r.result.unwrap().deleted);
    assert_eq!(r.log.len(), 1);
    let r = delete_vector(&mut reg, &s("t"), &s("c"), &s("a"));
    assert!(!r.result.unwrap().deleted);
    assert!(r.log.is_empty());
    let r = delete_vector(&mut reg, &s("t"), &s("nope"), &s("a"));
    assert!(matches!(r.result, Err(ApiError::NotFound)));
}

#[test]
fn query_flow_through_the_registry() {
    let mut reg = Registry::new();
    create(&mut reg, "t", "c", 2);
    let ids = upsert_vectors(
        &mut reg,
        &s("t"),
        &s("c"),
        UpsertRequest { vectors: vec![vector("a", &[1.0, 0.0]), vector("b", &[0.0, 1.0])] },
    )
    .internal_ids;
    let q = QueryRequest { vector: bits(&[1.0, 0.0]), top_k: 1 };
    assert_eq!(plan_query_vectors(&reg, &s("t"), &s("c"), &q), Ok(Some(SearchRequest { candidates: 4, ef: 64 })));
    let hits = vec![
        Hit { internal_id: ids[0], score: 1.0f32.to_bits() },
        Hit { internal_id: ids[1], score: 0.0f32.to_bits() },
    ];
    let resp = query_vectors(&reg, &s("t"), &s("c"), &q, &hits).unwrap();
    assert_eq!(resp.matches.len(), 1);
    assert_eq!(resp.matches[0].id, "a");
    assert_eq!(f32::from_bits(resp.matches[0].score), 1.0);
    assert!(matches!(query_vectors(&reg, &s("t"), &s("x"), &q, &hits), Err(ApiError::NotFound)));
    let zero = QueryRequest { vector: bits(&[0.0, 0.0]), top_k: 3 };
    assert!(matches!(query_vectors(&reg, &s("t"), &s("c"), &zero, &hits), Err(ApiError::InvalidInput(IndexError::DegenerateVector))));
}

#[test]
fn top_k_zero_gives_empty_result() {
    let mut reg = Registry::new();
    create(&mut reg, "t", "c", 2);
    upsert_vectors(&mut reg, &s("t"), &s("c"), UpsertRequest { vectors: vec![vector("a", &[1.0, 0.0])] });
    let q = QueryRequest { vector: bits(&[0.5, 0.5]), top_k: 0 };
    assert_eq!(plan_query_vectors(&reg, &s("t"), &s("c"), &q), Ok(None));
    let hits = vec![Hit { internal_id: 0, score: 1.0f32.to_bits() }];
    assert!(query_vectors(&reg, &s("t"), &s("c"), &q, &hits).unwrap().matches.is_empty());
}

#[test]
fn logged_records_replay_to_the_same_state() {
    let mut reg = Registry::new();
    let mut log: Vec<WalEntry> = Vec::new();
    log.extend(create_collection(&mut reg, &s("t"), CreateCollectionRequest { name: s("c"), dimension: 2 }).log);
    log.extend(
        upsert_vectors(
            &mut reg,
            &s("t"),
            &s("c"),
            UpsertRequest { vectors: vec![vector("a", &[1.0, 0.0]), vector("b", &[0.0, 1.0]), vector("a", &[2.0, 2.0])] },
        )
        .log,
    );
    log.extend(delete_vector(&mut reg, &s("t"), &s("c"), &s("b")).log);
    log.extend(create_collection(&mut reg, &s("u"), CreateCollectionRequest { name: s("d"), dimension: 1 }).log);
    log.extend(delete_collection(&mut reg, &s("u"), &s("d")).log);
    assert_eq!(log.len(), 7);
    let mut rebuilt = Registry::new();
    replay_wal(&mut rebuilt, &log);
    assert_eq!(contents(&rebuilt), contents(&reg));
    assert_eq!(contents(&reg), vec![(s("t"), s("c"), 2, vec![(s("a"), bits(&[2.0, 2.0]))])]);
}
