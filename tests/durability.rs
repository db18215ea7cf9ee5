use openvdb::index::{ExportedVector, IndexError};
use openvdb::registry::Registry;
use openvdb::snapshot::{
    load_collections_from_snapshot, load_index, snapshot_state, Snapshot, SnapshotCollection, SnapshotError,
};
use openvdb::wal::{apply_entry, load_collections_from_wal, replay_wal, WalEntry};
use serde_json::Value;

fn bits(xs: &[f32]) -> Vec<u32> {
    xs.iter().map(|x| x.to_bits()).collect()
}

fn s(text: &str) -> String {
    text.to_string()
}

fn create(tenant: &str, name: &str, dimension: usize) -> WalEntry {
    WalEntry::CreateCollection { tenant: s(tenant), name: s(name), dimension }
}

fn upsert(tenant: &str, collection: &str, id: &str, xs: &[f32]) -> WalEntry {
    WalEntry::UpsertVector {
        tenant: s(tenant),
        collection: s(collection),
        id: s(id),
        values: bits(xs),
        metadata: Some(Value::String(format!("meta of {}", id))),
    }
}

fn delete(tenant: &str, collection: &str, id: &str) -> WalEntry {
    WalEntry::DeleteVector { tenant: s(tenant), collection: s(collection), id: s(id) }
}

fn contents(reg: &Registry) -> Vec<(String, String, usize, Vec<(String, Vec<u32>, Option<Value>)>)> {
    snapshot_state(reg)
        .collections
        .into_iter()
        .map(|c| {
            let vs = c.vectors.into_iter().map(|v| (v.id, v.values, v.metadata)).collect();
            (c.tenant, c.name, c.dimension, vs)
        })
        .collect()
}

fn scenario() -> Vec<WalEntry> {
    vec![
        create("t", "c", 3),
        upsert("t", "c", "a", &[1.0, 0.0, 0.0]),
        upsert("t", "c", "b", &[0.0, 1.0, 0.0]),
        delete("t", "c", "a"),
    ]
}

#[test]
fn wal_replay_from_empty_state() {
    let reg = load_collections_from_wal(&scenario());
    let got = contents(&reg);
    assert_eq!(got.len(), 1);
    assert_eq!(got[0].0, "t");
    assert_eq!(got[0].1, "c");
    assert_eq!(got[0].2, 3);
    assert_eq!(got[0].3.len(), 1);
    assert_eq!(got[0].3[0].0, "b");
    assert_eq!(got[0].3[0].1, bits(&[0.0, 1.0, 0.0]));
}

#[test]
fn snapshot_then_wal_tail_matches_full_replay() {
    let full = load_collections_from_wal(&scenario());
    for cut in 0..=4 {
        let mut entries = scenario();
        let tail = entries.split_off(cut);
        let before = load_collections_from_wal(&entries);
        let snap = snapshot_state(&before);
        let mut restored = match load_collections_from_snapshot(&snap) {
            Ok(reg) => reg,
            Err(e) => panic!("snapshot did not load: {:?}", e),
        };
        replay_wal(&mut restored, &tail);
        assert_eq!(contents(&restored), contents(&full));
    }
}

#[test]
fn replay_creates_missing_collection_from_vector_length() {
    let reg = load_collections_from_wal(&vec![upsert("t", "auto", "a", &[1.0, 2.0])]);
    let got = contents(&reg);
    assert_eq!(got.len(), 1);
    assert_eq!(got[0].2, 2);
    assert_eq!(got[0].3.len(), 1);
}

#[test]
fn replay_is_tolerant_of_repeats_and_absent_targets() {
    let mut reg = Registry::new();
    apply_entry(&mut reg, &create("t", "c", 2));
    apply_entry(&mut reg, &create("t", "c", 5));
    apply_entry(&mut reg, &delete("t", "c", "nothing"));
    apply_entry(&mut reg, &delete("t", "other", "x"));
    apply_entry(&mut reg, &WalEntry::DeleteCollection { tenant: s("t"), name: s("other") });
    apply_entry(&mut reg, &upsert("t", "c", "bad", &[1.0, 2.0, 3.0]));
    apply_entry(&mut reg, &upsert("t", "c", "zero", &[0.0, 0.0]));
    apply_entry(&mut reg, &create("t", "z", 0));
    let got = contents(&reg);
    assert_eq!(got.len(), 1);
    assert_eq!(got[0].2, 2);
    assert!(got[0].3.is_empty());
    apply_entry(&mut reg, &WalEntry::DeleteCollection { tenant: s("t"), name: s("c") });
    assert_eq!(reg.len(), 0);
}

#[test]
fn snapshot_round_trip_keeps_contents_and_order() {
    let reg = load_collections_from_wal(&vec![
        create("t", "c", 2),
        upsert("t", "c", "x", &[1.0, 0.0]),
        upsert("t", "c", "y", &[0.0, 1.0]),
        upsert("t", "c", "z", &[1.0, 1.0]),
        delete("t", "c", "y"),
        upsert("t", "c", "x", &[3.0, 3.0]),
        create("u", "d", 1),
    ]);
    let restored = match load_collections_from_snapshot(&snapshot_state(&reg)) {
        Ok(r) => r,
        Err(e) => panic!("snapshot did not load: {:?}", e),
    };
    assert_eq!(contents(&restored), contents(&reg));
    let ids: Vec<String> = contents(&reg)[0].3.iter().map(|v| v.0.clone()).collect();
    assert_eq!(ids, vec![s("x"), s("z")]);
}

fn exported(id: &str, xs: &[f32]) -> ExportedVector {
    ExportedVector { id: s(id), values: bits(xs), metadata: None }
}

#[test]
fn malformed_snapshots_are_refused_whole() {
    let zero_dim = Snapshot {
        collections: vec![SnapshotCollection { tenant: s("t"), name: s("c"), dimension: 0, vectors: vec![] }],
    };
    assert!(matches!(load_collections_from_snapshot(&zero_dim), Err(SnapshotError::InvalidDimension)));
    let duplicate = Snapshot {
        collections: vec![
            SnapshotCollection { tenant: s("t"), name: s("c"), dimension: 1, vectors: vec![] },
            SnapshotCollection { tenant: s("t"), name: s("c"), dimension: 1, vectors: vec![] },
        ],
    };
    assert!(matches!(load_collections_from_snapshot(&duplicate), Err(SnapshotError::DuplicateCollection)));
    let bad_vector = Snapshot {
        collections: vec![SnapshotCollection {
            tenant: s("t"),
            name: s("c"),
            dimension: 2,
            vectors: vec![exported("a", &[1.0, 0.0]), exported("b", &[1.0])],
        }],
    };
    assert!(matches!(
        load_collections_from_snapshot(&bad_vector),
        Err(SnapshotError::InvalidVector(IndexError::DimensionMismatch { expected: 2, found: 1 }))
    ));
}

#[test]
fn load_index_upserts_in_order() {
    let idx = load_index(2, &vec![exported("a", &[1.0, 0.0]), exported("a", &[0.0, 1.0])]).unwrap();
    assert_eq!(idx.vector_count(), 1);
    assert_eq!(idx.export_vectors()[0].values, bits(&[0.0, 1.0]));
    assert!(matches!(load_index(0, &vec![]), Err(IndexError::InvalidDimension)));
    assert!(matches!(load_index(2, &vec![exported("z", &[0.0, 0.0])]), Err(IndexError::DegenerateVector)));
}
