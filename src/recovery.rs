//! Properties of recovery: a snapshot rebuilds what it was taken of, and a
//! snapshot followed by the log written after it rebuilds what replaying that
//! log onto the snapshotted state gives.
//!
//! Rebuilt indexes hand out internal ids afresh, so states are compared by
//! their snapshots: collections, dimensions, and each live vector's id,
//! values and metadata, in order.
use vstd::prelude::*;
use serde_json::Value;
use crate::index::IndexModel;
use crate::laws::{lemma_delete_wf, lemma_export_round_trip, lemma_upsert_wf};
use crate::registry::{lemma_with_index_keeps_keys, CollectionModel, RegistryModel};
use crate::snapshot::{load, load_vectors, snapshot_of, snapshot_of_collection, CollectionSnapshotModel};
use crate::wal::{apply, ensure_collection, replay, EntryModel};

verus! {

/// No index of the registry has handed out more than `bound` internal ids.
pub open spec fn counters_at_most(m: RegistryModel, bound: nat) -> bool {
    forall|i: int| 0 <= i < m.collections.len() ==> (#[trigger] m.collections[i]).index.next_internal_id <= bound
}

/// Same dimension and same live contents, in the same order.
pub open spec fn same_content(a: IndexModel, b: IndexModel) -> bool {
    a.dimension == b.dimension && a.exported() == b.exported()
}

proof fn lemma_same_content_records(a: IndexModel, b: IndexModel)
    requires
        same_content(a, b),
    ensures
        a.records.len() == b.records.len(),
        forall|i: int| 0 <= i < a.records.len() ==> (#[trigger] a.records[i]).content() == b.records[i].content(),
{
    assert(a.exported().len() == b.exported().len());
    assert forall|i: int| 0 <= i < a.records.len() implies (#[trigger] a.records[i]).content() == b.records[i].content() by {
        assert(a.exported()[i] == b.exported()[i]);
    }
}

proof fn lemma_same_content_slot(a: IndexModel, b: IndexModel, id: Seq<char>)
    requires
        a.wf(),
        b.wf(),
        same_content(a, b),
    ensures
        a.has_id(id) == b.has_id(id),
        a.has_id(id) ==> a.slot(id) == b.slot(id),
{
    lemma_same_content_records(a, b);
    if a.has_id(id) {
        let i = a.slot(id);
        assert(a.records[i].content() == b.records[i].content());
        assert(b.records[i].id == id);
        let j = b.slot(id);
        assert(b.records[j].id == id);
        assert(a.records[j].content() == b.records[j].content());
    }
    if b.has_id(id) {
        let j = b.slot(id);
        assert(a.records[j].content() == b.records[j].content());
        assert(a.records[j].id == id);
    }
}

proof fn lemma_upsert_same(a: IndexModel, b: IndexModel, id: Seq<char>, values: Seq<u32>, metadata: Option<Value>)
    requires
        a.wf(),
        b.wf(),
        same_content(a, b),
        a.next_internal_id < usize::MAX,
        b.next_internal_id < usize::MAX,
    ensures
        same_content(a.upserted(id, values, metadata), b.upserted(id, values, metadata)),
{
    lemma_same_content_records(a, b);
    lemma_same_content_slot(a, b, id);
    let a2 = a.upserted(id, values, metadata);
    let b2 = b.upserted(id, values, metadata);
    assert(a2.records.len() == b2.records.len());
    assert forall|i: int| 0 <= i < a2.records.len() implies (#[trigger] a2.records[i]).content() == b2.records[i].content() by {
        if i < a.records.len() {
            assert(a.records[i].content() == b.records[i].content());
        }
    }
    assert(a2.exported() =~= b2.exported());
}

proof fn lemma_delete_same(a: IndexModel, b: IndexModel, id: Seq<char>)
    requires
        a.wf(),
        b.wf(),
        same_content(a, b),
    ensures
        same_content(a.delete(id), b.delete(id)),
{
    lemma_same_content_records(a, b);
    lemma_same_content_slot(a, b, id);
    let a2 = a.delete(id);
    let b2 = b.delete(id);
    if a.has_id(id) {
        let s = a.slot(id);
        assert forall|i: int| 0 <= i < a2.records.len() implies (#[trigger] a2.records[i]).content() == b2.records[i].content() by {
            let i0 = if i < s { i } else { i + 1 };
            assert(a.records[i0].content() == b.records[i0].content());
        }
    }
    assert(a2.exported() =~= b2.exported());
}

/// Two registries with one snapshot agree collection by collection.
proof fn lemma_same_snapshot_facts(a: RegistryModel, b: RegistryModel)
    requires
        snapshot_of(a) == snapshot_of(b),
    ensures
        a.collections.len() == b.collections.len(),
        forall|i: int| 0 <= i < a.collections.len() ==> {
            &&& (#[trigger] a.collections[i]).tenant == b.collections[i].tenant
            &&& a.collections[i].name == b.collections[i].name
            &&& same_content(a.collections[i].index, b.collections[i].index)
        },
{
    assert(snapshot_of(a).len() == a.collections.len());
    assert(snapshot_of(b).len() == b.collections.len());
    assert forall|i: int| 0 <= i < a.collections.len() implies {
        &&& (#[trigger] a.collections[i]).tenant == b.collections[i].tenant
        &&& a.collections[i].name == b.collections[i].name
        &&& same_content(a.collections[i].index, b.collections[i].index)
    } by {
        let sa = snapshot_of_collection(a.collections[i]);
        let sb = snapshot_of_collection(b.collections[i]);
        assert(snapshot_of(a)[i] == sa);
        assert(snapshot_of(b)[i] == sb);
        assert(sa == sb);
        assert(sa.tenant == sb.tenant && sa.name == sb.name && sa.dimension == sb.dimension && sa.vectors == sb.vectors);
    }
}

/// Collection by collection agreement gives one snapshot.
proof fn lemma_same_snapshot_from_facts(a: RegistryModel, b: RegistryModel)
    requires
        a.collections.len() == b.collections.len(),
        forall|i: int| 0 <= i < a.collections.len() ==> {
            &&& (#[trigger] a.collections[i]).tenant == b.collections[i].tenant
            &&& a.collections[i].name == b.collections[i].name
            &&& same_content(a.collections[i].index, b.collections[i].index)
        },
    ensures
        snapshot_of(a) == snapshot_of(b),
{
    assert forall|i: int| 0 <= i < a.collections.len() implies snapshot_of(a)[i] == snapshot_of(b)[i] by {
        assert(a.collections[i].tenant == b.collections[i].tenant);
    }
    assert(snapshot_of(a) =~= snapshot_of(b));
}

proof fn lemma_same_keys(a: RegistryModel, b: RegistryModel, tenant: Seq<char>, name: Seq<char>)
    requires
        a.wf(),
        b.wf(),
        snapshot_of(a) == snapshot_of(b),
    ensures
        a.has(tenant, name) == b.has(tenant, name),
        a.has(tenant, name) ==> a.slot(tenant, name) == b.slot(tenant, name),
{
    lemma_same_snapshot_facts(a, b);
    if a.has(tenant, name) {
        let i = a.slot(tenant, name);
        assert(RegistryModel::is_key(a.collections[i], tenant, name));
        assert(RegistryModel::is_key(b.collections[i], tenant, name));
        let j = b.slot(tenant, name);
        assert(RegistryModel::is_key(b.collections[j], tenant, name));
        assert(RegistryModel::is_key(a.collections[j], tenant, name));
    }
    if b.has(tenant, name) {
        let j = b.slot(tenant, name);
        assert(RegistryModel::is_key(b.collections[j], tenant, name));
        assert(RegistryModel::is_key(a.collections[j], tenant, name));
    }
}

proof fn lemma_remove_wf(m: RegistryModel, tenant: Seq<char>, name: Seq<char>)
    requires
        m.wf(),
    ensures
        m.remove(tenant, name).wf(),
{
    if m.has(tenant, name) {
        let s = m.slot(tenant, name);
        let m2 = m.remove(tenant, name);
        assert forall|a: int| 0 <= a < m2.collections.len() implies (#[trigger] m2.collections[a]).index.wf() by {
            let a0 = if a < s { a } else { a + 1 };
            assert(m2.collections[a] == m.collections[a0]);
        }
        assert forall|a: int, b: int|
            0 <= a < m2.collections.len() && 0 <= b < m2.collections.len() && a != b
            implies !RegistryModel::is_key(#[trigger] m2.collections[a], (#[trigger] m2.collections[b]).tenant, m2.collections[b].name) by {
            let a0 = if a < s { a } else { a + 1 };
            let b0 = if b < s { b } else { b + 1 };
            assert(m2.collections[a] == m.collections[a0]);
            assert(m2.collections[b] == m.collections[b0]);
        }
    }
}

/// Replaying a record keeps the registry well formed and hands out at most
/// one more internal id per index.
proof fn lemma_apply_wf(m: RegistryModel, e: EntryModel, bound: nat)
    requires
        m.wf(),
        counters_at_most(m, bound),
    ensures
        apply(m, e).wf(),
        counters_at_most(apply(m, e), bound + 1),
{
    match e {
        EntryModel::CreateCollection { tenant, name, dimension } => {},
        EntryModel::DeleteCollection { tenant, name } => {
            lemma_remove_wf(m, tenant, name);
            if m.has(tenant, name) {
                let s = m.slot(tenant, name);
                let m2 = m.remove(tenant, name);
                assert forall|a: int| 0 <= a < m2.collections.len() implies (#[trigger] m2.collections[a]).index.next_internal_id <= bound + 1 by {
                    let a0 = if a < s { a } else { a + 1 };
                    assert(m2.collections[a] == m.collections[a0]);
                }
            }
        },
        EntryModel::UpsertVector { tenant, collection, id, values, metadata } => {
            let m1 = ensure_collection(m, tenant, collection, values.len());
            assert(m1.wf());
            assert(counters_at_most(m1, bound));
            if m1.upsert(tenant, collection, id, values, metadata) is Ok {
                let idx = m1.index_of(tenant, collection);
                assert(m1.collections[m1.slot(tenant, collection)].index.wf());
                lemma_upsert_wf(idx, id, values, metadata);
                lemma_with_index_keeps_keys(m1, tenant, collection, idx.upserted(id, values, metadata));
            }
        },
        EntryModel::DeleteVector { tenant, collection, id } => {
            if m.has(tenant, collection) {
                let idx = m.index_of(tenant, collection);
                assert(m.collections[m.slot(tenant, collection)].index.wf());
                lemma_delete_wf(idx, id);
                lemma_with_index_keeps_keys(m, tenant, collection, idx.delete(id));
            }
        },
    }
}

/// Replaying one record onto two registries with one snapshot gives two
/// registries with one snapshot, provided no index runs out of internal ids.
proof fn lemma_apply_same(a: RegistryModel, b: RegistryModel, e: EntryModel, bound: nat)
    requires
        a.wf(),
        b.wf(),
        snapshot_of(a) == snapshot_of(b),
        counters_at_most(a, bound),
        counters_at_most(b, bound),
        bound < usize::MAX,
    ensures
        snapshot_of(apply(a, e)) == snapshot_of(apply(b, e)),
{
    lemma_same_snapshot_facts(a, b);
    match e {
        EntryModel::CreateCollection { tenant, name, dimension } => {
            lemma_same_keys(a, b, tenant, name);
            let a2 = apply(a, e);
            let b2 = apply(b, e);
            lemma_same_snapshot_from_facts(a2, b2);
        },
        EntryModel::DeleteCollection { tenant, name } => {
            lemma_same_keys(a, b, tenant, name);
            let a2 = apply(a, e);
            let b2 = apply(b, e);
            if a.has(tenant, name) {
                let s = a.slot(tenant, name);
                assert forall|i: int| 0 <= i < a2.collections.len() implies {
                    &&& (#[trigger] a2.collections[i]).tenant == b2.collections[i].tenant
                    &&& a2.collections[i].name == b2.collections[i].name
                    &&& same_content(a2.collections[i].index, b2.collections[i].index)
                } by {
                    let i0 = if i < s { i } else { i + 1 };
                    assert(a2.collections[i] == a.collections[i0]);
                    assert(b2.collections[i] == b.collections[i0]);
                }
            }
            lemma_same_snapshot_from_facts(a2, b2);
        },
        EntryModel::UpsertVector { tenant, collection, id, values, metadata } => {
            lemma_same_keys(a, b, tenant, collection);
            let a1 = ensure_collection(a, tenant, collection, values.len());
            let b1 = ensure_collection(b, tenant, collection, values.len());
            lemma_same_snapshot_from_facts(a1, b1);
            assert(a1.wf());
            assert(b1.wf());
            lemma_same_snapshot_facts(a1, b1);
            lemma_same_keys(a1, b1, tenant, collection);
            if a1.has(tenant, collection) {
                let s = a1.slot(tenant, collection);
                let ia = a1.index_of(tenant, collection);
                let ib = b1.index_of(tenant, collection);
                assert(a1.collections[s].index.wf());
                assert(b1.collections[s].index.wf());
                assert(ia.next_internal_id <= bound) by {
                    if s < a.collections.len() {
                        assert(a1.collections[s] == a.collections[s]);
                    }
                }
                assert(ib.next_internal_id <= bound) by {
                    if s < b.collections.len() {
                        assert(b1.collections[s] == b.collections[s]);
                    }
                }
                lemma_upsert_same(ia, ib, id, values, metadata);
                lemma_upsert_wf(ia, id, values, metadata);
                lemma_upsert_wf(ib, id, values, metadata);
                let a2 = apply(a, e);
                let b2 = apply(b, e);
                assert(a1.upsert(tenant, collection, id, values, metadata) is Ok
                    == b1.upsert(tenant, collection, id, values, metadata) is Ok);
                lemma_same_snapshot_from_facts(a2, b2);
            } else {
                lemma_same_snapshot_from_facts(apply(a, e), apply(b, e));
            }
        },
        EntryModel::DeleteVector { tenant, collection, id } => {
            lemma_same_keys(a, b, tenant, collection);
            if a.has(tenant, collection) {
                let s = a.slot(tenant, collection);
                let ia = a.index_of(tenant, collection);
                let ib = b.index_of(tenant, collection);
                assert(a.collections[s].index.wf());
                assert(b.collections[s].index.wf());
                lemma_delete_same(ia, ib, id);
            }
            lemma_same_snapshot_from_facts(apply(a, e), apply(b, e));
        },
    }
}

proof fn lemma_replay_same(a: RegistryModel, b: RegistryModel, tail: Seq<EntryModel>, bound: nat)
    requires
        a.wf(),
        b.wf(),
        snapshot_of(a) == snapshot_of(b),
        counters_at_most(a, bound),
        counters_at_most(b, bound),
        bound + tail.len() <= usize::MAX,
    ensures
        replay(a, tail).wf(),
        replay(b, tail).wf(),
        counters_at_most(replay(a, tail), bound + tail.len()),
        counters_at_most(replay(b, tail), bound + tail.len()),
        snapshot_of(replay(a, tail)) == snapshot_of(replay(b, tail)),
    decreases tail.len(),
{
    if tail.len() > 0 {
        let prefix = tail.drop_last();
        lemma_replay_same(a, b, prefix, bound);
        let bound1 = bound + prefix.len();
        lemma_apply_wf(replay(a, prefix), tail.last(), bound1);
        lemma_apply_wf(replay(b, prefix), tail.last(), bound1);
        lemma_apply_same(replay(a, prefix), replay(b, prefix), tail.last(), bound1);
    }
}

/// Loading a registry's snapshot succeeds and gives back a registry with the
/// same snapshot, whose indexes have handed out no more internal ids.
pub proof fn lemma_snapshot_round_trip(m: RegistryModel)
    requires
        m.wf(),
    ensures
        load(RegistryModel::empty(), snapshot_of(m)) matches Ok(m2) && {
            &&& m2.wf()
            &&& snapshot_of(m2) == snapshot_of(m)
            &&& m2.collections.len() == m.collections.len()
            &&& forall|j: int| 0 <= j < m2.collections.len() ==>
                (#[trigger] m2.collections[j]).index.next_internal_id <= m.collections[j].index.next_internal_id
        },
{
    lemma_snapshot_prefix(m, m.collections.len() as int);
    assert(snapshot_of(m).take(m.collections.len() as int) =~= snapshot_of(m));
    let m2 = load(RegistryModel::empty(), snapshot_of(m)).unwrap();
    lemma_same_snapshot_from_facts(m2, m);
}

proof fn lemma_snapshot_prefix(m: RegistryModel, k: int)
    requires
        m.wf(),
        0 <= k <= m.collections.len(),
    ensures
        load(RegistryModel::empty(), snapshot_of(m).take(k)) matches Ok(m2) && {
            &&& m2.wf()
            &&& m2.collections.len() == k
            &&& forall|j: int| 0 <= j < k ==> {
                &&& (#[trigger] m2.collections[j]).tenant == m.collections[j].tenant
                &&& m2.collections[j].name == m.collections[j].name
                &&& same_content(m2.collections[j].index, m.collections[j].index)
                &&& m2.collections[j].index.next_internal_id <= m.collections[j].index.next_internal_id
            }
        },
    decreases k,
{
    let cs = snapshot_of(m);
    if k == 0 {
        assert(cs.take(0) =~= Seq::<CollectionSnapshotModel>::empty());
    } else {
        lemma_snapshot_prefix(m, k - 1);
        assert(cs.take(k).drop_last() =~= cs.take(k - 1));
        let prev = load(RegistryModel::empty(), cs.take(k - 1)).unwrap();
        let c = cs.take(k).last();
        let mc = m.collections[k - 1];
        assert(c == snapshot_of_collection(mc));
        assert(mc.index.wf());
        assert(!prev.has(c.tenant, c.name)) by {
            if prev.has(c.tenant, c.name) {
                let j = prev.slot(c.tenant, c.name);
                assert(RegistryModel::is_key(prev.collections[j], c.tenant, c.name));
                assert(RegistryModel::is_key(m.collections[j], mc.tenant, mc.name));
            }
        }
        lemma_export_round_trip(mc.index);
        let idx = load_vectors(IndexModel::empty(mc.index.dimension), mc.index.exported()).unwrap();
        let m2 = load(RegistryModel::empty(), cs.take(k)).unwrap();
        assert(m2.collections[k - 1] == (CollectionModel { tenant: mc.tenant, name: mc.name, index: idx }));
        assert forall|j: int| 0 <= j < k - 1 implies #[trigger] m2.collections[j] == prev.collections[j] by {}
        assert(m2.wf()) by {
            assert forall|a: int, b: int|
                0 <= a < m2.collections.len() && 0 <= b < m2.collections.len() && a != b
                implies !RegistryModel::is_key(#[trigger] m2.collections[a], (#[trigger] m2.collections[b]).tenant, m2.collections[b].name) by {
                if a < k - 1 && b < k - 1 {
                    assert(m2.collections[a] == prev.collections[a]);
                    assert(m2.collections[b] == prev.collections[b]);
                } else if a < k - 1 {
                    assert(m2.collections[a] == prev.collections[a]);
                    assert(m.collections[a].tenant == prev.collections[a].tenant);
                } else if b < k - 1 {
                    assert(m2.collections[b] == prev.collections[b]);
                    assert(m.collections[b].tenant == prev.collections[b].tenant);
                }
            }
        }
    }
}

/// Rebuilding from a snapshot of a state and then replaying a log gives the
/// same snapshot as replaying that log onto the state itself, as long as no
/// index runs out of internal ids during the replay.
pub proof fn lemma_snapshot_then_log(m: RegistryModel, tail: Seq<EntryModel>)
    requires
        m.wf(),
        tail.len() <= usize::MAX,
        counters_at_most(m, (usize::MAX - tail.len()) as nat),
    ensures
        load(RegistryModel::empty(), snapshot_of(m)) matches Ok(m2)
            && snapshot_of(replay(m2, tail)) == snapshot_of(replay(m, tail)),
{
    lemma_snapshot_round_trip(m);
    let m2 = load(RegistryModel::empty(), snapshot_of(m)).unwrap();
    let bound = (usize::MAX - tail.len()) as nat;
    assert(counters_at_most(m2, bound)) by {
        assert forall|j: int| 0 <= j < m2.collections.len() implies (#[trigger] m2.collections[j]).index.next_internal_id <= bound by {
            assert(m.collections[j].index.next_internal_id <= bound);
        }
    }
    lemma_replay_same(m2, m, tail, bound);
}

} // verus!
