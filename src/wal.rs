//! Write-ahead log records and their replay. Records are applied strictly in
//! log order; each is applied in a way that makes replaying it harmless.
use vstd::prelude::*;
use serde_json::Value;
use crate::index::copy_values;
use crate::metadata::copy_metadata;
use crate::registry::{Registry, RegistryModel};

verus! {

/// One logged mutation, with what is needed to replay it.
#[derive(Debug)]
pub enum WalEntry {
    CreateCollection { tenant: String, name: String, dimension: usize },
    DeleteCollection { tenant: String, name: String },
    UpsertVector {
        tenant: String,
        collection: String,
        id: String,
        values: Vec<u32>,
        metadata: Option<Value>,
    },
    DeleteVector { tenant: String, collection: String, id: String },
}

pub enum EntryModel {
    CreateCollection { tenant: Seq<char>, name: Seq<char>, dimension: nat },
    DeleteCollection { tenant: Seq<char>, name: Seq<char> },
    UpsertVector {
        tenant: Seq<char>,
        collection: Seq<char>,
        id: Seq<char>,
        values: Seq<u32>,
        metadata: Option<Value>,
    },
    DeleteVector { tenant: Seq<char>, collection: Seq<char>, id: Seq<char> },
}

impl WalEntry {
    pub open spec fn model(&self) -> EntryModel {
        match self {
            WalEntry::CreateCollection { tenant, name, dimension } =>
                EntryModel::CreateCollection { tenant: tenant@, name: name@, dimension: *dimension as nat },
            WalEntry::DeleteCollection { tenant, name } =>
                EntryModel::DeleteCollection { tenant: tenant@, name: name@ },
            WalEntry::UpsertVector { tenant, collection, id, values, metadata } =>
                EntryModel::UpsertVector {
                    tenant: tenant@,
                    collection: collection@,
                    id: id@,
                    values: values@,
                    metadata: *metadata,
                },
            WalEntry::DeleteVector { tenant, collection, id } =>
                EntryModel::DeleteVector { tenant: tenant@, collection: collection@, id: id@ },
        }
    }
}

/// Creates the collection unless it exists or the dimension is zero.
pub open spec fn ensure_collection(m: RegistryModel, tenant: Seq<char>, name: Seq<char>, dimension: nat) -> RegistryModel {
    match m.create(tenant, name, dimension) {
        Ok(r) => r,
        Err(_) => m,
    }
}

/// The effect of replaying one record:
/// a create makes the collection only if it is absent; a collection delete
/// drops it if present; an upsert first makes a missing collection with the
/// vector's own dimension, then upserts, a refused upsert changing nothing;
/// a vector delete drops the vector if it is there.
pub open spec fn apply(m: RegistryModel, e: EntryModel) -> RegistryModel {
    match e {
        EntryModel::CreateCollection { tenant, name, dimension } => ensure_collection(m, tenant, name, dimension),
        EntryModel::DeleteCollection { tenant, name } => m.remove(tenant, name),
        EntryModel::UpsertVector { tenant, collection, id, values, metadata } =>
            ensure_collection(m, tenant, collection, values.len()).upserted(tenant, collection, id, values, metadata),
        EntryModel::DeleteVector { tenant, collection, id } => m.delete_vector(tenant, collection, id),
    }
}

/// The records replayed in order onto `m`.
pub open spec fn replay(m: RegistryModel, entries: Seq<EntryModel>) -> RegistryModel
    decreases entries.len(),
{
    if entries.len() == 0 {
        m
    } else {
        apply(replay(m, entries.drop_last()), entries.last())
    }
}

pub open spec fn models(entries: Seq<WalEntry>) -> Seq<EntryModel> {
    entries.map_values(|e: WalEntry| e.model())
}

/// Replaying one more record applies it to what the others replayed to.
pub proof fn lemma_replay_push(m: RegistryModel, entries: Seq<EntryModel>, e: EntryModel)
    ensures
        replay(m, entries.push(e)) == apply(replay(m, entries), e),
{
    assert(entries.push(e).drop_last() =~= entries);
}

/// The models of a log with one more record.
pub proof fn lemma_models_push(entries: Seq<WalEntry>, e: WalEntry)
    ensures
        models(entries.push(e)) == models(entries).push(e.model()),
{
    assert(models(entries.push(e)) =~= models(entries).push(e.model()));
}

/// Applies one record to the registry.
pub fn apply_entry(reg: &mut Registry, entry: &WalEntry)
    requires
        old(reg).wf(),
    ensures
        final(reg).wf(),
        final(reg)@ == apply(old(reg)@, entry.model()),
{
    match entry {
        WalEntry::CreateCollection { tenant, name, dimension } => {
            let _ = reg.create(tenant, name, *dimension);
        },
        WalEntry::DeleteCollection { tenant, name } => {
            reg.remove(tenant, name);
        },
        WalEntry::UpsertVector { tenant, collection, id, values, metadata } => {
            let _ = reg.create(tenant, collection, values.len());
            let _ = reg.upsert(tenant, collection, id.clone(), copy_values(values), copy_metadata(metadata));
        },
        WalEntry::DeleteVector { tenant, collection, id } => {
            let _ = reg.delete_vector(tenant, collection, id);
        },
    }
}

/// Replays the log's records, in order, onto the registry.
pub fn replay_wal(collections: &mut Registry, entries: &Vec<WalEntry>)
    requires
        old(collections).wf(),
    ensures
        final(collections).wf(),
        final(collections)@ == replay(old(collections)@, models(entries@)),
{
    let ghost start = collections@;
    let mut i: usize = 0;
    while i < entries.len()
        invariant
            collections.wf(),
            i <= entries@.len(),
            collections@ == replay(start, models(entries@.take(i as int))),
        decreases entries@.len() - i,
    {
        proof {
            let next = entries@.take(i + 1);
            assert(next.drop_last() =~= entries@.take(i as int));
            assert(models(next).drop_last() =~= models(entries@.take(i as int)));
            assert(models(next).last() == entries@[i as int].model());
        }
        apply_entry(collections, &entries[i]);
        i = i + 1;
    }
    assert(entries@.take(entries@.len() as int) =~= entries@);
}

/// The registry that the log alone rebuilds.
pub fn load_collections_from_wal(entries: &Vec<WalEntry>) -> (r: Registry)
    ensures
        r.wf(),
        r@ == replay(RegistryModel::empty(), models(entries@)),
{
    let mut reg = Registry::new();
    replay_wal(&mut reg, entries);
    reg
}

} // verus!
