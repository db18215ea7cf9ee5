//! Point-in-time copies of the whole registry, and rebuilding a registry
//! from one. A snapshot loads whole or not at all.
use vstd::prelude::*;
use crate::index::{ExportedVector, IndexError, IndexModel, InMemoryIndex, VectorModel};
use crate::index::copy_values;
use crate::metadata::copy_metadata;
use crate::registry::{CollectionModel, Registry, RegistryModel};

verus! {

/// One collection in a snapshot.
#[derive(Debug)]
pub struct SnapshotCollection {
    pub tenant: String,
    pub name: String,
    pub dimension: usize,
    pub vectors: Vec<ExportedVector>,
}

/// Every collection of every tenant, with its live vectors.
#[derive(Debug)]
pub struct Snapshot {
    pub collections: Vec<SnapshotCollection>,
}

pub struct CollectionSnapshotModel {
    pub tenant: Seq<char>,
    pub name: Seq<char>,
    pub dimension: nat,
    pub vectors: Seq<VectorModel>,
}

impl SnapshotCollection {
    pub open spec fn model(&self) -> CollectionSnapshotModel {
        CollectionSnapshotModel {
            tenant: self.tenant@,
            name: self.name@,
            dimension: self.dimension as nat,
            vectors: self.vectors@.map_values(|e: ExportedVector| e.model()),
        }
    }
}

impl Snapshot {
    pub open spec fn model(&self) -> Seq<CollectionSnapshotModel> {
        self.collections@.map_values(|c: SnapshotCollection| c.model())
    }
}

/// Why a snapshot could not be loaded.
#[derive(Clone, Copy, Debug, PartialEq, Eq, Structural)]
pub enum SnapshotError {
    /// Two collections of one tenant share a name.
    DuplicateCollection,
    /// A collection has dimension zero.
    InvalidDimension,
    /// A vector would not upsert into its collection.
    InvalidVector(IndexError),
}

pub open spec fn snapshot_of_collection(c: CollectionModel) -> CollectionSnapshotModel {
    CollectionSnapshotModel {
        tenant: c.tenant,
        name: c.name,
        dimension: c.index.dimension,
        vectors: c.index.exported(),
    }
}

/// What a snapshot of the registry holds.
pub open spec fn snapshot_of(m: RegistryModel) -> Seq<CollectionSnapshotModel> {
    m.collections.map_values(|c: CollectionModel| snapshot_of_collection(c))
}

/// The vectors upserted in order onto `m`; the first refusal is the result.
pub open spec fn load_vectors(m: IndexModel, vectors: Seq<VectorModel>) -> Result<IndexModel, IndexError>
    decreases vectors.len(),
{
    if vectors.len() == 0 {
        Ok(m)
    } else {
        match load_vectors(m, vectors.drop_last()) {
            Ok(m1) => m1.upsert(vectors.last().id, vectors.last().values, vectors.last().metadata),
            Err(e) => Err(e),
        }
    }
}

/// The collections added in order onto `m`; the first fault is the result.
pub open spec fn load(m: RegistryModel, cs: Seq<CollectionSnapshotModel>) -> Result<RegistryModel, SnapshotError>
    decreases cs.len(),
{
    if cs.len() == 0 {
        Ok(m)
    } else {
        match load(m, cs.drop_last()) {
            Err(e) => Err(e),
            Ok(m1) => {
                let c = cs.last();
                if c.dimension == 0 {
                    Err(SnapshotError::InvalidDimension)
                } else if m1.has(c.tenant, c.name) {
                    Err(SnapshotError::DuplicateCollection)
                } else {
                    match load_vectors(IndexModel::empty(c.dimension), c.vectors) {
                        Err(e) => Err(SnapshotError::InvalidVector(e)),
                        Ok(index) => Ok(RegistryModel {
                            collections: m1.collections.push(CollectionModel {
                                tenant: c.tenant, name: c.name, index,
                            }),
                        }),
                    }
                }
            },
        }
    }
}

/// The snapshot of the registry's present state.
pub fn snapshot_state(collections: &Registry) -> (r: Snapshot)
    requires
        collections.wf(),
    ensures
        r.model() == snapshot_of(collections@),
{
    Snapshot { collections: collections.export() }
}

/// An index of the given dimension holding the vectors, upserted in order.
pub fn load_index(dimension: usize, vectors: &Vec<ExportedVector>) -> (r: Result<InMemoryIndex, IndexError>)
    ensures
        dimension == 0 ==> r == Err::<InMemoryIndex, IndexError>(IndexError::InvalidDimension),
        dimension > 0 ==> match load_vectors(IndexModel::empty(dimension as nat), vectors@.map_values(|e: ExportedVector| e.model())) {
            Ok(m) => r matches Ok(idx) && idx@ == m && idx.wf(),
            Err(e) => r == Err::<InMemoryIndex, IndexError>(e),
        },
{
    let mut index = match InMemoryIndex::new(dimension) {
        Ok(index) => index,
        Err(e) => return Err(e),
    };
    let ghost vs = vectors@.map_values(|e: ExportedVector| e.model());
    let mut i: usize = 0;
    while i < vectors.len()
        invariant
            dimension > 0,
            index.wf(),
            i <= vectors@.len(),
            vs == vectors@.map_values(|e: ExportedVector| e.model()),
            load_vectors(IndexModel::empty(dimension as nat), vs.take(i as int)) == Ok::<IndexModel, IndexError>(index@),
        decreases vectors@.len() - i,
    {
        proof {
            assert(vs.take(i + 1).drop_last() =~= vs.take(i as int));
            assert(vs.take(i + 1).last() == vectors@[i as int].model());
        }
        let v = &vectors[i];
        match index.upsert(v.id.clone(), copy_values(&v.values), copy_metadata(&v.metadata)) {
            Ok(_) => {},
            Err(e) => {
                proof {
                    lemma_load_vectors_err_sticks(IndexModel::empty(dimension as nat), vs, i as int + 1, e);
                    assert(vs.take(vs.len() as int) =~= vs);
                }
                return Err(e);
            },
        }
        i = i + 1;
    }
    assert(vs.take(vs.len() as int) =~= vs);
    Ok(index)
}

/// A failure while loading a prefix is the failure of the whole.
proof fn lemma_load_vectors_err_sticks(m: IndexModel, vs: Seq<VectorModel>, k: int, e: IndexError)
    requires
        0 <= k <= vs.len(),
        load_vectors(m, vs.take(k)) == Err::<IndexModel, IndexError>(e),
    ensures
        load_vectors(m, vs) == Err::<IndexModel, IndexError>(e),
    decreases vs.len() - k,
{
    if k < vs.len() {
        assert(vs.take(k + 1).drop_last() =~= vs.take(k));
        lemma_load_vectors_err_sticks(m, vs, k + 1, e);
    } else {
        assert(vs.take(k) =~= vs);
    }
}

/// A failure while loading a prefix is the failure of the whole.
proof fn lemma_load_err_sticks(m: RegistryModel, cs: Seq<CollectionSnapshotModel>, k: int, e: SnapshotError)
    requires
        0 <= k <= cs.len(),
        load(m, cs.take(k)) == Err::<RegistryModel, SnapshotError>(e),
    ensures
        load(m, cs) == Err::<RegistryModel, SnapshotError>(e),
    decreases cs.len() - k,
{
    if k < cs.len() {
        assert(cs.take(k + 1).drop_last() =~= cs.take(k));
        lemma_load_err_sticks(m, cs, k + 1, e);
    } else {
        assert(cs.take(k) =~= cs);
    }
}

/// The registry that a snapshot describes, or the first fault found in it.
pub fn load_collections_from_snapshot(snapshot: &Snapshot) -> (r: Result<Registry, SnapshotError>)
    ensures
        match load(RegistryModel::empty(), snapshot.model()) {
            Ok(m) => r matches Ok(reg) && reg@ == m && reg.wf(),
            Err(e) => r matches Err(e2) && e2 == e,
        },
{
    let mut reg = Registry::new();
    let ghost cs = snapshot.model();
    let mut i: usize = 0;
    while i < snapshot.collections.len()
        invariant
            reg.wf(),
            i <= snapshot.collections@.len(),
            cs == snapshot.model(),
            load(RegistryModel::empty(), cs.take(i as int)) == Ok::<RegistryModel, SnapshotError>(reg@),
        decreases snapshot.collections@.len() - i,
    {
        proof {
            assert(cs.take(i + 1).drop_last() =~= cs.take(i as int));
            assert(cs.take(i + 1).last() == snapshot.collections@[i as int].model());
        }
        let c = &snapshot.collections[i];
        let failure = if c.dimension == 0 {
            Some(SnapshotError::InvalidDimension)
        } else if reg.contains(&c.tenant, &c.name) {
            Some(SnapshotError::DuplicateCollection)
        } else {
            match load_index(c.dimension, &c.vectors) {
                Err(e) => Some(SnapshotError::InvalidVector(e)),
                Ok(index) => {
                    reg.push_index(c.tenant.clone(), c.name.clone(), index);
                    None
                },
            }
        };
        match failure {
            Some(e) => {
                proof {
                    lemma_load_err_sticks(RegistryModel::empty(), cs, i as int + 1, e);
                }
                return Err(e);
            },
            None => {},
        }
        i = i + 1;
    }
    assert(cs.take(cs.len() as int) =~= cs);
    Ok(reg)
}

} // verus!
