//! All collections of all tenants. A collection is keyed by the pair
//! (tenant, name); a tenant exists exactly while it owns a collection.
use vstd::prelude::*;
use serde_json::Value;
use crate::index::{IndexError, IndexModel, InMemoryIndex};
use crate::models::CollectionSummary;
use crate::snapshot::{snapshot_of, snapshot_of_collection, SnapshotCollection};

verus! {

/// Why a request on the registry was refused.
#[derive(Clone, Copy, Debug, PartialEq, Eq, Structural)]
pub enum ApiError {
    /// A caller error in the request's values.
    InvalidInput(IndexError),
    /// The tenant has no collection of that name.
    NotFound,
    /// The tenant already has a collection of that name.
    Conflict,
}

#[verifier::ext_equal]
pub struct CollectionModel {
    pub tenant: Seq<char>,
    pub name: Seq<char>,
    pub index: IndexModel,
}

/// The abstract registry: its collections, in storage order.
#[verifier::ext_equal]
pub struct RegistryModel {
    pub collections: Seq<CollectionModel>,
}

impl RegistryModel {
    pub open spec fn empty() -> RegistryModel {
        RegistryModel { collections: Seq::empty() }
    }

    pub open spec fn is_key(c: CollectionModel, tenant: Seq<char>, name: Seq<char>) -> bool {
        c.tenant == tenant && c.name == name
    }

    pub open spec fn has(self, tenant: Seq<char>, name: Seq<char>) -> bool {
        exists|i: int| 0 <= i < self.collections.len() && Self::is_key(#[trigger] self.collections[i], tenant, name)
    }

    /// The slot of the collection (meaningful when `has`).
    pub open spec fn slot(self, tenant: Seq<char>, name: Seq<char>) -> int {
        choose|i: int| 0 <= i < self.collections.len() && Self::is_key(#[trigger] self.collections[i], tenant, name)
    }

    /// The index of the collection (meaningful when `has`).
    pub open spec fn index_of(self, tenant: Seq<char>, name: Seq<char>) -> IndexModel {
        self.collections[self.slot(tenant, name)].index
    }

    /// Every index is well formed and no key occurs twice.
    pub open spec fn wf(self) -> bool {
        &&& forall|i: int| 0 <= i < self.collections.len() ==> (#[trigger] self.collections[i]).index.wf()
        &&& forall|i: int, j: int|
            0 <= i < self.collections.len() && 0 <= j < self.collections.len() && i != j ==>
                !Self::is_key(#[trigger] self.collections[i], (#[trigger] self.collections[j]).tenant, self.collections[j].name)
    }

    /// A new empty collection, unless the dimension is zero or the key is taken.
    pub open spec fn create(self, tenant: Seq<char>, name: Seq<char>, dimension: nat) -> Result<RegistryModel, ApiError> {
        if dimension == 0 {
            Err(ApiError::InvalidInput(IndexError::InvalidDimension))
        } else if self.has(tenant, name) {
            Err(ApiError::Conflict)
        } else {
            Ok(RegistryModel {
                collections: self.collections.push(CollectionModel {
                    tenant, name, index: IndexModel::empty(dimension),
                }),
            })
        }
    }

    /// Drops the collection, if there is one.
    pub open spec fn remove(self, tenant: Seq<char>, name: Seq<char>) -> RegistryModel {
        if self.has(tenant, name) {
            RegistryModel { collections: self.collections.remove(self.slot(tenant, name)) }
        } else {
            self
        }
    }

    /// The registry with the collection's index replaced.
    pub open spec fn with_index(self, tenant: Seq<char>, name: Seq<char>, index: IndexModel) -> RegistryModel {
        let i = self.slot(tenant, name);
        RegistryModel {
            collections: self.collections.update(i, CollectionModel { index, ..self.collections[i] }),
        }
    }

    /// An upsert into the collection.
    pub open spec fn upsert(self, tenant: Seq<char>, name: Seq<char>, id: Seq<char>, values: Seq<u32>, metadata: Option<Value>) -> Result<RegistryModel, ApiError> {
        if !self.has(tenant, name) {
            Err(ApiError::NotFound)
        } else {
            match self.index_of(tenant, name).upsert(id, values, metadata) {
                Ok(m) => Ok(self.with_index(tenant, name, m)),
                Err(e) => Err(ApiError::InvalidInput(e)),
            }
        }
    }

    /// The state after an upsert, whose failure leaves the state as it was.
    pub open spec fn upserted(self, tenant: Seq<char>, name: Seq<char>, id: Seq<char>, values: Seq<u32>, metadata: Option<Value>) -> RegistryModel {
        match self.upsert(tenant, name, id, values, metadata) {
            Ok(r) => r,
            Err(_) => self,
        }
    }

    /// Drops a vector from the collection, if both are there.
    pub open spec fn delete_vector(self, tenant: Seq<char>, name: Seq<char>, id: Seq<char>) -> RegistryModel {
        if self.has(tenant, name) {
            self.with_index(tenant, name, self.index_of(tenant, name).delete(id))
        } else {
            self
        }
    }

    /// The slots of the tenant's collections, in storage order.
    pub open spec fn tenant_slots(self, tenant: Seq<char>) -> Seq<int> {
        Seq::new(self.collections.len(), |i: int| i).filter(|i: int| self.collections[i].tenant == tenant)
    }
}

struct Collection {
    tenant: String,
    name: String,
    index: InMemoryIndex,
}

impl Collection {
    spec fn model(&self) -> CollectionModel {
        CollectionModel { tenant: self.tenant@, name: self.name@, index: self.index@ }
    }
}

/// Every tenant's collections.
pub struct Registry {
    collections: Vec<Collection>,
}

impl View for Registry {
    type V = RegistryModel;

    closed spec fn view(&self) -> RegistryModel {
        RegistryModel { collections: self.collections@.map_values(|c: Collection| c.model()) }
    }
}

impl Registry {
    pub open spec fn wf(&self) -> bool {
        self@.wf() && self.indexes_ok()
    }

    /// Every index's own bookkeeping is in order.
    pub closed spec fn indexes_ok(&self) -> bool {
        forall|i: int| 0 <= i < self.collections@.len() ==> (#[trigger] self.collections@[i]).index.slots_ok()
    }

    pub fn new() -> (r: Registry)
        ensures
            r@ == RegistryModel::empty(),
            r.wf(),
    {
        let r = Registry { collections: Vec::new() };
        assert(r@.collections =~= Seq::<CollectionModel>::empty());
        r
    }

    /// Number of collections over all tenants.
    pub fn len(&self) -> (r: usize)
        ensures
            r == self@.collections.len(),
    {
        self.collections.len()
    }

    fn find(&self, tenant: &String, name: &String) -> (r: Option<usize>)
        requires
            self.wf(),
        ensures
            r matches Some(i) ==> self@.has(tenant@, name@) && i == self@.slot(tenant@, name@),
            r is None ==> !self@.has(tenant@, name@),
    {
        let mut i: usize = 0;
        while i < self.collections.len()
            invariant
                self.wf(),
                i <= self.collections@.len(),
                self@.collections.len() == self.collections@.len(),
                forall|j: int| 0 <= j < i ==> !RegistryModel::is_key(#[trigger] self@.collections[j], tenant@, name@),
            decreases self.collections@.len() - i,
        {
            if self.collections[i].tenant == *tenant && self.collections[i].name == *name {
                assert(RegistryModel::is_key(self@.collections[i as int], tenant@, name@));
                let ghost s = self@.slot(tenant@, name@);
                assert(s == i);
                return Some(i);
            }
            i = i + 1;
        }
        None
    }

    /// Whether the tenant has a collection of that name.
    pub fn contains(&self, tenant: &String, name: &String) -> (r: bool)
        requires
            self.wf(),
        ensures
            r == self@.has(tenant@, name@),
    {
        self.find(tenant, name).is_some()
    }

    /// Adds an empty collection of the given dimension.
    pub fn create(&mut self, tenant: &String, name: &String, dimension: usize) -> (r: Result<(), ApiError>)
        requires
            old(self).wf(),
        ensures
            final(self).wf(),
            match old(self)@.create(tenant@, name@, dimension as nat) {
                Ok(m) => r is Ok && final(self)@ == m,
                Err(e) => r == Err::<(), ApiError>(e) && final(self)@ == old(self)@,
            },
    {
        let index = match InMemoryIndex::new(dimension) {
            Ok(index) => index,
            Err(e) => return Err(ApiError::InvalidInput(e)),
        };
        if self.find(tenant, name).is_some() {
            return Err(ApiError::Conflict);
        }
        let ghost m0 = self@;
        self.collections.push(Collection { tenant: tenant.clone(), name: name.clone(), index });
        assert(self@.collections =~= m0.create(tenant@, name@, dimension as nat).unwrap().collections);
        Ok(())
    }

    /// Drops the collection with all its vectors; says whether it existed.
    pub fn remove(&mut self, tenant: &String, name: &String) -> (r: bool)
        requires
            old(self).wf(),
        ensures
            final(self).wf(),
            r == old(self)@.has(tenant@, name@),
            final(self)@ == old(self)@.remove(tenant@, name@),
    {
        match self.find(tenant, name) {
            Some(i) => {
                let ghost m0 = self@;
                self.collections.remove(i);
                assert(self@.collections =~= m0.collections.remove(i as int));
                assert(self@.wf()) by {
                    assert forall|a: int, b: int|
                        0 <= a < self@.collections.len() && 0 <= b < self@.collections.len() && a != b
                        implies !RegistryModel::is_key(#[trigger] self@.collections[a], (#[trigger] self@.collections[b]).tenant, self@.collections[b].name) by {
                        let a0 = if a < i { a } else { a + 1 };
                        let b0 = if b < i { b } else { b + 1 };
                        assert(self@.collections[a] == m0.collections[a0]);
                        assert(self@.collections[b] == m0.collections[b0]);
                    }
                }
                true
            },
            None => false,
        }
    }

    /// The collection's index.
    pub fn get(&self, tenant: &String, name: &String) -> (r: Result<&InMemoryIndex, ApiError>)
        requires
            self.wf(),
        ensures
            !self@.has(tenant@, name@) ==> r == Err::<&InMemoryIndex, ApiError>(ApiError::NotFound),
            self@.has(tenant@, name@) ==> (r matches Ok(idx) && idx@ == self@.index_of(tenant@, name@) && idx.wf()),
    {
        match self.find(tenant, name) {
            Some(i) => Ok(&self.collections[i].index),
            None => Err(ApiError::NotFound),
        }
    }

    /// Upserts one vector into the collection; returns the internal id that
    /// the collection's similarity graph must hold it under.
    pub fn upsert(&mut self, tenant: &String, name: &String, id: String, values: Vec<u32>, metadata: Option<Value>) -> (r: Result<usize, ApiError>)
        requires
            old(self).wf(),
        ensures
            final(self).wf(),
            match old(self)@.upsert(tenant@, name@, id@, values@, metadata) {
                Ok(m) => final(self)@ == m && r == Ok::<usize, ApiError>(
                    m.index_of(tenant@, name@).records[m.index_of(tenant@, name@).slot(id@)].internal_id as usize),
                Err(e) => final(self)@ == old(self)@ && r == Err::<usize, ApiError>(e),
            },
    {
        let i: usize = match self.find(tenant, name) {
            Some(i) => i,
            None => return Err(ApiError::NotFound),
        };
        let ghost m0 = self@;
        let ghost id_v = id@;
        let r = self.collections[i].index.upsert(id, values, metadata);
        proof {
            assert(self@.collections =~= m0.with_index(tenant@, name@, self@.collections[i as int].index).collections);
            lemma_with_index_keeps_keys(m0, tenant@, name@, self@.collections[i as int].index);
        }
        match r {
            Ok(internal_id) => Ok(internal_id),
            Err(e) => {
                assert(self@.collections =~= m0.collections);
                Err(ApiError::InvalidInput(e))
            },
        }
    }

    /// Drops a vector from the collection; says whether it was there.
    pub fn delete_vector(&mut self, tenant: &String, name: &String, id: &String) -> (r: Result<bool, ApiError>)
        requires
            old(self).wf(),
        ensures
            final(self).wf(),
            final(self)@ == old(self)@.delete_vector(tenant@, name@, id@),
            !old(self)@.has(tenant@, name@) ==> r == Err::<bool, ApiError>(ApiError::NotFound),
            old(self)@.has(tenant@, name@) ==> r == Ok::<bool, ApiError>(old(self)@.index_of(tenant@, name@).has_id(id@)),
    {
        let i: usize = match self.find(tenant, name) {
            Some(i) => i,
            None => return Err(ApiError::NotFound),
        };
        let ghost m0 = self@;
        let deleted = self.collections[i].index.delete(id);
        proof {
            assert(self@.collections =~= m0.with_index(tenant@, name@, self@.collections[i as int].index).collections);
            lemma_with_index_keeps_keys(m0, tenant@, name@, self@.collections[i as int].index);
        }
        Ok(deleted)
    }

    /// Adds a collection with a ready index under a key not yet in use.
    pub(crate) fn push_index(&mut self, tenant: String, name: String, index: InMemoryIndex)
        requires
            old(self).wf(),
            index.wf(),
            !old(self)@.has(tenant@, name@),
        ensures
            final(self).wf(),
            final(self)@ == (RegistryModel {
                collections: old(self)@.collections.push(CollectionModel {
                    tenant: tenant@, name: name@, index: index@,
                }),
            }),
    {
        let ghost m0 = self@;
        let ghost c = CollectionModel { tenant: tenant@, name: name@, index: index@ };
        self.collections.push(Collection { tenant, name, index });
        assert(self@.collections =~= m0.collections.push(c));
    }

    /// Copies of every collection with its live vectors, in storage order.
    pub fn export(&self) -> (r: Vec<SnapshotCollection>)
        requires
            self.wf(),
        ensures
            r@.map_values(|c: SnapshotCollection| c.model()) == snapshot_of(self@),
    {
        let mut out: Vec<SnapshotCollection> = Vec::new();
        let mut i: usize = 0;
        while i < self.collections.len()
            invariant
                i <= self.collections@.len(),
                out@.len() == i,
                self@.collections.len() == self.collections@.len(),
                forall|j: int| 0 <= j < i ==> (#[trigger] out@[j]).model() == snapshot_of_collection(self@.collections[j]),
            decreases self.collections@.len() - i,
        {
            let c = &self.collections[i];
            let vectors = c.index.export_vectors();
            out.push(SnapshotCollection {
                tenant: c.tenant.clone(),
                name: c.name.clone(),
                dimension: c.index.dimension(),
                vectors,
            });
            i = i + 1;
        }
        assert(out@.map_values(|c: SnapshotCollection| c.model()) =~= snapshot_of(self@));
        out
    }

    /// Name, dimension and vector count of each of the tenant's collections.
    pub fn list(&self, tenant: &String) -> (r: Vec<CollectionSummary>)
        requires
            self.wf(),
        ensures
            r@.len() == self@.tenant_slots(tenant@).len(),
            forall|k: int| 0 <= k < r@.len() ==> {
                let c = self@.collections[self@.tenant_slots(tenant@)[k]];
                &&& (#[trigger] r@[k]).name@ == c.name
                &&& r@[k].dimension == c.index.dimension
                &&& r@[k].vectors == c.index.records.len()
            },
    {
        let ghost all = Seq::new(self@.collections.len(), |i: int| i);
        let ghost pred = |i: int| self@.collections[i].tenant == tenant@;
        let mut out: Vec<CollectionSummary> = Vec::new();
        let mut i: usize = 0;
        while i < self.collections.len()
            invariant
                i <= self.collections@.len(),
                self@.collections.len() == self.collections@.len(),
                all == Seq::new(self@.collections.len(), |i: int| i),
                pred == (|i: int| self@.collections[i].tenant == tenant@),
                out@.len() == all.take(i as int).filter(pred).len(),
                forall|k: int| 0 <= k < out@.len() ==> {
                    let c = self@.collections[all.take(i as int).filter(pred)[k]];
                    &&& (#[trigger] out@[k]).name@ == c.name
                    &&& out@[k].dimension == c.index.dimension
                    &&& out@[k].vectors == c.index.records.len()
                },
            decreases self.collections@.len() - i,
        {
            proof {
                let s = all.take(i as int);
                assert(all.take(i + 1) =~= s.push(i as int));
                broadcast use vstd::seq_lib::group_filter_ensures;
                reveal(Seq::filter);
                assert(s.push(i as int).filter(pred) == if pred(i as int) {
                    s.filter(pred).push(i as int)
                } else {
                    s.filter(pred)
                }) by {
                    assert(s.push(i as int).drop_last() =~= s);
                }
            }
            let c = &self.collections[i];
            if c.tenant == *tenant {
                out.push(CollectionSummary {
                    name: c.name.clone(),
                    dimension: c.index.dimension(),
                    vectors: c.index.vector_count(),
                });
            }
            i = i + 1;
        }
        assert(all.take(i as int) =~= all);
        out
    }
}

/// Replacing one collection's index by a well-formed one keeps the registry
/// well formed and the collection at its slot.
pub proof fn lemma_with_index_keeps_keys(m: RegistryModel, tenant: Seq<char>, name: Seq<char>, index: IndexModel)
    requires
        m.wf(),
        m.has(tenant, name),
        index.wf(),
    ensures
        m.with_index(tenant, name, index).wf(),
        m.with_index(tenant, name, index).has(tenant, name),
        m.with_index(tenant, name, index).slot(tenant, name) == m.slot(tenant, name),
        m.with_index(tenant, name, index).index_of(tenant, name) == index,
        m.with_index(tenant, name, index).with_index(tenant, name, m.index_of(tenant, name)) == m,
        forall|other: IndexModel| #[trigger] m.with_index(tenant, name, index).with_index(tenant, name, other)
            == m.with_index(tenant, name, other),
{
    let m2 = m.with_index(tenant, name, index);
    let i = m.slot(tenant, name);
    assert(RegistryModel::is_key(m2.collections[i], tenant, name));
    let j = m2.slot(tenant, name);
    assert(RegistryModel::is_key(m2.collections[j], tenant, name));
    if j != i {
        assert(RegistryModel::is_key(m.collections[j], tenant, name));
    }
    assert(m2.with_index(tenant, name, m.index_of(tenant, name)) =~= m);
    assert forall|other: IndexModel| #[trigger] m2.with_index(tenant, name, other) == m.with_index(tenant, name, other) by {
        assert(m2.with_index(tenant, name, other) =~= m.with_index(tenant, name, other));
    }
}

} // verus!
