//! The store's operations as a request handler sees them. Each mutating
//! operation applies its change and hands back the log records it owes, in
//! commit order: replaying them onto the state before the call gives the state
//! after it. Records are written after the change (log after apply).
use vstd::prelude::*;
use crate::index::{resolve, Hit, IndexError, IndexModel, PointModel, ScoredPoint, SearchRequest, VectorModel};
use crate::index::copy_values;
use crate::metadata::copy_metadata;
use crate::models::{
    CollectionStatsResponse, CreateCollectionRequest, CreateCollectionResponse,
    DeleteCollectionResponse, DeleteVectorResponse, GetCollectionResponse, HealthResponse,
    ListCollectionsResponse, QueryMatch, QueryRequest, QueryResponse, UpsertRequest,
    UpsertResponse, VectorData,
};
use crate::registry::{lemma_with_index_keeps_keys, ApiError, Registry, RegistryModel};
use crate::wal::{lemma_models_push, lemma_replay_push, models, replay, EntryModel, WalEntry};

verus! {

/// The name under which collection statistics report the index kind.
pub const INDEX_KIND: &'static str = "hnsw_cosine";

/// The outcome of a mutating operation and the log records it owes.
pub struct Applied<T> {
    pub result: Result<T, ApiError>,
    pub log: Vec<WalEntry>,
}

/// The outcome of a batch upsert, the log records it owes, and the internal
/// id of each committed vector, in batch order.
pub struct UpsertOutcome {
    pub result: Result<UpsertResponse, ApiError>,
    pub log: Vec<WalEntry>,
    pub internal_ids: Vec<usize>,
}

impl VectorData {
    pub open spec fn model(&self) -> VectorModel {
        VectorModel { id: self.id@, values: self.values@, metadata: self.metadata }
    }
}

impl QueryMatch {
    pub open spec fn model(&self) -> PointModel {
        PointModel { id: self.id@, score: self.score, metadata: self.metadata }
    }
}

/// Where a batch upsert stands: the index so far, how many vectors were
/// committed, and the refusal that stopped it, if one did.
pub struct BatchModel {
    pub index: IndexModel,
    pub committed: nat,
    pub error: Option<IndexError>,
}

/// A batch is upserted item by item and stops at the first refusal; the
/// items before it stay committed.
pub open spec fn upsert_batch(m: IndexModel, vectors: Seq<VectorModel>) -> BatchModel
    decreases vectors.len(),
{
    if vectors.len() == 0 {
        BatchModel { index: m, committed: 0, error: None }
    } else {
        let b = upsert_batch(m, vectors.drop_last());
        let v = vectors.last();
        if b.error is Some {
            b
        } else {
            match b.index.upsert(v.id, v.values, v.metadata) {
                Ok(m2) => BatchModel { index: m2, committed: b.committed + 1, error: None },
                Err(e) => BatchModel { error: Some(e), ..b },
            }
        }
    }
}

/// The records that a batch owes: one upsert per committed vector.
pub open spec fn batch_log(tenant: Seq<char>, name: Seq<char>, vectors: Seq<VectorModel>) -> Seq<EntryModel> {
    vectors.map_values(|v: VectorModel| EntryModel::UpsertVector {
        tenant, collection: name, id: v.id, values: v.values, metadata: v.metadata,
    })
}

/// The results of a query on `m` given the graph's hits.
pub open spec fn query_results(m: IndexModel, top_k: nat, hits: Seq<Hit>) -> Seq<PointModel> {
    if top_k == 0 || m.records.len() == 0 {
        Seq::empty()
    } else {
        resolve(m, hits, top_k)
    }
}

pub fn health() -> (r: HealthResponse)
    ensures
        r.status@ == "ok"@,
{
    HealthResponse { status: "ok" }
}

/// Creates an empty collection for the tenant.
pub fn create_collection(state: &mut Registry, tenant: &String, payload: CreateCollectionRequest) -> (r: Applied<CreateCollectionResponse>)
    requires
        old(state).wf(),
    ensures
        final(state).wf(),
        match old(state)@.create(tenant@, payload.name@, payload.dimension as nat) {
            Ok(m) => final(state)@ == m && (r.result matches Ok(resp)
                && resp.name@ == payload.name@ && resp.dimension == payload.dimension)
                && models(r.log@) == seq![EntryModel::CreateCollection {
                    tenant: tenant@, name: payload.name@, dimension: payload.dimension as nat,
                }],
            Err(e) => final(state)@ == old(state)@ && (r.result matches Err(e2) && e2 == e)
                && r.log@.len() == 0,
        },
        final(state)@ == replay(old(state)@, models(r.log@)),
{
    let mut log: Vec<WalEntry> = Vec::new();
    assert(models(log@) =~= Seq::<EntryModel>::empty());
    match state.create(tenant, &payload.name, payload.dimension) {
        Err(e) => Applied { result: Err(e), log },
        Ok(_) => {
            let entry = WalEntry::CreateCollection {
                tenant: tenant.clone(),
                name: payload.name.clone(),
                dimension: payload.dimension,
            };
            proof {
                lemma_models_push(log@, entry);
                lemma_replay_push(old(state)@, models(log@), entry.model());
            }
            log.push(entry);
            assert(models(log@) =~= seq![entry.model()]);
            Applied {
                result: Ok(CreateCollectionResponse { name: payload.name, dimension: payload.dimension }),
                log,
            }
        },
    }
}

/// Name, dimension and vector count of each of the tenant's collections.
pub fn list_collections(state: &Registry, tenant: &String) -> (r: ListCollectionsResponse)
    requires
        state.wf(),
    ensures
        r.collections@.len() == state@.tenant_slots(tenant@).len(),
        forall|k: int| 0 <= k < r.collections@.len() ==> {
            let c = state@.collections[state@.tenant_slots(tenant@)[k]];
            &&& (#[trigger] r.collections@[k]).name@ == c.name
            &&& r.collections@[k].dimension == c.index.dimension
            &&& r.collections@[k].vectors == c.index.records.len()
        },
{
    ListCollectionsResponse { collections: state.list(tenant) }
}

/// Dimension and vector count of one collection.
pub fn get_collection(state: &Registry, tenant: &String, name: String) -> (r: Result<GetCollectionResponse, ApiError>)
    requires
        state.wf(),
    ensures
        !state@.has(tenant@, name@) ==> r == Err::<GetCollectionResponse, ApiError>(ApiError::NotFound),
        state@.has(tenant@, name@) ==> (r matches Ok(resp)
            && resp.name@ == name@
            && resp.dimension == state@.index_of(tenant@, name@).dimension
            && resp.vectors == state@.index_of(tenant@, name@).records.len()),
{
    match state.get(tenant, &name) {
        Err(e) => Err(e),
        Ok(index) => {
            let dimension: usize = index.dimension();
            let vectors: usize = index.vector_count();
            Ok(GetCollectionResponse { name, dimension, vectors })
        },
    }
}

/// Dimension, vector count and index kind of one collection.
pub fn collection_stats(state: &Registry, tenant: &String, name: String) -> (r: Result<CollectionStatsResponse, ApiError>)
    requires
        state.wf(),
    ensures
        !state@.has(tenant@, name@) ==> r == Err::<CollectionStatsResponse, ApiError>(ApiError::NotFound),
        state@.has(tenant@, name@) ==> (r matches Ok(resp)
            && resp.name@ == name@
            && resp.dimension == state@.index_of(tenant@, name@).dimension
            && resp.vectors == state@.index_of(tenant@, name@).records.len()
            && resp.index_type@ == INDEX_KIND@),
{
    match state.get(tenant, &name) {
        Err(e) => Err(e),
        Ok(index) => {
            let dimension: usize = index.dimension();
            let vectors: usize = index.vector_count();
            Ok(CollectionStatsResponse { name, dimension, vectors, index_type: INDEX_KIND.to_owned() })
        },
    }
}

/// Drops a collection with all its vectors.
pub fn delete_collection(state: &mut Registry, tenant: &String, name: &String) -> (r: Applied<DeleteCollectionResponse>)
    requires
        old(state).wf(),
    ensures
        final(state).wf(),
        final(state)@ == old(state)@.remove(tenant@, name@),
        !old(state)@.has(tenant@, name@) ==> (r.result matches Err(e) && e == ApiError::NotFound),
        !old(state)@.has(tenant@, name@) ==> r.log@.len() == 0,
        old(state)@.has(tenant@, name@) ==> (r.result matches Ok(resp) && resp.deleted),
        old(state)@.has(tenant@, name@) ==> models(r.log@) == seq![EntryModel::DeleteCollection {
            tenant: tenant@, name: name@,
        }],
        final(state)@ == replay(old(state)@, models(r.log@)),
{
    let mut log: Vec<WalEntry> = Vec::new();
    assert(models(log@) =~= Seq::<EntryModel>::empty());
    if !state.remove(tenant, name) {
        return Applied { result: Err(ApiError::NotFound), log };
    }
    let entry = WalEntry::DeleteCollection { tenant: tenant.clone(), name: name.clone() };
    proof {
        lemma_models_push(log@, entry);
        lemma_replay_push(old(state)@, models(log@), entry.model());
    }
    log.push(entry);
    assert(models(log@) =~= seq![entry.model()]);
    Applied { result: Ok(DeleteCollectionResponse { deleted: true }), log }
}

/// Upserts the batch into the collection, item by item; a refused item stops
/// the batch and leaves the items before it committed.
pub fn upsert_vectors(state: &mut Registry, tenant: &String, name: &String, payload: UpsertRequest) -> (r: UpsertOutcome)
    requires
        old(state).wf(),
    ensures
        final(state).wf(),
        final(state)@ == replay(old(state)@, models(r.log@)),
        !old(state)@.has(tenant@, name@) ==> {
            &&& final(state)@ == old(state)@
            &&& r.result matches Err(e) && e == ApiError::NotFound
            &&& r.log@.len() == 0
            &&& r.internal_ids@.len() == 0
        },
        old(state)@.has(tenant@, name@) ==> {
            let vs = payload.vectors@.map_values(|v: VectorData| v.model());
            let b = upsert_batch(old(state)@.index_of(tenant@, name@), vs);
            &&& final(state)@ == old(state)@.with_index(tenant@, name@, b.index)
            &&& match b.error {
                Some(e) => r.result matches Err(e2) && e2 == ApiError::InvalidInput(e),
                None => r.result matches Ok(resp) && resp.upserted == b.committed,
            }
            &&& models(r.log@) == batch_log(tenant@, name@, vs.take(b.committed as int))
            &&& r.internal_ids@.len() == b.committed
        },
{
    let mut log: Vec<WalEntry> = Vec::new();
    let mut internal_ids: Vec<usize> = Vec::new();
    assert(models(log@) =~= Seq::<EntryModel>::empty());
    if !state.contains(tenant, name) {
        return UpsertOutcome { result: Err(ApiError::NotFound), log, internal_ids };
    }
    let ghost start = state@;
    let ghost idx0 = start.index_of(tenant@, name@);
    let ghost vs = payload.vectors@.map_values(|v: VectorData| v.model());
    proof {
        lemma_with_index_keeps_keys(start, tenant@, name@, idx0);
        assert(start.with_index(tenant@, name@, idx0) =~= start);
        assert(batch_log(tenant@, name@, vs.take(0)) =~= Seq::<EntryModel>::empty());
    }
    let mut i: usize = 0;
    while i < payload.vectors.len()
        invariant
            state.wf(),
            start.wf(),
            start == old(state)@,
            start.has(tenant@, name@),
            idx0 == start.index_of(tenant@, name@),
            vs == payload.vectors@.map_values(|v: VectorData| v.model()),
            i <= payload.vectors@.len(),
            upsert_batch(idx0, vs.take(i as int)).error is None,
            upsert_batch(idx0, vs.take(i as int)).committed == i,
            state@ == start.with_index(tenant@, name@, upsert_batch(idx0, vs.take(i as int)).index),
            state@.has(tenant@, name@),
            state@.index_of(tenant@, name@) == upsert_batch(idx0, vs.take(i as int)).index,
            state@ == replay(start, models(log@)),
            models(log@) == batch_log(tenant@, name@, vs.take(i as int)),
            internal_ids@.len() == i,
        decreases payload.vectors@.len() - i,
    {
        let ghost prev = state@;
        let ghost prev_idx = state@.index_of(tenant@, name@);
        proof {
            assert(vs.take(i + 1).drop_last() =~= vs.take(i as int));
            assert(vs.take(i + 1).last() == payload.vectors@[i as int].model());
        }
        let v = &payload.vectors[i];
        match state.upsert(tenant, name, v.id.clone(), copy_values(&v.values), copy_metadata(&v.metadata)) {
            Err(e) => {
                proof {
                    lemma_batch_stops(idx0, vs, i as int + 1);
                    assert(vs.take(vs.len() as int) =~= vs);
                }
                return UpsertOutcome { result: Err(e), log, internal_ids };
            },
            Ok(internal_id) => {
                let entry = WalEntry::UpsertVector {
                    tenant: tenant.clone(),
                    collection: name.clone(),
                    id: v.id.clone(),
                    values: copy_values(&v.values),
                    metadata: copy_metadata(&v.metadata),
                };
                proof {
                    let new_idx = upsert_batch(idx0, vs.take(i + 1)).index;
                    lemma_with_index_keeps_keys(start, tenant@, name@, prev_idx);
                    lemma_with_index_keeps_keys(prev, tenant@, name@, new_idx);
                    lemma_with_index_keeps_keys(start, tenant@, name@, new_idx);
                    lemma_models_push(log@, entry);
                    lemma_replay_push(start, models(log@), entry.model());
                    assert(batch_log(tenant@, name@, vs.take(i + 1)) =~= batch_log(tenant@, name@, vs.take(i as int)).push(entry.model()));
                }
                log.push(entry);
                internal_ids.push(internal_id);
            },
        }
        i = i + 1;
    }
    assert(vs.take(vs.len() as int) =~= vs);
    UpsertOutcome { result: Ok(UpsertResponse { upserted: i }), log, internal_ids }
}

/// Once a batch stops, the items after the stop change nothing.
proof fn lemma_batch_stops(m: IndexModel, vs: Seq<VectorModel>, k: int)
    requires
        0 <= k <= vs.len(),
        upsert_batch(m, vs.take(k)).error is Some,
    ensures
        upsert_batch(m, vs) == upsert_batch(m, vs.take(k)),
    decreases vs.len() - k,
{
    if k < vs.len() {
        assert(vs.take(k + 1).drop_last() =~= vs.take(k));
        lemma_batch_stops(m, vs, k + 1);
    } else {
        assert(vs.take(k) =~= vs);
    }
}

/// Decides what a query needs of the collection's similarity graph: an
/// error, no search at all, or the search to run.
pub fn plan_query_vectors(state: &Registry, tenant: &String, name: &String, payload: &QueryRequest) -> (r: Result<Option<SearchRequest>, ApiError>)
    requires
        state.wf(),
    ensures
        !state@.has(tenant@, name@) ==> r == Err::<Option<SearchRequest>, ApiError>(ApiError::NotFound),
        state@.has(tenant@, name@) ==> match state@.index_of(tenant@, name@).check_vector(payload.vector@) {
            Err(e) => r == Err::<Option<SearchRequest>, ApiError>(ApiError::InvalidInput(e)),
            Ok(_) => if payload.top_k == 0 || state@.index_of(tenant@, name@).records.len() == 0 {
                r == Ok::<Option<SearchRequest>, ApiError>(None)
            } else {
                r == Ok::<Option<SearchRequest>, ApiError>(Some(crate::index::search_for(payload.top_k)))
            },
        },
{
    let index = state.get(tenant, name)?;
    match index.plan_query(payload.vector.as_slice(), payload.top_k) {
        Ok(plan) => Ok(plan),
        Err(e) => Err(ApiError::InvalidInput(e)),
    }
}

/// The query's results, best first, from the hits that the collection's
/// similarity graph returned for the planned search.
pub fn query_vectors(state: &Registry, tenant: &String, name: &String, payload: &QueryRequest, hits: &[Hit]) -> (r: Result<QueryResponse, ApiError>)
    requires
        state.wf(),
    ensures
        !state@.has(tenant@, name@) ==> r == Err::<QueryResponse, ApiError>(ApiError::NotFound),
        state@.has(tenant@, name@) ==> match state@.index_of(tenant@, name@).check_vector(payload.vector@) {
            Err(e) => r == Err::<QueryResponse, ApiError>(ApiError::InvalidInput(e)),
            Ok(_) => r matches Ok(resp) && resp.matches@.map_values(|p: QueryMatch| p.model())
                == query_results(state@.index_of(tenant@, name@), payload.top_k as nat, hits@),
        },
{
    let index = state.get(tenant, name)?;
    match index.plan_query(payload.vector.as_slice(), payload.top_k) {
        Err(e) => Err(ApiError::InvalidInput(e)),
        Ok(None) => {
            let matches: Vec<QueryMatch> = Vec::new();
            assert(matches@.map_values(|p: QueryMatch| p.model()) =~= Seq::<PointModel>::empty());
            Ok(QueryResponse { matches })
        },
        Ok(Some(_)) => {
            let points = index.resolve_hits(hits, payload.top_k);
            Ok(QueryResponse { matches: to_matches(&points) })
        },
    }
}

fn to_matches(points: &Vec<ScoredPoint>) -> (r: Vec<QueryMatch>)
    ensures
        r@.map_values(|p: QueryMatch| p.model()) == points@.map_values(|p: ScoredPoint| p.model()),
{
    let mut out: Vec<QueryMatch> = Vec::new();
    let mut i: usize = 0;
    while i < points.len()
        invariant
            i <= points@.len(),
            out@.len() == i,
            forall|j: int| 0 <= j < i ==> (#[trigger] out@[j]).model() == points@[j].model(),
        decreases points@.len() - i,
    {
        let p = &points[i];
        out.push(QueryMatch { id: p.id.clone(), score: p.score, metadata: copy_metadata(&p.metadata) });
        i = i + 1;
    }
    assert(out@.map_values(|p: QueryMatch| p.model()) =~= points@.map_values(|p: ScoredPoint| p.model()));
    out
}

/// Drops one vector from the collection.
pub fn delete_vector(state: &mut Registry, tenant: &String, name: &String, id: &String) -> (r: Applied<DeleteVectorResponse>)
    requires
        old(state).wf(),
    ensures
        final(state).wf(),
        final(state)@ == old(state)@.delete_vector(tenant@, name@, id@),
        !old(state)@.has(tenant@, name@) ==> (r.result matches Err(e) && e == ApiError::NotFound),
        old(state)@.has(tenant@, name@) ==> (r.result matches Ok(resp)
            && resp.deleted == old(state)@.index_of(tenant@, name@).has_id(id@)),
        old(state)@.has(tenant@, name@) && old(state)@.index_of(tenant@, name@).has_id(id@)
            ==> models(r.log@) == seq![EntryModel::DeleteVector { tenant: tenant@, collection: name@, id: id@ }],
        !(old(state)@.has(tenant@, name@) && old(state)@.index_of(tenant@, name@).has_id(id@))
            ==> r.log@.len() == 0,
        final(state)@ == replay(old(state)@, models(r.log@)),
{
    let mut log: Vec<WalEntry> = Vec::new();
    assert(models(log@) =~= Seq::<EntryModel>::empty());
    let deleted = match state.delete_vector(tenant, name, id) {
        Err(e) => return Applied { result: Err(e), log },
        Ok(deleted) => deleted,
    };
    if deleted {
        let entry = WalEntry::DeleteVector { tenant: tenant.clone(), collection: name.clone(), id: id.clone() };
        proof {
            lemma_models_push(log@, entry);
            lemma_replay_push(old(state)@, models(log@), entry.model());
        }
        log.push(entry);
        assert(models(log@) =~= seq![entry.model()]);
    } else {
        proof {
            let m0 = old(state)@;
            lemma_with_index_keeps_keys(m0, tenant@, name@, m0.index_of(tenant@, name@));
            assert(m0.index_of(tenant@, name@).delete(id@) == m0.index_of(tenant@, name@));
            assert(m0.with_index(tenant@, name@, m0.index_of(tenant@, name@)) =~= m0);
        }
    }
    Applied { result: Ok(DeleteVectorResponse { deleted }), log }
}

} // verus!
