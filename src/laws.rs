//! Properties that relate several operations of the index.
use vstd::prelude::*;
use serde_json::Value;
use crate::index::{has_point_id, is_ranking, ranks_before, resolve, Hit, IndexError, IndexModel, PointModel, VectorModel};
use crate::vector::is_degenerate;
use crate::service::query_results;
use crate::snapshot::load_vectors;

verus! {

/// A successful upsert keeps the index well formed.
pub proof fn lemma_upsert_wf(m: IndexModel, id: Seq<char>, values: Seq<u32>, metadata: Option<Value>)
    requires
        m.wf(),
    ensures
        m.upserted(id, values, metadata).wf(),
{
    if m.upsert(id, values, metadata) is Ok && m.has_id(id) {
        let i = m.slot(id);
        assert(m.records[i].id == id);
    }
}

/// A delete keeps the index well formed.
pub proof fn lemma_delete_wf(m: IndexModel, id: Seq<char>)
    requires
        m.wf(),
    ensures
        m.delete(id).wf(),
        !m.delete(id).has_id(id),
{
    if m.has_id(id) {
        let i = m.slot(id);
        let m2 = m.delete(id);
        assert(m.records[i].id == id);
        assert forall|a: int| 0 <= a < m2.records.len() implies #[trigger] m2.records[a].id != id by {
            let a0 = if a < i { a } else { a + 1 };
            assert(m2.records[a] == m.records[a0]);
        }
        assert forall|a: int, b: int|
            0 <= a < m2.records.len() && 0 <= b < m2.records.len() && a != b implies {
                &&& (#[trigger] m2.records[a]).id != (#[trigger] m2.records[b]).id
                &&& m2.records[a].internal_id != m2.records[b].internal_id
            } by {
            let a0 = if a < i { a } else { a + 1 };
            let b0 = if b < i { b } else { b + 1 };
            assert(m2.records[a] == m.records[a0]);
            assert(m2.records[b] == m.records[b0]);
        }
    }
}

/// Upserting an id that is not `id` leaves `id` absent.
pub proof fn lemma_upsert_other_keeps_absent(m: IndexModel, id: Seq<char>, v: VectorModel)
    requires
        m.wf(),
        !m.has_id(id),
        v.id != id,
    ensures
        !m.upserted(v.id, v.values, v.metadata).has_id(id),
{
    let m2 = m.upserted(v.id, v.values, v.metadata);
    if m.upsert(v.id, v.values, v.metadata) is Ok {
        if m.has_id(v.id) {
            let i = m.slot(v.id);
            assert(m.records[i].id == v.id);
            assert forall|a: int| 0 <= a < m2.records.len() implies #[trigger] m2.records[a].id != id by {
                if a != i {
                    assert(m2.records[a] == m.records[a]);
                }
            }
        } else {
            assert forall|a: int| 0 <= a < m2.records.len() implies #[trigger] m2.records[a].id != id by {
                if a < m.records.len() {
                    assert(m2.records[a] == m.records[a]);
                }
            }
        }
    }
}

/// A later change to an index: an upsert or a delete.
pub enum IndexOp {
    Upsert(VectorModel),
    Delete(Seq<char>),
}

/// The changes applied in order, each refused upsert changing nothing.
pub open spec fn apply_ops(m: IndexModel, ops: Seq<IndexOp>) -> IndexModel
    decreases ops.len(),
{
    if ops.len() == 0 {
        m
    } else {
        let prev = apply_ops(m, ops.drop_last());
        match ops.last() {
            IndexOp::Upsert(v) => prev.upserted(v.id, v.values, v.metadata),
            IndexOp::Delete(other) => prev.delete(other),
        }
    }
}

/// The change does not upsert `id`.
pub open spec fn spares(op: IndexOp, id: Seq<char>) -> bool {
    match op {
        IndexOp::Upsert(v) => v.id != id,
        IndexOp::Delete(_) => true,
    }
}

/// Every result of a query names a live record.
pub proof fn lemma_resolve_live(m: IndexModel, hits: Seq<Hit>, top_k: nat)
    ensures
        forall|k: int| 0 <= k < resolve(m, hits, top_k).len() ==> m.has_id(#[trigger] resolve(m, hits, top_k)[k].id),
        resolve(m, hits, top_k).len() <= top_k,
    decreases hits.len(),
{
    if hits.len() > 0 {
        lemma_resolve_live(m, hits.drop_last(), top_k);
        let prev = resolve(m, hits.drop_last(), top_k);
        let h = hits.last();
        if prev.len() < top_k && m.has_internal(h.internal_id as nat) {
            let slot = m.internal_slot(h.internal_id as nat);
            assert(m.records[slot].internal_id == h.internal_id as nat);
            let r = resolve(m, hits, top_k);
            assert forall|k: int| 0 <= k < r.len() implies m.has_id(#[trigger] r[k].id) by {
                if k < prev.len() {
                    assert(r[k] == prev[k]);
                } else {
                    assert(m.records[slot].id == r[k].id);
                }
            }
        }
    }
}

/// Upserting one id twice leaves exactly one record under it, holding the
/// second upsert's values and metadata, bound to an internal id of its own:
/// the internal id of the first upsert is bound to nothing afterwards.
pub proof fn lemma_upsert_overwrites(
    m: IndexModel,
    id: Seq<char>,
    first: Seq<u32>,
    first_metadata: Option<Value>,
    second: Seq<u32>,
    second_metadata: Option<Value>,
)
    requires
        m.wf(),
        m.check_vector(first) is Ok,
        m.check_vector(second) is Ok,
        m.next_internal_id + 1 < usize::MAX,
    ensures
        ({
            let m1 = m.upserted(id, first, first_metadata);
            let m2 = m1.upserted(id, second, second_metadata);
            &&& m2.wf()
            &&& m2.has_id(id)
            &&& m2.records[m2.slot(id)].values == second
            &&& m2.records[m2.slot(id)].metadata == second_metadata
            &&& forall|i: int| 0 <= i < m2.records.len() && (#[trigger] m2.records[i]).id == id ==> i == m2.slot(id)
            &&& m2.records.len() == m1.records.len()
            &&& m1.has_id(id)
            &&& !m2.has_internal(m1.records[m1.slot(id)].internal_id)
        }),
{
    let m1 = m.upserted(id, first, first_metadata);
    lemma_upsert_wf(m, id, first, first_metadata);
    if m.has_id(id) {
        assert(m.records[m.slot(id)].id == id);
        assert(m1.records[m.slot(id)].id == id);
    } else {
        assert(m1.records[m.records.len() as int].id == id);
    }
    assert(m1.has_id(id));
    let i = m1.slot(id);
    assert(m1.records[i].id == id);
    lemma_upsert_wf(m1, id, second, second_metadata);
    let m2 = m1.upserted(id, second, second_metadata);
    assert(m2.records[i].id == id);
    assert(m2.has_id(id));
    assert(m2.slot(id) == i);
    let old_internal = m1.records[i].internal_id;
    if m2.has_internal(old_internal) {
        let j = m2.internal_slot(old_internal);
        assert(m2.records[j].internal_id == old_internal);
        if j != i {
            assert(m2.records[j] == m1.records[j]);
        }
    }
}

/// Every result of a query comes from a hit on the current internal id of
/// the record it names, and carries that hit's score and the record's
/// metadata.
pub proof fn lemma_resolve_from_current_binding(m: IndexModel, hits: Seq<Hit>, top_k: nat)
    requires
        m.wf(),
    ensures
        forall|k: int| 0 <= k < resolve(m, hits, top_k).len() ==> {
            let p = #[trigger] resolve(m, hits, top_k)[k];
            &&& m.has_id(p.id)
            &&& p.metadata == m.records[m.slot(p.id)].metadata
            &&& exists|j: int| 0 <= j < hits.len()
                && (#[trigger] hits[j]).internal_id as nat == m.records[m.slot(p.id)].internal_id
                && hits[j].score == p.score
        },
    decreases hits.len(),
{
    if hits.len() > 0 {
        let hs = hits.drop_last();
        lemma_resolve_from_current_binding(m, hs, top_k);
        let prev = resolve(m, hs, top_k);
        let h = hits.last();
        let r = resolve(m, hits, top_k);
        assert forall|k: int| 0 <= k < r.len() implies {
            let p = #[trigger] r[k];
            &&& m.has_id(p.id)
            &&& p.metadata == m.records[m.slot(p.id)].metadata
            &&& exists|j: int| 0 <= j < hits.len()
                && (#[trigger] hits[j]).internal_id as nat == m.records[m.slot(p.id)].internal_id
                && hits[j].score == p.score
        } by {
            if k < prev.len() {
                assert(r[k] == prev[k]);
                let p = prev[k];
                let j = choose|j: int| 0 <= j < hs.len()
                    && (#[trigger] hs[j]).internal_id as nat == m.records[m.slot(p.id)].internal_id
                    && hs[j].score == p.score;
                assert(hits[j] == hs[j]);
            } else {
                let slot = m.internal_slot(h.internal_id as nat);
                assert(m.records[slot].internal_id == h.internal_id as nat);
                assert(r[k].id == m.records[slot].id);
                assert(m.has_id(r[k].id));
                assert(m.records[m.slot(r[k].id)].id == m.records[slot].id);
                assert(m.slot(r[k].id) == slot);
                assert(hits[hits.len() - 1] == h);
            }
        }
    }
}

/// Once an id is deleted, no query returns it, whatever other ids are
/// upserted or deleted afterwards.
pub proof fn lemma_deleted_never_returned(
    m: IndexModel,
    id: Seq<char>,
    later: Seq<IndexOp>,
    top_k: nat,
    hits: Seq<Hit>,
)
    requires
        m.wf(),
        forall|i: int| 0 <= i < later.len() ==> spares(#[trigger] later[i], id),
    ensures
        !has_point_id(query_results(apply_ops(m.delete(id), later), top_k, hits), id),
{
    lemma_delete_wf(m, id);
    lemma_absent_after_ops(m.delete(id), id, later);
    let m2 = apply_ops(m.delete(id), later);
    lemma_resolve_live(m2, hits, top_k);
    let r = query_results(m2, top_k, hits);
    if has_point_id(r, id) {
        let k = choose|k: int| 0 <= k < r.len() && #[trigger] r[k].id == id;
        assert(m2.has_id(r[k].id));
    }
}

proof fn lemma_delete_keeps_absent(m: IndexModel, id: Seq<char>, other: Seq<char>)
    requires
        m.wf(),
        !m.has_id(id),
    ensures
        !m.delete(other).has_id(id),
{
    if m.has_id(other) {
        let s = m.slot(other);
        let m2 = m.delete(other);
        assert forall|a: int| 0 <= a < m2.records.len() implies #[trigger] m2.records[a].id != id by {
            let a0 = if a < s { a } else { a + 1 };
            assert(m2.records[a] == m.records[a0]);
        }
    }
}

proof fn lemma_absent_after_ops(m: IndexModel, id: Seq<char>, later: Seq<IndexOp>)
    requires
        m.wf(),
        !m.has_id(id),
        forall|i: int| 0 <= i < later.len() ==> spares(#[trigger] later[i], id),
    ensures
        apply_ops(m, later).wf(),
        !apply_ops(m, later).has_id(id),
    decreases later.len(),
{
    if later.len() > 0 {
        let prefix = later.drop_last();
        assert forall|i: int| 0 <= i < prefix.len() implies spares(#[trigger] prefix[i], id) by {
            assert(prefix[i] == later[i]);
        }
        lemma_absent_after_ops(m, id, prefix);
        let prev = apply_ops(m, prefix);
        assert(spares(later[later.len() - 1], id));
        match later.last() {
            IndexOp::Upsert(v) => {
                lemma_upsert_wf(prev, v.id, v.values, v.metadata);
                lemma_upsert_other_keeps_absent(prev, id, v);
            },
            IndexOp::Delete(other) => {
                lemma_delete_wf(prev, other);
                lemma_delete_keeps_absent(prev, id, other);
            },
        }
    }
}

/// A vector whose length is not the collection's dimension is refused as an
/// upsert and as a query, and the upsert changes nothing.
pub proof fn lemma_dimension_mismatch_refused(m: IndexModel, id: Seq<char>, values: Seq<u32>, metadata: Option<Value>)
    requires
        values.len() != m.dimension,
    ensures
        m.upsert(id, values, metadata) == Err::<IndexModel, IndexError>(IndexError::DimensionMismatch {
            expected: m.dimension as usize,
            found: values.len() as usize,
        }),
        m.upserted(id, values, metadata) == m,
        m.check_vector(values) is Err,
{
}

/// A vector of the collection's dimension whose squared norm is zero is
/// refused as an upsert and as a query, and the upsert stores nothing.
pub proof fn lemma_zero_vector_refused(m: IndexModel, id: Seq<char>, values: Seq<u32>, metadata: Option<Value>)
    requires
        values.len() == m.dimension,
        is_degenerate(values),
    ensures
        m.upsert(id, values, metadata) == Err::<IndexModel, IndexError>(IndexError::DegenerateVector),
        m.upserted(id, values, metadata) == m,
        m.check_vector(values) == Err::<(), IndexError>(IndexError::DegenerateVector),
{
}

/// A query for zero results returns nothing.
pub proof fn lemma_top_k_zero_is_empty(m: IndexModel, hits: Seq<Hit>)
    ensures
        query_results(m, 0, hits) == Seq::<PointModel>::empty(),
{
}

/// Upserting an index's export, in order, into an empty index of the same
/// dimension succeeds and rebuilds the same export.
pub proof fn lemma_export_round_trip(m: IndexModel)
    requires
        m.wf(),
    ensures
        load_vectors(IndexModel::empty(m.dimension), m.exported()) matches Ok(m2)
            && m2.wf() && m2.exported() == m.exported() && m2.dimension == m.dimension
            && m2.next_internal_id == m.records.len(),
{
    lemma_export_prefix(m, m.records.len() as int);
    assert(m.exported().take(m.records.len() as int) =~= m.exported());
    let m2 = load_vectors(IndexModel::empty(m.dimension), m.exported()).unwrap();
    assert(m2.exported() =~= m.exported());
}

proof fn lemma_export_prefix(m: IndexModel, k: int)
    requires
        m.wf(),
        0 <= k <= m.records.len(),
    ensures
        load_vectors(IndexModel::empty(m.dimension), m.exported().take(k)) matches Ok(m2) && {
            &&& m2.wf()
            &&& m2.dimension == m.dimension
            &&& m2.records.len() == k
            &&& m2.next_internal_id == k
            &&& forall|j: int| 0 <= j < k ==> (#[trigger] m2.records[j]).content() == m.records[j].content()
        },
    decreases k,
{
    let e = m.exported();
    if k == 0 {
        assert(e.take(0) =~= Seq::<VectorModel>::empty());
    } else {
        lemma_export_prefix(m, k - 1);
        assert(e.take(k).drop_last() =~= e.take(k - 1));
        let prev = load_vectors(IndexModel::empty(m.dimension), e.take(k - 1)).unwrap();
        let v = e.take(k).last();
        assert(v == m.records[k - 1].content());
        assert(m.records[k - 1].values.len() == m.dimension);
        assert(!prev.has_id(v.id)) by {
            if prev.has_id(v.id) {
                let j = prev.slot(v.id);
                assert(prev.records[j].content() == m.records[j].content());
                assert(m.records[j].id == m.records[k - 1].id);
            }
        }
        assert(k - 1 < m.next_internal_id);
        lemma_upsert_wf(prev, v.id, v.values, v.metadata);
    }
}

/// Exact search has one answer: two rankings of the same scores for the same
/// number of results are the same sequence of slots.
pub proof fn lemma_ranking_unique(scores: Seq<u32>, top_k: nat, a: Seq<int>, b: Seq<int>)
    requires
        is_ranking(scores, top_k, a),
        is_ranking(scores, top_k, b),
    ensures
        a == b,
{
    lemma_ranking_prefix(scores, top_k, a, b, a.len() as int);
    assert(a =~= b);
}

proof fn lemma_ranking_prefix(scores: Seq<u32>, top_k: nat, a: Seq<int>, b: Seq<int>, k: int)
    requires
        is_ranking(scores, top_k, a),
        is_ranking(scores, top_k, b),
        0 <= k <= a.len(),
    ensures
        forall|i: int| 0 <= i < k ==> a[i] == b[i],
    decreases k,
{
    if k > 0 {
        let j = k - 1;
        lemma_ranking_prefix(scores, top_k, a, b, j);
        if a[j] != b[j] {
            let x = a[j];
            let y = b[j];
            // Where y stands in a, if anywhere, is after j; likewise x in b.
            if a.contains(y) {
                let p = choose|p: int| 0 <= p < a.len() && a[p] == y;
                if p < j {
                    assert(b[p] == y);
                    assert(ranks_before(scores, b[p], b[j]));
                }
                assert(p != j);
                assert(ranks_before(scores, a[j], a[p]));
            } else {
                assert(ranks_before(scores, a[j], y));
            }
            if b.contains(x) {
                let q = choose|q: int| 0 <= q < b.len() && b[q] == x;
                if q < j {
                    assert(a[q] == x);
                    assert(ranks_before(scores, a[q], a[j]));
                }
                assert(q != j);
                assert(ranks_before(scores, b[j], b[q]));
            } else {
                assert(ranks_before(scores, b[j], x));
            }
            assert(ranks_before(scores, x, y) && ranks_before(scores, y, x));
        }
    }
}

/// Exact search on an index rebuilt from its export, with the same scores
/// (which depend on the exported values alone), gives the same results in
/// the same order.
pub proof fn lemma_exact_search_round_trip(m: IndexModel, scores: Seq<u32>, top_k: nat, slots: Seq<int>)
    requires
        m.wf(),
        scores.len() == m.records.len(),
        is_ranking(scores, top_k, slots),
    ensures
        load_vectors(IndexModel::empty(m.dimension), m.exported()) matches Ok(m2) && {
            &&& m2.records.len() == m.records.len()
            &&& slots.map_values(|s: int| m2.point(s, scores[s])) == slots.map_values(|s: int| m.point(s, scores[s]))
        },
{
    lemma_export_round_trip(m);
    let m2 = load_vectors(IndexModel::empty(m.dimension), m.exported()).unwrap();
    assert(m2.exported().len() == m2.records.len());
    assert(m.exported().len() == m.records.len());
    assert forall|j: int| 0 <= j < slots.len() implies m2.point(#[trigger] slots[j], scores[slots[j]]) == m.point(slots[j], scores[slots[j]]) by {
        let s = slots[j];
        assert(m2.exported()[s] == m.exported()[s]);
        assert(m2.records[s].content() == m.records[s].content());
    }
    assert(slots.map_values(|s: int| m2.point(s, scores[s])) =~= slots.map_values(|s: int| m.point(s, scores[s])));
}

} // verus!
