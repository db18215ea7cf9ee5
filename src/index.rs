//! One collection's vectors: records keyed by external string id, each bound
//! to a compact internal id under which a similarity graph knows its vector.
//!
//! Internal ids are handed out from a counter that only grows, one for every
//! successful upsert. Deleting a record drops its binding, so a graph hit on
//! the old internal id no longer resolves to anything (a soft delete);
//! overwriting a record rebinds its id to a fresh internal id, so a graph
//! node holding the old vector no longer resolves either.
use vstd::prelude::*;
use serde_json::Value;
use crate::metadata::copy_metadata;
use crate::vector::{degenerate, is_degenerate};
use vstd::hash_map::HashMapWithView;

verus! {

/// Why an index operation was refused.
#[derive(Clone, Copy, Debug, PartialEq, Eq, Structural)]
pub enum IndexError {
    /// A collection of dimension zero was asked for.
    InvalidDimension,
    /// The vector's length differs from the collection's dimension.
    DimensionMismatch { expected: usize, found: usize },
    /// The vector's squared norm is zero, so cosine similarity is undefined.
    DegenerateVector,
    /// Every internal id has been handed out.
    IdSpaceExhausted,
}

/// A live record as the contracts see it.
#[verifier::ext_equal]
pub struct RecordModel {
    pub id: Seq<char>,
    pub values: Seq<u32>,
    pub metadata: Option<Value>,
    pub internal_id: nat,
}

/// What an export holds of a record.
#[verifier::ext_equal]
pub struct VectorModel {
    pub id: Seq<char>,
    pub values: Seq<u32>,
    pub metadata: Option<Value>,
}

/// One query result as the contracts see it.
#[verifier::ext_equal]
pub struct PointModel {
    pub id: Seq<char>,
    pub score: u32,
    pub metadata: Option<Value>,
}

/// The abstract state of an index: its dimension, its live records in
/// storage order, and the next internal id to hand out.
#[verifier::ext_equal]
pub struct IndexModel {
    pub dimension: nat,
    pub records: Seq<RecordModel>,
    pub next_internal_id: nat,
}

impl RecordModel {
    pub open spec fn content(self) -> VectorModel {
        VectorModel { id: self.id, values: self.values, metadata: self.metadata }
    }
}

impl IndexModel {
    pub open spec fn empty(dimension: nat) -> IndexModel {
        IndexModel { dimension, records: Seq::empty(), next_internal_id: 0 }
    }

    pub open spec fn has_id(self, id: Seq<char>) -> bool {
        exists|i: int| 0 <= i < self.records.len() && #[trigger] self.records[i].id == id
    }

    /// The slot of the record with this id (meaningful when `has_id`).
    pub open spec fn slot(self, id: Seq<char>) -> int {
        choose|i: int| 0 <= i < self.records.len() && #[trigger] self.records[i].id == id
    }

    pub open spec fn has_internal(self, internal_id: nat) -> bool {
        exists|i: int| 0 <= i < self.records.len() && #[trigger] self.records[i].internal_id == internal_id
    }

    /// The slot of the record bound to this internal id (meaningful when
    /// `has_internal`).
    pub open spec fn internal_slot(self, internal_id: nat) -> int {
        choose|i: int| 0 <= i < self.records.len() && #[trigger] self.records[i].internal_id == internal_id
    }

    /// Every record has the collection's dimension and a non-zero norm; ids
    /// and internal ids are unique, every internal id is below the counter,
    /// and so there are no more records than ids handed out.
    pub open spec fn wf(self) -> bool {
        &&& self.dimension > 0
        &&& self.next_internal_id <= usize::MAX
        &&& self.records.len() <= self.next_internal_id
        &&& forall|i: int| 0 <= i < self.records.len() ==> {
            &&& (#[trigger] self.records[i]).values.len() == self.dimension
            &&& !is_degenerate(self.records[i].values)
            &&& self.records[i].internal_id < self.next_internal_id
        }
        &&& forall|i: int, j: int|
            0 <= i < self.records.len() && 0 <= j < self.records.len() && i != j ==> {
                &&& (#[trigger] self.records[i]).id != (#[trigger] self.records[j]).id
                &&& self.records[i].internal_id != self.records[j].internal_id
            }
    }

    /// Checks that `values` may be stored in or searched against this index.
    pub open spec fn check_vector(self, values: Seq<u32>) -> Result<(), IndexError> {
        if values.len() != self.dimension {
            Err(IndexError::DimensionMismatch {
                expected: self.dimension as usize,
                found: values.len() as usize,
            })
        } else if is_degenerate(values) {
            Err(IndexError::DegenerateVector)
        } else {
            Ok(())
        }
    }

    /// Binds the id to a fresh internal id: the record with this id is
    /// replaced whole, in its slot, or a new record is appended. The old
    /// internal id of a replaced record is bound to nothing afterwards, so a
    /// graph node holding the old vector no longer resolves.
    pub open spec fn upsert(self, id: Seq<char>, values: Seq<u32>, metadata: Option<Value>) -> Result<IndexModel, IndexError> {
        match self.check_vector(values) {
            Err(e) => Err(e),
            Ok(_) => if self.next_internal_id >= usize::MAX {
                Err(IndexError::IdSpaceExhausted)
            } else {
                let rec = RecordModel { id, values, metadata, internal_id: self.next_internal_id };
                Ok(IndexModel {
                    records: if self.has_id(id) {
                        self.records.update(self.slot(id), rec)
                    } else {
                        self.records.push(rec)
                    },
                    next_internal_id: self.next_internal_id + 1,
                    ..self
                })
            },
        }
    }

    /// The state after an upsert, whose failure leaves the state as it was.
    pub open spec fn upserted(self, id: Seq<char>, values: Seq<u32>, metadata: Option<Value>) -> IndexModel {
        match self.upsert(id, values, metadata) {
            Ok(m) => m,
            Err(_) => self,
        }
    }

    /// Drops the record with this id, if any; the counter stays.
    pub open spec fn delete(self, id: Seq<char>) -> IndexModel {
        if self.has_id(id) {
            IndexModel { records: self.records.remove(self.slot(id)), ..self }
        } else {
            self
        }
    }

    /// The live records' contents, in storage order.
    pub open spec fn exported(self) -> Seq<VectorModel> {
        self.records.map_values(|r: RecordModel| r.content())
    }

    /// The point that a graph hit on this record's internal id yields.
    pub open spec fn point(self, slot: int, score: u32) -> PointModel {
        PointModel {
            id: self.records[slot].id,
            score,
            metadata: self.records[slot].metadata,
        }
    }
}

pub open spec fn has_point_id(points: Seq<PointModel>, id: Seq<char>) -> bool {
    exists|k: int| 0 <= k < points.len() && #[trigger] points[k].id == id
}

/// Graph hits turned into results: in hit order, each hit whose internal id
/// is still bound yields its record, unless that record was already yielded,
/// until `top_k` results are there.
pub open spec fn resolve(m: IndexModel, hits: Seq<Hit>, top_k: nat) -> Seq<PointModel>
    decreases hits.len(),
{
    if hits.len() == 0 {
        Seq::empty()
    } else {
        let prev = resolve(m, hits.drop_last(), top_k);
        let h = hits.last();
        if prev.len() < top_k && m.has_internal(h.internal_id as nat) {
            let slot = m.internal_slot(h.internal_id as nat);
            if has_point_id(prev, m.records[slot].id) {
                prev
            } else {
                prev.push(m.point(slot, h.score))
            }
        } else {
            prev
        }
    }
}

/// A score's place in IEEE-754 total order (the order of `f32::total_cmp`),
/// as an unsigned integer: negative patterns count down from the top of the
/// lower half, non-negative ones count up from the upper half.
pub open spec fn order_key(bits: u32) -> u32 {
    if bits >= 0x8000_0000 {
        (0xFFFF_FFFF - bits) as u32
    } else {
        (bits + 0x8000_0000) as u32
    }
}

/// Slot `a` ranks before slot `b`: a higher score, or an equal score and an
/// earlier slot.
pub open spec fn ranks_before(scores: Seq<u32>, a: int, b: int) -> bool {
    order_key(scores[a]) > order_key(scores[b]) || (order_key(scores[a]) == order_key(scores[b]) && a < b)
}

/// `slots` are the first `top_k` slots (or all of them) in rank order.
pub open spec fn is_ranking(scores: Seq<u32>, top_k: nat, slots: Seq<int>) -> bool {
    &&& slots.len() == if top_k < scores.len() { top_k } else { scores.len() }
    &&& forall|j: int| 0 <= j < slots.len() ==> 0 <= #[trigger] slots[j] < scores.len()
    &&& forall|i: int, j: int| 0 <= i < j < slots.len() ==> ranks_before(scores, #[trigger] slots[i], #[trigger] slots[j])
    &&& forall|j: int, u: int| 0 <= j < slots.len() && 0 <= u < scores.len() && !slots.contains(u)
        ==> #[trigger] ranks_before(scores, slots[j], u)
}

/// How many entries are set.
pub open spec fn count_set(s: Seq<bool>) -> nat
    decreases s.len(),
{
    if s.len() == 0 {
        0
    } else {
        count_set(s.drop_last()) + if s.last() { 1nat } else { 0nat }
    }
}

proof fn lemma_count_set_update(s: Seq<bool>, i: int)
    requires
        0 <= i < s.len(),
        !s[i],
    ensures
        count_set(s.update(i, true)) == count_set(s) + 1,
    decreases s.len(),
{
    let t = s.update(i, true);
    if i < s.len() - 1 {
        assert(t.drop_last() =~= s.drop_last().update(i, true));
        lemma_count_set_update(s.drop_last(), i);
    } else {
        assert(t.drop_last() =~= s.drop_last());
    }
}

proof fn lemma_count_set_all(s: Seq<bool>)
    requires
        forall|i: int| 0 <= i < s.len() ==> s[i],
    ensures
        count_set(s) == s.len(),
    decreases s.len(),
{
    if s.len() > 0 {
        lemma_count_set_all(s.drop_last());
    }
}

proof fn lemma_count_prefix_zero(s: Seq<bool>, k: int)
    requires
        0 <= k <= s.len(),
        forall|i: int| 0 <= i < s.len() ==> !s[i],
    ensures
        count_set(s.take(k)) == 0,
    decreases k,
{
    if k > 0 {
        assert(s.take(k).drop_last() =~= s.take(k - 1));
        lemma_count_prefix_zero(s, k - 1);
    }
}

/// A candidate from the similarity graph: the internal id it was inserted
/// under and its similarity, as a single-precision bit pattern.
#[derive(Clone, Copy, Debug, PartialEq, Eq, Structural)]
pub struct Hit {
    pub internal_id: usize,
    pub score: u32,
}

/// What a query asks of the similarity graph.
#[derive(Clone, Copy, Debug, PartialEq, Eq, Structural)]
pub struct SearchRequest {
    /// Number of candidates to fetch.
    pub candidates: usize,
    /// Search breadth.
    pub ef: usize,
}

/// Candidates fetched per requested result, to make up for hits on deleted
/// records.
pub const OVERFETCH: usize = 4;

/// Smallest search breadth.
pub const MIN_EF: usize = 64;

/// The graph search for `top_k` results: `top_k * OVERFETCH` candidates
/// (saturating) with breadth `max(top_k, MIN_EF)`.
pub open spec fn search_for(top_k: usize) -> SearchRequest {
    SearchRequest {
        candidates: if top_k * OVERFETCH > usize::MAX { usize::MAX } else { (top_k * OVERFETCH) as usize },
        ef: if top_k > MIN_EF { top_k } else { MIN_EF },
    }
}

/// A query result.
#[derive(Debug)]
pub struct ScoredPoint {
    pub id: String,
    /// Similarity as a single-precision bit pattern; higher is better.
    pub score: u32,
    pub metadata: Option<Value>,
}

impl ScoredPoint {
    pub open spec fn model(&self) -> PointModel {
        PointModel { id: self.id@, score: self.score, metadata: self.metadata }
    }
}

/// A live record as an export hands it out.
#[derive(Debug)]
pub struct ExportedVector {
    pub id: String,
    pub values: Vec<u32>,
    pub metadata: Option<Value>,
}

impl ExportedVector {
    pub open spec fn model(&self) -> VectorModel {
        VectorModel { id: self.id@, values: self.values@, metadata: self.metadata }
    }
}

struct StoredVector {
    id: String,
    values: Vec<u32>,
    metadata: Option<Value>,
    internal_id: usize,
}

impl StoredVector {
    spec fn model(&self) -> RecordModel {
        RecordModel {
            id: self.id@,
            values: self.values@,
            metadata: self.metadata,
            internal_id: self.internal_id as nat,
        }
    }
}

/// The vectors of one collection.
pub struct InMemoryIndex {
    dim: usize,
    records: Vec<StoredVector>,
    /// The slot of each live record, by its internal id.
    slots: HashMapWithView<usize, usize>,
    next_internal_id: usize,
}

impl View for InMemoryIndex {
    type V = IndexModel;

    closed spec fn view(&self) -> IndexModel {
        IndexModel {
            dimension: self.dim as nat,
            records: self.records@.map_values(|r: StoredVector| r.model()),
            next_internal_id: self.next_internal_id as nat,
        }
    }
}

pub fn copy_values(values: &Vec<u32>) -> (r: Vec<u32>)
    ensures
        r@ == values@,
{
    let r = values.clone();
    assert(r@ =~= values@);
    r
}

impl InMemoryIndex {
    pub open spec fn wf(&self) -> bool {
        self@.wf() && self.slots_ok()
    }

    /// The slot map binds exactly the live internal ids, each to its slot.
    pub closed spec fn slots_ok(&self) -> bool {
        &&& forall|k: usize| #[trigger] self.slots@.contains_key(k) ==> {
            &&& self.slots@[k] < self.records@.len()
            &&& self.records@[self.slots@[k] as int].internal_id == k
        }
        &&& forall|i: int| 0 <= i < self.records@.len()
            ==> self.slots@.contains_key(#[trigger] self.records@[i].internal_id)
    }

    /// An empty index for vectors of `dimension` components.
    pub fn new(dimension: usize) -> (r: Result<InMemoryIndex, IndexError>)
        ensures
            dimension == 0 ==> r == Err::<InMemoryIndex, IndexError>(IndexError::InvalidDimension),
            dimension > 0 ==> (r matches Ok(idx) && idx@ == IndexModel::empty(dimension as nat) && idx.wf()),
    {
        if dimension == 0 {
            return Err(IndexError::InvalidDimension);
        }
        broadcast use vstd::std_specs::hash::group_hash_axioms;
        let idx = InMemoryIndex {
            dim: dimension,
            records: Vec::new(),
            slots: HashMapWithView::new(),
            next_internal_id: 0,
        };
        assert(idx@.records =~= Seq::<RecordModel>::empty());
        Ok(idx)
    }

    pub fn dimension(&self) -> (r: usize)
        ensures
            r == self@.dimension,
    {
        self.dim
    }

    pub fn vector_count(&self) -> (r: usize)
        ensures
            r == self@.records.len(),
    {
        self.records.len()
    }

    /// The slot of the record with this id, if any.
    fn find(&self, id: &String) -> (r: Option<usize>)
        requires
            self.wf(),
        ensures
            r matches Some(i) ==> self@.has_id(id@) && i == self@.slot(id@),
            r is None ==> !self@.has_id(id@),
    {
        let mut i: usize = 0;
        while i < self.records.len()
            invariant
                self.wf(),
                i <= self.records@.len(),
                self@.records.len() == self.records@.len(),
                forall|j: int| 0 <= j < i ==> #[trigger] self@.records[j].id != id@,
            decreases self.records@.len() - i,
        {
            if self.records[i].id == *id {
                assert(self@.records[i as int].id == id@);
                assert(self@.has_id(id@));
                let ghost s = self@.slot(id@);
                assert(s == i);
                return Some(i);
            }
            i = i + 1;
        }
        None
    }

    /// The slot of the record bound to this internal id, if any.
    fn find_internal(&self, internal_id: usize) -> (r: Option<usize>)
        requires
            self.wf(),
        ensures
            r matches Some(i) ==> self@.has_internal(internal_id as nat) && i == self@.internal_slot(internal_id as nat),
            r is None ==> !self@.has_internal(internal_id as nat),
    {
        match self.slots.get(&internal_id) {
            Some(slot) => {
                let i: usize = *slot;
                assert(self@.records[i as int].internal_id == internal_id as nat);
                assert(self@.has_internal(internal_id as nat));
                let ghost s = self@.internal_slot(internal_id as nat);
                assert(self@.records[s].internal_id == internal_id as nat);
                assert(s == i);
                Some(i)
            },
            None => {
                assert forall|j: int| 0 <= j < self@.records.len()
                    implies #[trigger] self@.records[j].internal_id != internal_id as nat by {
                    assert(self.slots@.contains_key(self.records@[j].internal_id));
                }
                None
            },
        }
    }

    /// Checks a vector against the dimension and for a zero norm.
    pub fn check_vector(&self, values: &[u32]) -> (r: Result<(), IndexError>)
        ensures
            r == self@.check_vector(values@),
    {
        if values.len() != self.dim {
            return Err(IndexError::DimensionMismatch { expected: self.dim, found: values.len() });
        }
        if degenerate(values) {
            return Err(IndexError::DegenerateVector);
        }
        Ok(())
    }

    /// Stores the record, replacing any record with the same id whole.
    /// Returns the internal id under which the graph must hold `values`.
    pub fn upsert(&mut self, id: String, values: Vec<u32>, metadata: Option<Value>) -> (r: Result<usize, IndexError>)
        requires
            old(self).wf(),
        ensures
            final(self).wf(),
            match old(self)@.upsert(id@, values@, metadata) {
                Ok(m) => final(self)@ == m && r == Ok::<usize, IndexError>(m.records[m.slot(id@)].internal_id as usize),
                Err(e) => final(self)@ == old(self)@ && r == Err::<usize, IndexError>(e),
            },
    {
        let ghost m0 = self@;
        match self.check_vector(values.as_slice()) {
            Err(e) => return Err(e),
            Ok(_) => {},
        }
        if self.next_internal_id == usize::MAX {
            return Err(IndexError::IdSpaceExhausted);
        }
        let internal_id: usize = self.next_internal_id;
        match self.find(&id) {
            Some(i) => {
                let old_internal: usize = self.records[i].internal_id;
                let ghost old_records = self.records@;
                let rec = StoredVector { id, values, metadata, internal_id };
                self.records.set(i, rec);
                self.slots.remove(&old_internal);
                self.slots.insert(internal_id, i);
                self.next_internal_id = internal_id + 1;
                proof {
                    assert forall|k: usize| #[trigger] self.slots@.contains_key(k) implies {
                        &&& self.slots@[k] < self.records@.len()
                        &&& self.records@[self.slots@[k] as int].internal_id == k
                    } by {
                        if k != internal_id {
                            let s = self.slots@[k] as int;
                            assert(old_records[s].internal_id == k);
                            assert(s != i);
                        }
                    }
                    assert forall|j: int| 0 <= j < self.records@.len()
                        implies self.slots@.contains_key(#[trigger] self.records@[j].internal_id) by {
                        if j != i {
                            assert(self.records@[j] == old_records[j]);
                            assert(m0.records[j].internal_id != m0.records[i as int].internal_id);
                        }
                    }
                }
                let ghost m1 = m0.upsert(id@, values@, metadata).unwrap();
                assert(self@.records =~= m1.records);
                assert(self@.slot(id@) == i) by {
                    assert(self@.records[i as int].id == id@);
                }
                Ok(internal_id)
            },
            None => {
                let ghost old_records = self.records@;
                let slot: usize = self.records.len();
                let rec = StoredVector { id, values, metadata, internal_id };
                self.records.push(rec);
                self.slots.insert(internal_id, slot);
                self.next_internal_id = internal_id + 1;
                proof {
                    assert forall|k: usize| #[trigger] self.slots@.contains_key(k) implies {
                        &&& self.slots@[k] < self.records@.len()
                        &&& self.records@[self.slots@[k] as int].internal_id == k
                    } by {
                        if k != internal_id {
                            let s = self.slots@[k] as int;
                            assert(old_records[s].internal_id == k);
                        }
                    }
                    assert forall|j: int| 0 <= j < self.records@.len()
                        implies self.slots@.contains_key(#[trigger] self.records@[j].internal_id) by {
                        if j < slot {
                            assert(self.records@[j] == old_records[j]);
                        }
                    }
                }
                let ghost m1 = m0.upsert(id@, values@, metadata).unwrap();
                assert(self@.records =~= m1.records);
                let ghost last = m0.records.len() as int;
                assert(self@.slot(id@) == last) by {
                    assert(self@.records[last].id == id@);
                }
                Ok(internal_id)
            },
        }
    }

    /// Drops the record with this id; says whether there was one. The
    /// internal id stays used.
    pub fn delete(&mut self, id: &String) -> (r: bool)
        requires
            old(self).wf(),
        ensures
            final(self).wf(),
            r == old(self)@.has_id(id@),
            final(self)@ == old(self)@.delete(id@),
    {
        match self.find(id) {
            Some(i) => {
                let ghost m0 = self@;
                let ghost old_records = self.records@;
                let old_internal: usize = self.records[i].internal_id;
                self.records.remove(i);
                self.slots.remove(&old_internal);
                assert(self@.records =~= m0.records.remove(i as int));
                proof {
                    assert forall|k: usize| #[trigger] self.slots@.contains_key(k) implies {
                        let s = self.slots@[k] as int;
                        &&& s != i
                        &&& s < i ==> self.records@[s].internal_id == k
                        &&& s > i ==> s <= self.records@.len() && self.records@[s - 1].internal_id == k
                    } by {
                        let s = self.slots@[k] as int;
                        assert(old_records[s].internal_id == k);
                        if s > i {
                            assert(self.records@[s - 1] == old_records[s]);
                        }
                    }
                    assert forall|j: int| 0 <= j < self.records@.len() implies {
                        &&& self.slots@.contains_key(#[trigger] self.records@[j].internal_id)
                        &&& self.slots@[self.records@[j].internal_id] == if j < i { j } else { j + 1 }
                    } by {
                        let j0 = if j < i { j } else { j + 1 };
                        assert(self.records@[j] == old_records[j0]);
                        assert(m0.records[j0].internal_id != m0.records[i as int].internal_id);
                        let k = old_records[j0].internal_id;
                        let s = self.slots@[k] as int;
                        assert(old_records[s].internal_id == k);
                        assert(m0.records[s].internal_id == m0.records[j0].internal_id);
                    }
                }
                let mut j: usize = i;
                while j < self.records.len()
                    invariant
                        i <= j <= self.records@.len(),
                        self@ == m0.delete(id@),
                        m0.wf(),
                        forall|k: usize| #[trigger] self.slots@.contains_key(k) ==> {
                            let s = self.slots@[k] as int;
                            &&& s != j
                            &&& s < j ==> self.records@[s].internal_id == k
                            &&& s > j ==> s <= self.records@.len() && self.records@[s - 1].internal_id == k
                        },
                        forall|q: int| 0 <= q < self.records@.len() ==> {
                            &&& self.slots@.contains_key(#[trigger] self.records@[q].internal_id)
                            &&& self.slots@[self.records@[q].internal_id] == if q < j { q } else { q + 1 }
                        },
                    decreases self.records@.len() - j,
                {
                    let key: usize = self.records[j].internal_id;
                    let ghost before = self.slots@;
                    self.slots.insert(key, j);
                    proof {
                        assert(self@.wf());
                        assert forall|k: usize| #[trigger] self.slots@.contains_key(k) implies {
                            let s = self.slots@[k] as int;
                            &&& s != j + 1
                            &&& s < j + 1 ==> self.records@[s].internal_id == k
                            &&& s > j + 1 ==> s <= self.records@.len() && self.records@[s - 1].internal_id == k
                        } by {
                            if k != key {
                                let s = before[k] as int;
                                assert(before.contains_key(k));
                                if s == j + 1 {
                                    assert(self.records@[j as int].internal_id == k);
                                }
                            }
                        }
                        assert forall|q: int| 0 <= q < self.records@.len() implies {
                            &&& self.slots@.contains_key(#[trigger] self.records@[q].internal_id)
                            &&& self.slots@[self.records@[q].internal_id] == if q < j + 1 { q } else { q + 1 }
                        } by {
                            if q != j {
                                assert(self@.records[q].internal_id != self@.records[j as int].internal_id);
                            }
                        }
                    }
                    j = j + 1;
                }
                true
            },
            None => false,
        }
    }

    /// Copies of the live records, in storage order.
    pub fn export_vectors(&self) -> (r: Vec<ExportedVector>)
        ensures
            r@.map_values(|e: ExportedVector| e.model()) == self@.exported(),
    {
        let mut out: Vec<ExportedVector> = Vec::new();
        let mut i: usize = 0;
        while i < self.records.len()
            invariant
                i <= self.records@.len(),
                out@.len() == i,
                self@.records.len() == self.records@.len(),
                forall|j: int| 0 <= j < i ==> (#[trigger] out@[j]).model() == self@.records[j].content(),
            decreases self.records@.len() - i,
        {
            let rec = &self.records[i];
            let e = ExportedVector {
                id: rec.id.clone(),
                values: copy_values(&rec.values),
                metadata: copy_metadata(&rec.metadata),
            };
            out.push(e);
            i = i + 1;
        }
        assert(out@.map_values(|e: ExportedVector| e.model()) =~= self@.exported());
        out
    }

    /// The internal id of each live record, in storage order: the graph
    /// nodes that a rebuilt similarity graph must hold.
    pub fn internal_ids(&self) -> (r: Vec<usize>)
        ensures
            r@.len() == self@.records.len(),
            forall|j: int| 0 <= j < r@.len() ==> r@[j] == self@.records[j].internal_id,
    {
        let mut out: Vec<usize> = Vec::new();
        let mut i: usize = 0;
        while i < self.records.len()
            invariant
                i <= self.records@.len(),
                out@.len() == i,
                self@.records.len() == self.records@.len(),
                forall|j: int| 0 <= j < i ==> out@[j] == self@.records[j].internal_id,
            decreases self.records@.len() - i,
        {
            out.push(self.records[i].internal_id);
            i = i + 1;
        }
        out
    }

    /// Decides what a query needs: an error for a vector of the wrong
    /// dimension or zero norm; no search when `top_k` is zero or the index is
    /// empty; otherwise the graph search to run.
    pub fn plan_query(&self, vector: &[u32], top_k: usize) -> (r: Result<Option<SearchRequest>, IndexError>)
        ensures
            match self@.check_vector(vector@) {
                Err(e) => r == Err::<Option<SearchRequest>, IndexError>(e),
                Ok(_) => if top_k == 0 || self@.records.len() == 0 {
                    r == Ok::<Option<SearchRequest>, IndexError>(None)
                } else {
                    r == Ok::<Option<SearchRequest>, IndexError>(Some(search_for(top_k)))
                },
            },
    {
        match self.check_vector(vector) {
            Err(e) => return Err(e),
            Ok(_) => {},
        }
        if top_k == 0 || self.records.len() == 0 {
            return Ok(None);
        }
        let candidates: usize = if top_k > usize::MAX / OVERFETCH { usize::MAX } else { top_k * OVERFETCH };
        let ef: usize = if top_k > MIN_EF { top_k } else { MIN_EF };
        Ok(Some(SearchRequest { candidates, ef }))
    }

    /// Exact search: the `top_k` live records with the highest scores, best
    /// first, ties going to the earlier record. `scores[i]` is the similarity
    /// of the `i`-th exported record to the query.
    pub fn rank_exact(&self, scores: &[u32], top_k: usize) -> (r: Vec<ScoredPoint>)
        requires
            self.wf(),
            scores@.len() == self@.records.len(),
        ensures
            exists|slots: Seq<int>| {
                &&& is_ranking(scores@, top_k as nat, slots)
                &&& r@.map_values(|p: ScoredPoint| p.model())
                    == slots.map_values(|s: int| self@.point(s, scores@[s]))
            },
    {
        let n: usize = scores.len();
        let m: usize = if top_k < n { top_k } else { n };
        let mut chosen: Vec<bool> = Vec::new();
        let mut c: usize = 0;
        while c < n
            invariant
                c <= n,
                chosen@.len() == c,
                forall|i: int| 0 <= i < c ==> !chosen@[i],
            decreases n - c,
        {
            chosen.push(false);
            c = c + 1;
        }
        proof {
            assert forall|k: int| 0 <= k <= chosen@.len() implies count_set(chosen@.take(k)) == 0 by {
                lemma_count_prefix_zero(chosen@, k);
            }
            assert(chosen@.take(n as int) =~= chosen@);
        }
        let ghost slots: Seq<int> = Seq::empty();
        let mut out: Vec<ScoredPoint> = Vec::new();
        let mut round: usize = 0;
        while round < m
            invariant
                self.wf(),
                n == scores@.len(),
                n == self@.records.len(),
                self@.records.len() == self.records@.len(),
                m == if top_k < n { top_k } else { n },
                round <= m,
                chosen@.len() == n,
                slots.len() == round,
                out@.len() == round,
                count_set(chosen@) == round,
                forall|u: int| 0 <= u < n ==> (chosen@[u] <==> slots.contains(u)),
                forall|j: int| 0 <= j < round ==> 0 <= #[trigger] slots[j] < n,
                forall|i: int, j: int| 0 <= i < j < round ==> ranks_before(scores@, #[trigger] slots[i], #[trigger] slots[j]),
                forall|j: int, u: int| 0 <= j < round && 0 <= u < n && !slots.contains(u)
                    ==> #[trigger] ranks_before(scores@, slots[j], u),
                forall|j: int| 0 <= j < round ==> (#[trigger] out@[j]).model() == self@.point(slots[j], scores@[slots[j]]),
            decreases m - round,
        {
            proof {
                if forall|u: int| 0 <= u < n ==> chosen@[u] {
                    lemma_count_set_all(chosen@);
                }
            }
            let mut best: usize = n;
            let mut i: usize = 0;
            while i < n
                invariant
                    n == scores@.len(),
                    chosen@.len() == n,
                    i <= n,
                    best == n || (best < n && !chosen@[best as int]),
                    best == n ==> forall|u: int| 0 <= u < i ==> chosen@[u],
                    best < n ==> forall|u: int| 0 <= u < i && !chosen@[u] && u != best
                        ==> ranks_before(scores@, best as int, u),
                    best < n ==> best < i,
                decreases n - i,
            {
                if !chosen[i] {
                    if best == n {
                        best = i;
                    } else {
                        let kb: u32 = if scores[best] >= 0x8000_0000 { 0xFFFF_FFFF - scores[best] } else { scores[best] + 0x8000_0000 };
                        let ki: u32 = if scores[i] >= 0x8000_0000 { 0xFFFF_FFFF - scores[i] } else { scores[i] + 0x8000_0000 };
                        assert(kb == order_key(scores@[best as int]));
                        assert(ki == order_key(scores@[i as int]));
                        if ki > kb {
                            best = i;
                        }
                    }
                }
                i = i + 1;
            }
            let ghost old_chosen = chosen@;
            let ghost old_slots = slots;
            chosen.set(best, true);
            proof {
                lemma_count_set_update(old_chosen, best as int);
                slots = slots.push(best as int);
                assert forall|u: int| 0 <= u < n implies (chosen@[u] <==> slots.contains(u)) by {
                    if u == best as int {
                        assert(slots[round as int] == u);
                    } else if old_slots.contains(u) {
                        let q = choose|q: int| 0 <= q < old_slots.len() && old_slots[q] == u;
                        assert(slots[q] == u);
                    } else if slots.contains(u) {
                        let q = choose|q: int| 0 <= q < slots.len() && slots[q] == u;
                        assert(q < old_slots.len() ==> old_slots[q] == u);
                    }
                }
                assert forall|j: int, u: int| 0 <= j < round + 1 && 0 <= u < n && !slots.contains(u)
                    implies #[trigger] ranks_before(scores@, slots[j], u) by {
                    assert(u != best as int) by {
                        assert(slots[round as int] == best as int);
                    }
                    assert(!old_slots.contains(u)) by {
                        if old_slots.contains(u) {
                            let q = choose|q: int| 0 <= q < old_slots.len() && old_slots[q] == u;
                            assert(slots[q] == u);
                        }
                    }
                    if j < round {
                        assert(slots[j] == old_slots[j]);
                    }
                }
                assert forall|a: int, b: int| 0 <= a < b < round + 1
                    implies ranks_before(scores@, #[trigger] slots[a], #[trigger] slots[b]) by {
                    if b < round {
                        assert(slots[a] == old_slots[a] && slots[b] == old_slots[b]);
                    } else {
                        assert(slots[a] == old_slots[a]);
                        assert(!old_slots.contains(best as int));
                    }
                }
            }
            let rec = &self.records[best];
            out.push(ScoredPoint { id: rec.id.clone(), score: scores[best], metadata: copy_metadata(&rec.metadata) });
            round = round + 1;
        }
        proof {
            assert(is_ranking(scores@, top_k as nat, slots));
            assert(out@.map_values(|p: ScoredPoint| p.model())
                =~= slots.map_values(|s: int| self@.point(s, scores@[s])));
        }
        out
    }

    /// Turns graph hits, best first, into at most `top_k` results: hits on
    /// internal ids that are no longer bound are dropped, and so is a second
    /// hit on the same record.
    pub fn resolve_hits(&self, hits: &[Hit], top_k: usize) -> (r: Vec<ScoredPoint>)
        requires
            self.wf(),
        ensures
            r@.map_values(|p: ScoredPoint| p.model()) == resolve(self@, hits@, top_k as nat),
    {
        let mut out: Vec<ScoredPoint> = Vec::new();
        let mut i: usize = 0;
        while i < hits.len()
            invariant
                self.wf(),
                i <= hits@.len(),
                self@.records.len() == self.records@.len(),
                out@.map_values(|p: ScoredPoint| p.model()) == resolve(self@, hits@.take(i as int), top_k as nat),
            decreases hits@.len() - i,
        {
            let ghost prev = out@.map_values(|p: ScoredPoint| p.model());
            assert(hits@.take(i + 1).drop_last() =~= hits@.take(i as int));
            let h = hits[i];
            if out.len() < top_k {
                match self.find_internal(h.internal_id) {
                    Some(s) => {
                        let mut seen = false;
                        let mut k: usize = 0;
                        while k < out.len()
                            invariant
                                k <= out@.len(),
                                prev == out@.map_values(|p: ScoredPoint| p.model()),
                                seen == exists|q: int| 0 <= q < k && #[trigger] prev[q].id == self@.records[s as int].id,
                                self@.records.len() == self.records@.len(),
                                s < self.records@.len(),
                            decreases out@.len() - k,
                        {
                            if out[k].id == self.records[s].id {
                                assert(prev[k as int].id == self@.records[s as int].id);
                                seen = true;
                            }
                            k = k + 1;
                        }
                        assert(seen == has_point_id(prev, self@.records[s as int].id));
                        if !seen {
                            let rec = &self.records[s];
                            let p = ScoredPoint {
                                id: rec.id.clone(),
                                score: h.score,
                                metadata: copy_metadata(&rec.metadata),
                            };
                            out.push(p);
                            assert(out@.map_values(|p: ScoredPoint| p.model()) =~= prev.push(self@.point(s as int, h.score)));
                        }
                    },
                    None => {},
                }
            }
            i = i + 1;
        }
        assert(hits@.take(hits@.len() as int) =~= hits@);
        out
    }
}

} // verus!
