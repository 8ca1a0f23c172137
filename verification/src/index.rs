//! What every index does.
use crate::distance::DistanceMetric;
use crate::error::{Result, VexError};
use crate::float::{arith_of, is_arithmetic, total_key, Arith, FloatOp};
use crate::graph::held_payload;
use crate::json::{JsonView, Payload};
use crate::payload::{optional_filter, passes, Filter, FilterView};
use crate::vector::{Vector, VectorId};
use rayon::prelude::{IntoParallelRefIterator, ParallelIterator};
use vstd::prelude::*;

verus! {

/// One hit of a search.
#[derive(Clone, Copy, Debug, PartialEq, Eq, Structural)]
pub struct SearchResult {
    pub id: VectorId,
    /// The distance from the query, by its bit pattern.
    pub distance: u32,
}

/// What an index holds under an id.
#[verifier::ext_equal]
pub struct Record {
    pub vector: Seq<u32>,
    pub payload: Option<JsonView>,
}

/// The ids of the records that pass a filter.
pub open spec fn wanted_ids(
    records: Map<u64, Record>,
    filter: Option<FilterView>,
) -> Set<u64> {
    records.dom().filter(|id: u64| passes(filter, records[id].payload))
}

/// Whether a list of hits is an answer to a query: `k` hits or as many as
/// there are vectors that pass the filter, closest first, no id twice, and
/// each hit a vector of the index that passes the filter, at its distance.
pub open spec fn sound_answer(
    records: Map<u64, Record>,
    metric: DistanceMetric,
    ar: Arith,
    query: Seq<u32>,
    k: int,
    filter: Option<FilterView>,
    hits: Seq<SearchResult>,
) -> bool {
    &&& hits.len() == if k < wanted_ids(records, filter).len() {
        k
    } else {
        wanted_ids(records, filter).len() as int
    }
    &&& forall|i: int, j: int|
        0 <= i < j < hits.len() ==> total_key(hits[i].distance) <= total_key(hits[j].distance)
    &&& forall|i: int, j: int| 0 <= i < j < hits.len() ==> hits[i].id != hits[j].id
    &&& forall|i: int|
        #![trigger hits[i]]
        0 <= i < hits.len() ==> {
            &&& records.contains_key(hits[i].id.0)
            &&& passes(filter, records[hits[i].id.0].payload)
            &&& hits[i].distance == metric.between(ar, query, records[hits[i].id.0].vector)
        }
}

/// What a search comes to: its hits, unless it asks for none or its query has
/// the wrong dimension.
pub open spec fn search_outcome(
    dim: usize,
    query: Seq<u32>,
    k: usize,
    hits: Seq<SearchResult>,
) -> Result<Seq<SearchResult>> {
    if k == 0 {
        Err(VexError::InvalidK)
    } else if query.len() != dim {
        Err(VexError::DimensionMismatch { expected: dim, actual: query.len() as usize })
    } else {
        Ok(hits)
    }
}

/// An index over vectors with payloads.
///
/// - Searching an index that holds nothing, or asking for more than it holds,
///   is no error: an index that holds nothing yields no results, and a `k`
///   above the number of vectors yields all of them. A search yields fewer
///   than `k` results only if fewer vectors pass its filter. The only errors
///   of a search are a `k` of zero and a query of the wrong dimension.
/// - Removing what is not there gives `Ok(false)`.
/// - Results are sorted by distance, closest first, for every metric.
/// - A filtered search returns only what the filter lets through.
pub trait Index: Sized {
    /// The invariant of the index.
    spec fn wf(&self) -> bool;

    /// The dimension of the vectors.
    spec fn spec_dim(&self) -> usize;

    /// The metric of the index.
    spec fn spec_metric(&self) -> DistanceMetric;

    /// The live vectors with their payloads.
    spec fn records(&self) -> Map<u64, Record>;

    /// Whether `n` more vectors fit.
    spec fn ready_for(&self, ar: Arith, n: nat) -> bool;

    /// Whether `after` is the index, all of it, with one more vector.
    spec fn stored(
        &self,
        ar: Arith,
        id: u64,
        vector: Seq<u32>,
        payload: Option<JsonView>,
        after: Self,
    ) -> bool;

    /// Whether `after` is the index, all of it, without the vector with an id
    /// that it holds.
    spec fn dropped(&self, id: u64, after: Self) -> bool;

    /// The hits of a search that is no error.
    spec fn answer(
        &self,
        ar: Arith,
        query: Seq<u32>,
        k: usize,
        filter: Option<FilterView>,
    ) -> Seq<SearchResult>;

    /// Room for vectors is room for fewer.
    proof fn lemma_ready_for_less(&self, ar: Arith, n: nat, fewer: nat)
        requires
            self.ready_for(ar, n),
            fewer <= n,
        ensures
            self.ready_for(ar, fewer),
    ;

    /// Whether `n` more vectors fit.
    fn can_take<F: Fn(FloatOp, u64, u64) -> u64>(&self, fpu: &F, n: usize) -> (r: bool)
        requires
            self.wf(),
            is_arithmetic(*fpu),
        ensures
            r == self.ready_for(arith_of(*fpu), n as nat),
    ;

    /// Stores a vector with an optional payload under an id that is not in
    /// use.
    fn add_with_payload<F: Fn(FloatOp, u64, u64) -> u64>(
        &mut self,
        fpu: &F,
        id: VectorId,
        vector: Vector,
        payload: Option<Payload>,
    ) -> (r: Result<()>)
        requires
            old(self).wf(),
            is_arithmetic(*fpu),
            vector@.len() == old(self).spec_dim() && !old(self).records().contains_key(id.0)
                ==> old(self).ready_for(arith_of(*fpu), 1),
        ensures
            final(self).wf(),
            r == if vector@.len() != old(self).spec_dim() {
                Err::<(), VexError>(
                    VexError::DimensionMismatch {
                        expected: old(self).spec_dim(),
                        actual: vector@.len() as usize,
                    },
                )
            } else if old(self).records().contains_key(id.0) {
                Err(VexError::DuplicateId(id))
            } else {
                Ok(())
            },
            r is Err ==> *final(self) == *old(self),
            r is Ok ==> old(self).stored(
                arith_of(*fpu),
                id.0,
                vector@,
                held_payload(payload),
                *final(self),
            ),
            r is Ok ==> final(self).records() == old(self).records().insert(
                id.0,
                Record { vector: vector@, payload: held_payload(payload) },
            ),
            final(self).spec_dim() == old(self).spec_dim(),
            final(self).spec_metric() == old(self).spec_metric(),
            r is Ok ==> forall|n: nat|
                old(self).ready_for(arith_of(*fpu), n + 1) ==> #[trigger] final(self).ready_for(
                    arith_of(*fpu),
                    n,
                ),
    ;

    /// Stores a vector without a payload.
    fn add<F: Fn(FloatOp, u64, u64) -> u64>(
        &mut self,
        fpu: &F,
        id: VectorId,
        vector: Vector,
    ) -> (r: Result<()>)
        requires
            old(self).wf(),
            is_arithmetic(*fpu),
            vector@.len() == old(self).spec_dim() && !old(self).records().contains_key(id.0)
                ==> old(self).ready_for(arith_of(*fpu), 1),
        ensures
            final(self).wf(),
            r == if vector@.len() != old(self).spec_dim() {
                Err::<(), VexError>(
                    VexError::DimensionMismatch {
                        expected: old(self).spec_dim(),
                        actual: vector@.len() as usize,
                    },
                )
            } else if old(self).records().contains_key(id.0) {
                Err(VexError::DuplicateId(id))
            } else {
                Ok(())
            },
            r is Err ==> *final(self) == *old(self),
            r is Ok ==> old(self).stored(arith_of(*fpu), id.0, vector@, None, *final(self)),
            r is Ok ==> final(self).records() == old(self).records().insert(
                id.0,
                Record { vector: vector@, payload: None },
            ),
            final(self).spec_dim() == old(self).spec_dim(),
            final(self).spec_metric() == old(self).spec_metric(),
            r is Ok ==> forall|n: nat|
                old(self).ready_for(arith_of(*fpu), n + 1) ==> #[trigger] final(self).ready_for(
                    arith_of(*fpu),
                    n,
                ),
    {
        self.add_with_payload(fpu, id, vector, None)
    }

    /// Removes a vector; tells whether there was one.
    fn remove(&mut self, id: VectorId) -> (r: Result<bool>)
        requires
            old(self).wf(),
        ensures
            final(self).wf(),
            r == Ok::<bool, VexError>(old(self).records().contains_key(id.0)),
            final(self).records() == old(self).records().remove(id.0),
            old(self).records().contains_key(id.0) ==> old(self).dropped(id.0, *final(self)),
            final(self).spec_dim() == old(self).spec_dim(),
            final(self).spec_metric() == old(self).spec_metric(),
            !old(self).records().contains_key(id.0) ==> *final(self) == *old(self),
            forall|ar: Arith, n: nat|
                old(self).ready_for(ar, n) ==> #[trigger] final(self).ready_for(ar, n),
    ;

    /// Searches among the vectors that a filter lets through.
    fn search_filtered<F: Fn(FloatOp, u64, u64) -> u64>(
        &self,
        fpu: &F,
        query: &[u32],
        k: usize,
        filter: Option<&Filter>,
    ) -> (r: Result<Vec<SearchResult>>)
        requires
            self.wf(),
            is_arithmetic(*fpu),
        ensures
            match r {
                Ok(hits) => {
                    &&& search_outcome(
                        self.spec_dim(),
                        query@,
                        k,
                        self.answer(arith_of(*fpu), query@, k, optional_filter(filter)),
                    ) == Ok::<Seq<SearchResult>, VexError>(hits@)
                    &&& sound_answer(
                        self.records(),
                        self.spec_metric(),
                        arith_of(*fpu),
                        query@,
                        k as int,
                        optional_filter(filter),
                        hits@,
                    )
                },
                Err(e) => search_outcome(
                    self.spec_dim(),
                    query@,
                    k,
                    self.answer(arith_of(*fpu), query@, k, optional_filter(filter)),
                ) == Err::<Seq<SearchResult>, VexError>(e),
            },
    ;

    /// Searches among all vectors.
    fn search<F: Fn(FloatOp, u64, u64) -> u64>(
        &self,
        fpu: &F,
        query: &[u32],
        k: usize,
    ) -> (r: Result<Vec<SearchResult>>)
        requires
            self.wf(),
            is_arithmetic(*fpu),
        ensures
            match r {
                Ok(hits) => {
                    &&& search_outcome(
                        self.spec_dim(),
                        query@,
                        k,
                        self.answer(arith_of(*fpu), query@, k, None),
                    ) == Ok::<Seq<SearchResult>, VexError>(hits@)
                    &&& sound_answer(
                        self.records(),
                        self.spec_metric(),
                        arith_of(*fpu),
                        query@,
                        k as int,
                        None,
                        hits@,
                    )
                },
                Err(e) => search_outcome(
                    self.spec_dim(),
                    query@,
                    k,
                    self.answer(arith_of(*fpu), query@, k, None),
                ) == Err::<Seq<SearchResult>, VexError>(e),
            },
    {
        self.search_filtered(fpu, query, k, None)
    }

    /// The payload of a live vector, if it has one.
    fn payload(&self, id: VectorId) -> (r: Option<&Payload>)
        requires
            self.wf(),
        ensures
            match r {
                Some(p) => self.records().contains_key(id.0) && self.records()[id.0].payload
                    == Some(p@),
                None => self.records().contains_key(id.0) ==> self.records()[id.0].payload is None,
            },
    ;

    /// A live vector.
    fn vector(&self, id: VectorId) -> (r: Option<&Vector>)
        requires
            self.wf(),
        ensures
            match r {
                Some(v) => self.records().contains_key(id.0) && self.records()[id.0].vector == v@,
                None => !self.records().contains_key(id.0),
            },
    ;

    /// The number of live vectors.
    fn len(&self) -> (r: usize)
        requires
            self.wf(),
        ensures
            r == self.records().dom().len(),
    ;

    /// Whether there are no live vectors.
    fn is_empty(&self) -> (r: bool)
        requires
            self.wf(),
        ensures
            r == (self.records().dom().len() == 0),
    {
        self.len() == 0
    }

    /// The dimension of the vectors.
    fn dim(&self) -> (r: usize)
        requires
            self.wf(),
        ensures
            r == self.spec_dim(),
    ;
}

/// Runs the searches on a thread pool: `par_iter`, `map` and `collect` of
/// rayon's parallel iterators. Claimed: if all searches succeed, their hits
/// come back in the order of the queries; if some fail, the error of one of
/// them comes back, whichever.
#[verifier::external_body]
fn search_all<I: Index + Sync, F: Fn(FloatOp, u64, u64) -> u64 + Sync>(
    index: &I,
    fpu: &F,
    queries: &[Vec<u32>],
    k: usize,
) -> (r: Result<Vec<Vec<SearchResult>>>)
    requires
        index.wf(),
        is_arithmetic(*fpu),
    ensures
        match r {
            Ok(hits) => hits@.len() == queries@.len() && forall|i: int|
                0 <= i < queries@.len() ==> search_outcome(
                    index.spec_dim(),
                    (#[trigger] queries@[i])@,
                    k,
                    index.answer(arith_of(*fpu), queries@[i]@, k, None),
                ) == Ok::<Seq<SearchResult>, VexError>(hits@[i]@),
            Err(e) => exists|i: int|
                0 <= i < queries@.len() && search_outcome(
                    index.spec_dim(),
                    (#[trigger] queries@[i])@,
                    k,
                    index.answer(arith_of(*fpu), queries@[i]@, k, None),
                ) == Err::<Seq<SearchResult>, VexError>(e),
        },
{
    queries.par_iter().map(|q| index.search(fpu, q, k)).collect()
}

/// Runs many queries in parallel over an index that nobody changes meanwhile.
///
/// Succeeds exactly if every query succeeds on its own, and then gives what
/// each gives on its own.
pub fn search_batch<I: Index + Sync, F: Fn(FloatOp, u64, u64) -> u64 + Sync>(
    index: &I,
    fpu: &F,
    queries: &[Vec<u32>],
    k: usize,
) -> (r: Result<Vec<Vec<SearchResult>>>)
    requires
        index.wf(),
        is_arithmetic(*fpu),
    ensures
        r is Ok <==> forall|i: int|
            0 <= i < queries@.len() ==> k > 0 && (#[trigger] queries@[i])@.len()
                == index.spec_dim(),
        match r {
            Ok(hits) => hits@.len() == queries@.len() && forall|i: int|
                0 <= i < queries@.len() ==> (#[trigger] hits@[i])@ == index.answer(
                    arith_of(*fpu),
                    queries@[i]@,
                    k,
                    None,
                ),
            Err(e) => exists|i: int|
                0 <= i < queries@.len() && search_outcome(
                    index.spec_dim(),
                    (#[trigger] queries@[i])@,
                    k,
                    index.answer(arith_of(*fpu), queries@[i]@, k, None),
                ) == Err::<Seq<SearchResult>, VexError>(e),
        },
{
    let r = search_all(index, fpu, queries, k);
    proof {
        match &r {
            Ok(hits) => {
                assert forall|i: int| 0 <= i < queries@.len() implies k > 0 && (
                #[trigger] queries@[i])@.len() == index.spec_dim() by {
                    let answer = index.answer(arith_of(*fpu), queries@[i]@, k, None);
                    assert(search_outcome(index.spec_dim(), queries@[i]@, k, answer) is Ok);
                }
                assert forall|i: int| 0 <= i < queries@.len() implies (#[trigger] hits@[i])@
                    == index.answer(arith_of(*fpu), queries@[i]@, k, None) by {
                    let answer = index.answer(arith_of(*fpu), queries@[i]@, k, None);
                    assert(search_outcome(index.spec_dim(), queries@[i]@, k, answer) is Ok);
                }
            },
            Err(e) => {
                let i = choose|i: int|
                    0 <= i < queries@.len() && search_outcome(
                        index.spec_dim(),
                        (#[trigger] queries@[i])@,
                        k,
                        index.answer(arith_of(*fpu), queries@[i]@, k, None),
                    ) == Err::<Seq<SearchResult>, VexError>(*e);
                assert(k == 0 || queries@[i]@.len() != index.spec_dim());
            },
        }
    }
    r
}

} // verus!
