//! Building indexes from records, and measuring recall on synthetic vectors.
use crate::distance::DistanceMetric;
use crate::error::VexError;
use crate::flat::{FlatIndex, FlatView};
use crate::float::{
    arith_of, exact_single, is_arithmetic, single, single_op, small_integer_to_single, Arith,
    FloatOp, ONE, TWO, TWO_POW_24,
};
use crate::format::AnyView;
use crate::graph::held_payload;
use crate::hnsw::{HnswConfig, HnswIndex, HnswView};
use crate::index::{search_outcome, Index, Record, SearchResult};
use crate::json::Payload;
use crate::laws::law_recall_is_at_most_one;
use crate::persist::AnyIndex;
use crate::rng::{lemma_state_after_sum, next_state, scrambled, splitmix, state_after};
use crate::text::{decimal, joined, same_text, with_number};
use crate::vector::{copied, Vector, VectorId};
use vstd::prelude::*;
use vstd::string::StringExecFns;

verus! {

/// The empty index that a name of an index type stands for.
pub open spec fn index_of_kind(
    kind: Seq<char>,
    dim: usize,
    metric: DistanceMetric,
    m: usize,
    ef_construction: usize,
) -> Result<AnyView, Seq<char>> {
    if kind == "flat"@ {
        Ok(AnyView::Flat(FlatView { metric, dim, entries: seq![] }))
    } else if kind == "hnsw"@ {
        Ok(
            AnyView::Hnsw(
                HnswView {
                    config: HnswConfig {
                        m,
                        ef_construction,
                        ef_search: 64,
                        seed: 0x5eed_cafe_f00d_d00d,
                    },
                    metric,
                    dim,
                    nodes: seq![],
                    entry: None,
                    max_layer: 0,
                    rng: 0x5eed_cafe_f00d_d00d,
                },
            ),
        )
    } else {
        Err("unknown index type: "@ + kind + " (expected flat|hnsw)"@)
    }
}

/// An index that holds nothing, of the type that is asked for by name.
pub fn new_index(
    kind: &str,
    dim: usize,
    metric: DistanceMetric,
    m: usize,
    ef_construction: usize,
) -> (r: Result<AnyIndex, String>)
    ensures
        match r {
            Ok(index) => index.wf() && index_of_kind(kind@, dim, metric, m, ef_construction)
                == Ok::<AnyView, Seq<char>>(index@),
            Err(message) => index_of_kind(kind@, dim, metric, m, ef_construction) == Err::<
                AnyView,
                Seq<char>,
            >(message@),
        },
{
    if same_text(kind, "flat") {
        return Ok(AnyIndex::Flat(FlatIndex::new(dim, metric)));
    }
    if same_text(kind, "hnsw") {
        let base = HnswConfig::default();
        let config = HnswConfig {
            m,
            ef_construction,
            ef_search: base.ef_search,
            seed: base.seed,
        };
        return Ok(AnyIndex::Hnsw(HnswIndex::new(dim, metric, config)));
    }
    let head = joined("unknown index type: ", kind);
    Err(joined(head.as_str(), " (expected flat|hnsw)"))
}

/// Why a record could not be stored: in which step, and the index's error.
#[derive(Debug)]
pub struct RecordError {
    pub step: String,
    pub cause: VexError,
}

/// Stores the record of a line.
pub fn add_record<I: Index, F: Fn(FloatOp, u64, u64) -> u64>(
    index: &mut I,
    fpu: &F,
    line: u64,
    id: u64,
    vector: Vec<u32>,
    payload: Option<Payload>,
) -> (r: Result<(), RecordError>)
    requires
        old(index).wf(),
        is_arithmetic(*fpu),
        vector@.len() == old(index).spec_dim() && !old(index).records().contains_key(id)
            ==> old(index).ready_for(arith_of(*fpu), 1),
    ensures
        final(index).wf(),
        final(index).spec_dim() == old(index).spec_dim(),
        match r {
            Ok(()) => {
                &&& vector@.len() == old(index).spec_dim()
                &&& !old(index).records().contains_key(id)
                &&& old(index).stored(
                    arith_of(*fpu),
                    id,
                    vector@,
                    held_payload(payload),
                    *final(index),
                )
                &&& final(index).records() == old(index).records().insert(
                    id,
                    Record { vector: vector@, payload: held_payload(payload) },
                )
            },
            Err(e) => {
                &&& *final(index) == *old(index)
                &&& if vector@.len() != old(index).spec_dim() {
                    &&& e.step@ == "validating vector at line "@ + decimal(line as nat)
                    &&& e.cause == (VexError::DimensionMismatch {
                        expected: old(index).spec_dim(),
                        actual: vector@.len() as usize,
                    })
                } else {
                    &&& old(index).records().contains_key(id)
                    &&& e.step@ == "adding vector at line "@ + decimal(line as nat)
                    &&& e.cause == VexError::DuplicateId(VectorId(id))
                }
            },
        },
{
    let vector = match Vector::new(vector, index.dim()) {
        Ok(vector) => vector,
        Err(cause) => return Err(
            RecordError { step: with_number("validating vector at line ", line), cause },
        ),
    };
    match index.add_with_payload(fpu, VectorId(id), vector, payload) {
        Ok(()) => Ok(()),
        Err(cause) => Err(
            RecordError { step: with_number("adding vector at line ", line), cause },
        ),
    }
}

// ---------------------------------------------------------------------------
// Synthetic vectors
// ---------------------------------------------------------------------------

/// The coordinate drawn in a state of the generator: a number between -1 and 1.
pub open spec fn coordinate(ar: Arith, state: u64) -> u32 {
    let even = single(
        ar,
        FloatOp::Div,
        exact_single((scrambled(state) >> 40) as nat) as u32,
        TWO_POW_24,
    );
    single(ar, FloatOp::Sub, single(ar, FloatOp::Mul, even, TWO), ONE)
}

/// The vector drawn from a state of the generator on.
pub open spec fn drawn_vector(ar: Arith, state: u64, dim: nat) -> Seq<u32> {
    Seq::new(dim, |i: int| coordinate(ar, state_after(state, (i + 1) as nat)))
}

/// A deterministic generator of vectors.
#[derive(Debug)]
pub struct Rng(pub u64);

impl Rng {
    /// Draws a coordinate.
    pub fn next_single<F: Fn(FloatOp, u64, u64) -> u64>(&mut self, fpu: &F) -> (r: u32)
        requires
            is_arithmetic(*fpu),
        ensures
            final(self).0 == next_state(old(self).0),
            r == coordinate(arith_of(*fpu), final(self).0),
    {
        let z: u64 = splitmix(&mut self.0);
        let bits: u64 = z >> 40;
        assert(bits < 0x100_0000) by {
            assert(z >> 40 < 0x100_0000) by (bit_vector);
        }
        let n: u32 = small_integer_to_single(bits as u32);
        let even: u32 = single_op(fpu, FloatOp::Div, n, TWO_POW_24);
        let twice: u32 = single_op(fpu, FloatOp::Mul, even, TWO);
        single_op(fpu, FloatOp::Sub, twice, ONE)
    }

    /// Draws a vector.
    pub fn vector<F: Fn(FloatOp, u64, u64) -> u64>(&mut self, fpu: &F, dim: usize) -> (r: Vec<u32>)
        requires
            is_arithmetic(*fpu),
        ensures
            final(self).0 == state_after(old(self).0, dim as nat),
            r@ == drawn_vector(arith_of(*fpu), old(self).0, dim as nat),
    {
        let ghost start = self.0;
        let ghost goal = drawn_vector(arith_of(*fpu), start, dim as nat);
        let mut out: Vec<u32> = Vec::new();
        let mut i: usize = 0;
        while i < dim
            invariant
                is_arithmetic(*fpu),
                i <= dim,
                self.0 == state_after(start, i as nat),
                goal == drawn_vector(arith_of(*fpu), start, dim as nat),
                out@ =~= goal.take(i as int),
            decreases dim - i,
        {
            proof {
                lemma_state_after_sum(start, i as nat, 1);
                reveal_with_fuel(state_after, 2);
            }
            let x: u32 = self.next_single(fpu);
            out.push(x);
            i = i + 1;
        }
        assert(goal.take(dim as int) =~= goal);
        out
    }

    /// Draws vectors.
    pub fn vectors<F: Fn(FloatOp, u64, u64) -> u64>(
        &mut self,
        fpu: &F,
        n: usize,
        dim: usize,
    ) -> (r: Vec<Vec<u32>>)
        requires
            is_arithmetic(*fpu),
        ensures
            final(self).0 == state_after(old(self).0, (n * dim) as nat),
            r@.len() == n,
            forall|j: int|
                0 <= j < n ==> (#[trigger] r@[j])@ == drawn_vector(
                    arith_of(*fpu),
                    state_after(old(self).0, (j * dim) as nat),
                    dim as nat,
                ),
    {
        let ghost start = self.0;
        let mut out: Vec<Vec<u32>> = Vec::new();
        let mut i: usize = 0;
        while i < n
            invariant
                is_arithmetic(*fpu),
                i <= n,
                self.0 == state_after(start, (i * dim) as nat),
                out@.len() == i,
                forall|j: int|
                    0 <= j < i ==> (#[trigger] out@[j])@ == drawn_vector(
                        arith_of(*fpu),
                        state_after(start, (j * dim) as nat),
                        dim as nat,
                    ),
            decreases n - i,
        {
            proof {
                assert(i * dim >= 0 && (i + 1) * dim == i * dim + dim) by (nonlinear_arith)
                    requires
                        i >= 0,
                        dim >= 0,
                ;
                lemma_state_after_sum(start, (i * dim) as nat, dim as nat);
            }
            out.push(self.vector(fpu, dim));
            i = i + 1;
        }
        out
    }
}

/// The vectors and the queries of a benchmark, drawn one after the other by one
/// generator: the vectors first.
pub fn dataset<F: Fn(FloatOp, u64, u64) -> u64>(
    fpu: &F,
    seed: u64,
    n: usize,
    queries: usize,
    dim: usize,
) -> (r: (Vec<Vec<u32>>, Vec<Vec<u32>>))
    requires
        is_arithmetic(*fpu),
    ensures
        r.0@.len() == n,
        forall|i: int|
            0 <= i < n ==> (#[trigger] r.0@[i])@ == drawn_vector(
                arith_of(*fpu),
                state_after(seed, (i * dim) as nat),
                dim as nat,
            ),
        r.1@.len() == queries,
        forall|i: int|
            0 <= i < queries ==> (#[trigger] r.1@[i])@ == drawn_vector(
                arith_of(*fpu),
                state_after(seed, ((n + i) * dim) as nat),
                dim as nat,
            ),
{
    let mut rng = Rng(seed);
    let vectors = rng.vectors(fpu, n, dim);
    let ghost between = rng.0;
    let asked = rng.vectors(fpu, queries, dim);
    proof {
        assert forall|i: int| 0 <= i < queries implies (#[trigger] asked@[i])@ == drawn_vector(
            arith_of(*fpu),
            state_after(seed, ((n + i) * dim) as nat),
            dim as nat,
        ) by {
            lemma_state_after_sum(seed, (n * dim) as nat, (i * dim) as nat);
            assert((n + i) * dim == n * dim + i * dim) by (nonlinear_arith);
            assert(n * dim >= 0 && i * dim >= 0) by (nonlinear_arith)
                requires
                    i >= 0,
                    n >= 0,
                    dim >= 0,
            ;
            assert(between == state_after(seed, (n * dim) as nat));
        }
    }
    (vectors, asked)
}

/// The parameters of the index that is measured: a beam as wide as the number
/// of hits asked for, until a sweep sets its own, and levels that are sampled
/// from the seed of the data.
pub fn measured_config(m: usize, ef_construction: usize, k: usize, seed: u64) -> (r: HnswConfig)
    ensures
        r == (HnswConfig { m, ef_construction, ef_search: k, seed }),
{
    HnswConfig { m, ef_construction, ef_search: k, seed }
}

/// What an index holds after vectors were stored under their places.
pub open spec fn numbered_records(
    records: Map<u64, Record>,
    vectors: Seq<Vec<u32>>,
) -> Map<u64, Record>
    decreases vectors.len(),
{
    if vectors.len() == 0 {
        records
    } else {
        numbered_records(records, vectors.drop_last()).insert(
            (vectors.len() - 1) as u64,
            Record { vector: vectors.last()@, payload: None },
        )
    }
}

proof fn lemma_numbered_free(records: Map<u64, Record>, vectors: Seq<Vec<u32>>, id: u64)
    requires
        vectors.len() <= id,
    ensures
        numbered_records(records, vectors).contains_key(id) == records.contains_key(id),
    decreases vectors.len(),
{
    if vectors.len() > 0 {
        lemma_numbered_free(records, vectors.drop_last(), id);
    }
}

/// Whether states of an index follow one another by storing vectors, each
/// under its place.
#[verifier::opaque]
pub open spec fn fills<I: Index>(states: Seq<I>, ar: Arith, vectors: Seq<Vec<u32>>) -> bool {
    &&& states.len() == vectors.len() + 1
    &&& forall|i: int|
        0 <= i < vectors.len() ==> (#[trigger] states[i]).stored(
            ar,
            i as u64,
            vectors[i]@,
            None,
            states[i + 1],
        )
}

/// Whether `after` is the index, all of it, with vectors stored in it one by
/// one, each under its place.
pub open spec fn filled<I: Index>(
    index: I,
    ar: Arith,
    vectors: Seq<Vec<u32>>,
    after: I,
) -> bool {
    exists|states: Seq<I>| #[trigger]
        fills(states, ar, vectors) && states[0] == index && states[vectors.len() as int] == after
}

/// Stores vectors in an index that holds nothing, each under its place.
pub fn fill<I: Index, F: Fn(FloatOp, u64, u64) -> u64>(
    index: &mut I,
    fpu: &F,
    vectors: &Vec<Vec<u32>>,
) -> (r: Result<(), VexError>)
    requires
        old(index).wf(),
        is_arithmetic(*fpu),
        old(index).ready_for(arith_of(*fpu), vectors@.len()),
        old(index).records() == Map::<u64, Record>::empty(),
        forall|i: int|
            0 <= i < vectors@.len() ==> (#[trigger] vectors@[i])@.len() == old(index).spec_dim(),
    ensures
        r is Ok,
        final(index).wf(),
        final(index).spec_dim() == old(index).spec_dim(),
        final(index).spec_metric() == old(index).spec_metric(),
        filled(*old(index), arith_of(*fpu), vectors@, *final(index)),
        final(index).records() == numbered_records(Map::empty(), vectors@),
{
    let ghost ar = arith_of(*fpu);
    let n: usize = vectors.len();
    let mut i: usize = 0;
    let ghost mut states: Seq<I> = seq![*old(index)];
    proof {
        reveal(fills);
        assert(vectors@.take(0) =~= seq![]);
    }
    while i < n
        invariant
            index.wf(),
            is_arithmetic(*fpu),
            ar == arith_of(*fpu),
            n == vectors@.len(),
            i <= n,
            index.ready_for(ar, (n - i) as nat),
            index.spec_dim() == old(index).spec_dim(),
            index.spec_metric() == old(index).spec_metric(),
            forall|j: int|
                0 <= j < vectors@.len() ==> (#[trigger] vectors@[j])@.len()
                    == old(index).spec_dim(),
            fills(states, ar, vectors@.take(i as int)),
            states[0] == *old(index),
            states[i as int] == *index,
            index.records() == numbered_records(Map::empty(), vectors@.take(i as int)),
        decreases n - i,
    {
        proof {
            index.lemma_ready_for_less(ar, (n - i) as nat, 1);
            lemma_numbered_free(Map::empty(), vectors@.take(i as int), i as u64);
            assert(vectors@.take(i as int + 1).drop_last() =~= vectors@.take(i as int));
        }
        let vector = Vector::from_vec(copied(vectors[i].as_slice()));
        index.add(fpu, VectorId(i as u64), vector)?;
        assert(index.ready_for(ar, (n - i - 1) as nat));
        proof {
            reveal(fills);
            let more = vectors@.take(i as int + 1);
            let longer = states.push(*index);
            assert forall|j: int| 0 <= j < more.len() implies (#[trigger] longer[j]).stored(
                ar,
                j as u64,
                more[j]@,
                None,
                longer[j + 1],
            ) by {
                assert(longer[j] == states[j]);
                if j < i {
                    assert(vectors@.take(i as int)[j] == more[j]);
                    assert(longer[j + 1] == states[j + 1]);
                }
            }
            states = longer;
        }
        i = i + 1;
    }
    assert(vectors@.take(n as int) =~= vectors@);
    Ok(())
}

// ---------------------------------------------------------------------------
// Recall
// ---------------------------------------------------------------------------

/// The ids of hits.
pub open spec fn ids_view(hits: Seq<SearchResult>) -> Seq<u64> {
    hits.map_values(|r: SearchResult| r.id.0)
}

/// The ids of hits.
pub fn ids_of(hits: &Vec<SearchResult>) -> (r: Vec<u64>)
    ensures
        r@ == ids_view(hits@),
{
    let mut ids: Vec<u64> = Vec::new();
    let mut i: usize = 0;
    while i < hits.len()
        invariant
            i <= hits@.len(),
            ids@ == ids_view(hits@.take(i as int)),
        decreases hits@.len() - i,
    {
        ids.push(hits[i].id.0);
        assert(ids@ =~= ids_view(hits@.take(i as int + 1)));
        i = i + 1;
    }
    assert(hits@.take(i as int) =~= hits@);
    ids
}

/// How many of the ids found are in the truth.
pub open spec fn overlap(found: Seq<u64>, truth: Seq<u64>) -> nat
    decreases found.len(),
{
    if found.len() == 0 {
        0
    } else {
        overlap(found.drop_last(), truth) + if truth.contains(found.last()) {
            1nat
        } else {
            0nat
        }
    }
}

/// No more ids overlap than were found.
pub proof fn lemma_overlap_bound(found: Seq<u64>, truth: Seq<u64>)
    ensures
        overlap(found, truth) <= found.len(),
    decreases found.len(),
{
    if found.len() > 0 {
        lemma_overlap_bound(found.drop_last(), truth);
    }
}

fn is_listed(ids: &Vec<u64>, id: u64) -> (r: bool)
    ensures
        r == ids@.contains(id),
{
    let mut i: usize = 0;
    while i < ids.len()
        invariant
            i <= ids@.len(),
            forall|j: int| 0 <= j < i ==> (#[trigger] ids@[j]) != id,
        decreases ids@.len() - i,
    {
        if ids[i] == id {
            return true;
        }
        i = i + 1;
    }
    false
}

/// Counts how many of the ids found are in the truth.
pub fn count_overlap(found: &Vec<u64>, truth: &Vec<u64>) -> (r: usize)
    ensures
        r == overlap(found@, truth@),
{
    let mut hits: usize = 0;
    let mut i: usize = 0;
    assert(found@.take(0) =~= seq![]);
    while i < found.len()
        invariant
            i <= found@.len(),
            hits == overlap(found@.take(i as int), truth@),
            hits <= i,
        decreases found@.len() - i,
    {
        assert(found@.take(i as int + 1).drop_last() =~= found@.take(i as int));
        if is_listed(truth, found[i]) {
            hits = hits + 1;
        }
        i = i + 1;
    }
    assert(found@.take(i as int) =~= found@);
    hits
}

/// The exact hits of every query, by their ids, or the first error.
pub open spec fn truth_of(
    v: FlatView,
    ar: Arith,
    queries: Seq<Vec<u32>>,
    k: usize,
) -> Seq<Seq<u64>> {
    Seq::new(
        queries.len(),
        |i: int|
            ids_view(
                crate::records::exact_hits(v.points(), v.metric, ar, queries[i]@, k as int, None),
            ),
    )
}

/// Ids of several searches.
pub open spec fn id_lists(lists: Seq<Vec<u64>>) -> Seq<Seq<u64>> {
    lists.map_values(|ids: Vec<u64>| ids@)
}

/// Whether the query at a place is the first that cannot be searched for, and
/// fails with an error.
pub open spec fn fails_first(
    dim: usize,
    queries: Seq<Vec<u32>>,
    k: usize,
    i: int,
    e: VexError,
) -> bool {
    &&& 0 <= i < queries.len()
    &&& forall|j: int| 0 <= j < i ==> k > 0 && (#[trigger] queries[j])@.len() == dim
    &&& search_outcome(dim, queries[i]@, k, seq![]) == Err::<Seq<SearchResult>, VexError>(e)
}

/// Searches a flat index for the ground truth of every query.
pub fn ground_truth<F: Fn(FloatOp, u64, u64) -> u64>(
    flat: &FlatIndex,
    fpu: &F,
    queries: &Vec<Vec<u32>>,
    k: usize,
) -> (r: Result<Vec<Vec<u64>>, VexError>)
    requires
        flat.wf(),
        is_arithmetic(*fpu),
    ensures
        match r {
            Ok(truth) => {
                &&& queries@.len() > 0 ==> k > 0
                &&& forall|i: int|
                    0 <= i < queries@.len() ==> (#[trigger] queries@[i])@.len() == flat@.dim
                &&& id_lists(truth@) == truth_of(flat@, arith_of(*fpu), queries@, k)
                &&& forall|i: int| 0 <= i < truth@.len() ==> (#[trigger] truth@[i])@.no_duplicates()
            },
            Err(e) => exists|i: int| fails_first(flat@.dim, queries@, k, i, e),
        },
{
    let ghost ar = arith_of(*fpu);
    let ghost goal = truth_of(flat@, ar, queries@, k);
    let mut truth: Vec<Vec<u64>> = Vec::new();
    let mut i: usize = 0;
    while i < queries.len()
        invariant
            flat.wf(),
            is_arithmetic(*fpu),
            ar == arith_of(*fpu),
            goal == truth_of(flat@, ar, queries@, k),
            i <= queries@.len(),
            truth@.len() == i,
            i > 0 ==> k > 0,
            forall|j: int| 0 <= j < i ==> (#[trigger] queries@[j])@.len() == flat@.dim,
            forall|j: int| 0 <= j < i ==> (#[trigger] truth@[j])@ == goal[j],
            forall|j: int| 0 <= j < i ==> (#[trigger] truth@[j])@.no_duplicates(),
        decreases queries@.len() - i,
    {
        match flat.search(fpu, queries[i].as_slice(), k) {
            Ok(hits) => {
                let ids = ids_of(&hits);
                assert(ids@ == goal[i as int]);
                assert(ids@.no_duplicates());
                truth.push(ids);
            },
            Err(e) => {
                assert(fails_first(flat@.dim, queries@, k, i as int, e));
                return Err(e);
            },
        }
        i = i + 1;
    }
    assert(id_lists(truth@) =~= goal);
    Ok(truth)
}

/// The ids that an HNSW index finds for every query with a beam of width `ef`.
pub open spec fn found_of(
    v: HnswView,
    ar: Arith,
    queries: Seq<Vec<u32>>,
    k: usize,
    ef: usize,
) -> Seq<Seq<u64>> {
    Seq::new(queries.len(), |i: int| ids_view(v.found(ar, queries[i]@, k, ef, None)))
}

/// Searches an HNSW index for every query with a beam of width `ef`.
pub fn sweep<F: Fn(FloatOp, u64, u64) -> u64>(
    hnsw: &HnswIndex,
    fpu: &F,
    queries: &Vec<Vec<u32>>,
    k: usize,
    ef: usize,
) -> (r: Result<Vec<Vec<u64>>, VexError>)
    requires
        hnsw.wf(),
        is_arithmetic(*fpu),
    ensures
        match r {
            Ok(found) => {
                &&& queries@.len() > 0 ==> k > 0
                &&& forall|i: int|
                    0 <= i < queries@.len() ==> (#[trigger] queries@[i])@.len() == hnsw@.dim
                &&& id_lists(found@) == found_of(hnsw@, arith_of(*fpu), queries@, k, ef)
                &&& forall|i: int| 0 <= i < found@.len() ==> (#[trigger] found@[i])@.no_duplicates()
            },
            Err(e) => exists|i: int| fails_first(hnsw@.dim, queries@, k, i, e),
        },
{
    let ghost ar = arith_of(*fpu);
    let ghost goal = found_of(hnsw@, ar, queries@, k, ef);
    let mut found: Vec<Vec<u64>> = Vec::new();
    let mut i: usize = 0;
    while i < queries.len()
        invariant
            hnsw.wf(),
            is_arithmetic(*fpu),
            ar == arith_of(*fpu),
            goal == found_of(hnsw@, ar, queries@, k, ef),
            i <= queries@.len(),
            found@.len() == i,
            i > 0 ==> k > 0,
            forall|j: int| 0 <= j < i ==> (#[trigger] queries@[j])@.len() == hnsw@.dim,
            forall|j: int| 0 <= j < i ==> (#[trigger] found@[j])@ == goal[j],
            forall|j: int| 0 <= j < i ==> (#[trigger] found@[j])@.no_duplicates(),
        decreases queries@.len() - i,
    {
        proof {
            crate::hnsw::lemma_found(hnsw@, ar, queries@[i as int]@, k, ef, None);
        }
        match hnsw.search_with_ef(fpu, queries[i].as_slice(), k, ef) {
            Ok(hits) => {
                let ids = ids_of(&hits);
                assert(ids@ == goal[i as int]);
                assert(ids@.no_duplicates());
                found.push(ids);
            },
            Err(e) => {
                assert(fails_first(hnsw@.dim, queries@, k, i as int, e));
                return Err(e);
            },
        }
        i = i + 1;
    }
    assert(id_lists(found@) =~= goal);
    Ok(found)
}

/// How many ids were found that are in the truth, over several searches.
pub open spec fn total_overlap(found: Seq<Seq<u64>>, truth: Seq<Seq<u64>>) -> nat
    decreases found.len(),
{
    if found.len() == 0 || truth.len() == 0 {
        0
    } else {
        overlap(found[0], truth[0]) + total_overlap(found.drop_first(), truth.drop_first())
    }
}

/// How many ids there are in all.
pub open spec fn total_len(lists: Seq<Seq<u64>>) -> nat
    decreases lists.len(),
{
    if lists.len() == 0 {
        0
    } else {
        lists[0].len() + total_len(lists.drop_first())
    }
}

/// Counts the ids found that are in the truth, and the ids of the truth: the
/// recall is the first over the second.
pub fn recall_counts(found: &Vec<Vec<u64>>, truth: &Vec<Vec<u64>>) -> (r: (u64, u64))
    requires
        total_len(id_lists(found@)) <= u64::MAX,
        total_len(id_lists(truth@)) <= u64::MAX,
    ensures
        r.0 == total_overlap(id_lists(found@), id_lists(truth@)),
        r.1 == total_len(id_lists(truth@)),
        (forall|i: int| 0 <= i < found@.len() ==> (#[trigger] found@[i])@.no_duplicates()) ==> r.0
            <= r.1,
{
    let ghost fs = id_lists(found@);
    let ghost ts = id_lists(truth@);
    proof {
        if forall|i: int| 0 <= i < found@.len() ==> (#[trigger] found@[i])@.no_duplicates() {
            assert forall|i: int| 0 <= i < fs.len() implies (#[trigger] fs[i]).no_duplicates() by {
                assert(fs[i] == found@[i]@);
            }
            law_recall_is_at_most_one(fs, ts);
        }
    }
    let mut hits: u64 = 0;
    let mut i: usize = 0;
    assert(fs.skip(0) =~= fs);
    assert(ts.skip(0) =~= ts);
    while i < found.len() && i < truth.len()
        invariant
            fs == id_lists(found@),
            ts == id_lists(truth@),
            i <= fs.len(),
            i <= ts.len(),
            hits + total_overlap(fs.skip(i as int), ts.skip(i as int)) == total_overlap(fs, ts),
            hits + total_len(fs.skip(i as int)) <= u64::MAX,
        decreases fs.len() - i,
    {
        assert(fs.skip(i as int)[0] == found@[i as int]@);
        assert(ts.skip(i as int)[0] == truth@[i as int]@);
        assert(fs.skip(i as int).drop_first() =~= fs.skip(i as int + 1));
        assert(ts.skip(i as int).drop_first() =~= ts.skip(i as int + 1));
        proof {
            lemma_overlap_bound(fs[i as int], ts[i as int]);
        }
        hits = hits + count_overlap(&found[i], &truth[i]) as u64;
        i = i + 1;
    }
    let mut total: u64 = 0;
    let mut j: usize = 0;
    while j < truth.len()
        invariant
            ts == id_lists(truth@),
            j <= ts.len(),
            total + total_len(ts.skip(j as int)) == total_len(ts),
            total_len(ts) <= u64::MAX,
        decreases ts.len() - j,
    {
        assert(ts.skip(j as int)[0] == truth@[j as int]@);
        assert(ts.skip(j as int).drop_first() =~= ts.skip(j as int + 1));
        total = total + truth[j].len() as u64;
        j = j + 1;
    }
    (hits, total)
}

} // verus!
