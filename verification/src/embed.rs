//! An index for a page to embed: searches, traces and exports of one index,
//! with errors as text.
use crate::codec::{Fault, SnapshotError};
use crate::distance::DistanceMetric;
use crate::error::VexError;
use crate::float::{arith_of, is_arithmetic, FloatOp};
use crate::format::{decoded, encoded, portable, AnyView};
use crate::graph::held_payload;
use crate::hnsw::{HnswConfig, HnswIndex, HnswView, SearchTrace};
use crate::index::{search_outcome, Index, Record, SearchResult};
use crate::json::{json_parsed, JsonView, Payload};
use crate::payload::{optional_filter, Filter};
use crate::persist::AnyIndex;
use crate::records::{exact_hits, live_list, live_points, live_records, Point};
use crate::routes::{copied_payload, hit_views, HitView};
use crate::text::joined;
use crate::vector::{copied, Vector, VectorId};
use vstd::prelude::*;
use vstd::string::{StringExecFns, StringSliceAdditionalSpecFns};

verus! {

/// One hit of a search.
#[derive(Debug)]
pub struct Hit {
    pub id: u64,
    pub distance: u32,
    pub payload: Option<Payload>,
}

impl View for Hit {
    type V = HitView;

    open spec fn view(&self) -> HitView {
        HitView { id: self.id, distance: self.distance, payload: held_payload(self.payload) }
    }
}

/// Hits as mathematics.
pub open spec fn hits_view(hits: Seq<Hit>) -> Seq<HitView> {
    hits.map_values(|h: Hit| h@)
}

/// The hits of a search and the record of its walk.
#[derive(Debug)]
pub struct TracedHits {
    pub hits: Vec<Hit>,
    pub trace: SearchTrace,
}

/// What is told of an index.
#[derive(Debug)]
pub struct Stats {
    pub index: &'static str,
    pub metric: String,
    pub dim: usize,
    pub count: usize,
}

/// The embedded index.
#[derive(Debug)]
pub struct Inner {
    pub index: AnyIndex,
}

/// The vectors of points, one behind the other.
pub open spec fn flattened(points: Seq<Point>) -> Seq<u32>
    decreases points.len(),
{
    if points.len() == 0 {
        seq![]
    } else {
        flattened(points.drop_last()) + points.last().record.vector
    }
}

/// The answer to a search as text: hits, or the message of the error.
pub open spec fn told(
    records: Map<u64, Record>,
    outcome: Result<Seq<SearchResult>, VexError>,
) -> Result<Seq<HitView>, Seq<char>> {
    match outcome {
        Ok(hits) => Ok(hit_views(records, hits, true)),
        Err(e) => Err(e.text()),
    }
}

/// The payload that a JSON text stands for.
pub open spec fn payload_of_text(text: Option<&str>) -> Result<Option<JsonView>, Seq<char>> {
    match text {
        None => Ok(None),
        Some(t) => match json_parsed(t.spec_bytes()) {
            Ok(value) => Ok(Some(value)),
            Err(message) => Err("payload is not valid JSON: "@ + message),
        },
    }
}

/// What storing a vector comes to: nothing, or the message of the error.
pub open spec fn add_outcome(
    v: AnyView,
    id: u64,
    vector: Seq<u32>,
    payload: Result<Option<JsonView>, Seq<char>>,
) -> Result<Option<JsonView>, Seq<char>> {
    match payload {
        Err(message) => Err(message),
        Ok(value) => if vector.len() != v.dim() {
            Err(
                VexError::DimensionMismatch {
                    expected: v.dim(),
                    actual: vector.len() as usize,
                }.text(),
            )
        } else if live_records(v.points()).contains_key(id) {
            Err(VexError::DuplicateId(VectorId(id)).text())
        } else {
            Ok(value)
        },
    }
}

fn read_payload(text: Option<&str>) -> (r: Result<Option<Payload>, String>)
    ensures
        match r {
            Ok(payload) => payload_of_text(text) == Ok::<Option<JsonView>, Seq<char>>(
                held_payload(payload),
            ),
            Err(message) => payload_of_text(text) == Err::<Option<JsonView>, Seq<char>>(message@),
        },
{
    match text {
        None => Ok(None),
        Some(t) => match Payload::parse(t.as_bytes()) {
            Ok(payload) => Ok(Some(payload)),
            Err(message) => Err(joined("payload is not valid JSON: ", message.as_str())),
        },
    }
}

impl Inner {
    /// The index that a snapshot holds.
    pub fn from_snapshot(bytes: &[u8]) -> (r: Result<Self, SnapshotError>)
        ensures
            match r {
                Ok(inner) => inner.index.wf() && decoded(bytes@) == Ok::<AnyView, Fault>(
                    inner.index@,
                ),
                Err(e) => decoded(bytes@) == Err::<AnyView, Fault>(e@),
            },
    {
        let index = AnyIndex::read_from(bytes)?;
        Ok(Inner { index })
    }

    /// An HNSW index that holds nothing.
    pub fn new_hnsw(dim: usize, metric: &str, m: usize, ef_construction: usize) -> (r: Result<
        Self,
        String,
    >)
        ensures
            match r {
                Ok(inner) => {
                    &&& inner.index.wf()
                    &&& DistanceMetric::parsed(metric@) matches Ok(parsed) && inner.index@
                        == AnyView::Hnsw(
                        HnswView {
                            config: HnswConfig {
                                m,
                                ef_construction,
                                ef_search: 64,
                                seed: 0x5eed_cafe_f00d_d00d,
                            },
                            metric: parsed,
                            dim,
                            nodes: seq![],
                            entry: None,
                            max_layer: 0,
                            rng: 0x5eed_cafe_f00d_d00d,
                        },
                    )
                },
                Err(message) => DistanceMetric::parsed(metric@) == Err::<
                    DistanceMetric,
                    Seq<char>,
                >(message@),
            },
    {
        let parsed = DistanceMetric::from_str(metric)?;
        let base = HnswConfig::default();
        let config = HnswConfig {
            m,
            ef_construction,
            ef_search: base.ef_search,
            seed: base.seed,
        };
        Ok(Inner { index: AnyIndex::Hnsw(HnswIndex::new(dim, parsed, config)) })
    }

    /// Stores a vector with an optional payload in JSON.
    pub fn add<F: Fn(FloatOp, u64, u64) -> u64>(
        &mut self,
        fpu: &F,
        id: u64,
        vector: &[u32],
        payload_json: Option<&str>,
    ) -> (r: Result<(), String>)
        requires
            old(self).index.wf(),
            is_arithmetic(*fpu),
            vector@.len() == old(self).index@.dim() && !live_records(
                old(self).index@.points(),
            ).contains_key(id) ==> old(self).index.ready_for(arith_of(*fpu), 1),
        ensures
            final(self).index.wf(),
            ({
                let was = old(self).index@;
                let outcome = add_outcome(was, id, vector@, payload_of_text(payload_json));
                match r {
                    Ok(()) => outcome matches Ok(payload) && final(self).index@ == was.inserted(
                        arith_of(*fpu),
                        id,
                        vector@,
                        payload,
                    ) && final(self).index.records() == old(self).index.records().insert(
                        id,
                        Record { vector: vector@, payload },
                    ),
                    Err(message) => outcome == Err::<Option<JsonView>, Seq<char>>(message@)
                        && *final(self) == *old(self),
                }
            }),
    {
        let payload = read_payload(payload_json)?;
        let vector = match Vector::new(copied(vector), self.index.dim()) {
            Ok(vector) => vector,
            Err(e) => return Err(e.message()),
        };
        match self.index.add_with_payload(fpu, VectorId(id), vector, payload) {
            Ok(()) => Ok(()),
            Err(e) => Err(e.message()),
        }
    }

    fn to_hits(&self, results: &Vec<SearchResult>) -> (r: Vec<Hit>)
        requires
            self.index.wf(),
            forall|i: int|
                #![trigger results@[i]]
                0 <= i < results@.len() ==> self.index.records().contains_key(results@[i].id.0),
        ensures
            hits_view(r@) == hit_views(self.index.records(), results@, true),
    {
        let ghost goal = hit_views(self.index.records(), results@, true);
        let mut hits: Vec<Hit> = Vec::new();
        let mut i: usize = 0;
        while i < results.len()
            invariant
                self.index.wf(),
                goal == hit_views(self.index.records(), results@, true),
                i <= results@.len(),
                hits@.len() == i,
                forall|j: int|
                    #![trigger results@[j]]
                    0 <= j < results@.len() ==> self.index.records().contains_key(
                        results@[j].id.0,
                    ),
                forall|j: int| 0 <= j < i ==> (#[trigger] hits@[j])@ == goal[j],
            decreases results@.len() - i,
        {
            let r = results[i];
            let payload = copied_payload(self.index.payload(r.id));
            let hit = Hit { id: r.id.0, distance: r.distance, payload };
            assert(hit@ == goal[i as int]);
            hits.push(hit);
            i = i + 1;
        }
        assert(hits_view(hits@) =~= goal);
        hits
    }

    /// Searches with an optional beam width and an optional filter.
    pub fn search<F: Fn(FloatOp, u64, u64) -> u64>(
        &self,
        fpu: &F,
        query: &[u32],
        k: usize,
        ef: Option<usize>,
        filter: Option<&Filter>,
    ) -> (r: Result<Vec<Hit>, String>)
        requires
            self.index.wf(),
            is_arithmetic(*fpu),
        ensures
            ({
                let v = self.index@;
                let hits = v.hits(arith_of(*fpu), query@, k, ef, optional_filter(filter));
                let answer = told(
                    live_records(v.points()),
                    search_outcome(v.dim(), query@, k, hits),
                );
                match r {
                    Ok(found) => answer == Ok::<Seq<HitView>, Seq<char>>(hits_view(found@)),
                    Err(message) => answer == Err::<Seq<HitView>, Seq<char>>(message@),
                }
            }),
    {
        match self.index.search_opts(fpu, query, k, ef, filter) {
            Ok(results) => Ok(self.to_hits(&results)),
            Err(e) => Err(e.message()),
        }
    }

    /// Searches an HNSW index and gives the record of the walk too. The hits
    /// are those of [`Inner::search`] with the same arguments.
    pub fn search_trace<F: Fn(FloatOp, u64, u64) -> u64>(
        &self,
        fpu: &F,
        query: &[u32],
        k: usize,
        ef: Option<usize>,
        filter: Option<&Filter>,
    ) -> (r: Result<TracedHits, String>)
        requires
            self.index.wf(),
            is_arithmetic(*fpu),
        ensures
            match self.index@ {
                AnyView::Flat(_) => r matches Err(message) && message@
                    == "search_trace requires an hnsw index (flat has no traversal)"@,
                AnyView::Hnsw(v) => {
                    let ar = arith_of(*fpu);
                    let fv = optional_filter(filter);
                    let width = match ef {
                        Some(width) => width,
                        None => v.config.ef_search,
                    };
                    let answer = told(
                        live_records(v.points()),
                        search_outcome(
                            v.dim,
                            query@,
                            k,
                            self.index@.hits(ar, query@, k, ef, fv),
                        ),
                    );
                    match r {
                        Ok(traced) => answer == Ok::<Seq<HitView>, Seq<char>>(
                            hits_view(traced.hits@),
                        ) && traced.trace@ == v.trace(ar, query@, k, width, fv),
                        Err(message) => answer == Err::<Seq<HitView>, Seq<char>>(message@),
                    }
                },
            },
    {
        match &self.index {
            AnyIndex::Flat(_) => Err(
                String::from_str("search_trace requires an hnsw index (flat has no traversal)"),
            ),
            AnyIndex::Hnsw(h) => {
                let width: usize = match ef {
                    Some(width) => width,
                    None => h.config().ef_search,
                };
                match h.search_traced(fpu, query, k, width, filter) {
                    Ok((results, trace)) => {
                        proof {
                            crate::hnsw::lemma_found(
                                h@,
                                arith_of(*fpu),
                                query@,
                                k,
                                width,
                                optional_filter(filter),
                            );
                        }
                        Ok(TracedHits { hits: self.to_hits(&results), trace })
                    },
                    Err(e) => Err(e.message()),
                }
            },
        }
    }

    /// Searches by looking at every live vector: the exact answer.
    pub fn search_exact<F: Fn(FloatOp, u64, u64) -> u64>(
        &self,
        fpu: &F,
        query: &[u32],
        k: usize,
        filter: Option<&Filter>,
    ) -> (r: Result<Vec<Hit>, String>)
        requires
            self.index.wf(),
            is_arithmetic(*fpu),
        ensures
            ({
                let v = self.index@;
                let hits = exact_hits(
                    v.points(),
                    v.metric(),
                    arith_of(*fpu),
                    query@,
                    k as int,
                    optional_filter(filter),
                );
                let answer = told(
                    live_records(v.points()),
                    search_outcome(v.dim(), query@, k, hits),
                );
                match r {
                    Ok(found) => answer == Ok::<Seq<HitView>, Seq<char>>(hits_view(found@)),
                    Err(message) => answer == Err::<Seq<HitView>, Seq<char>>(message@),
                }
            }),
    {
        let outcome = match &self.index {
            AnyIndex::Hnsw(h) => h.search_exact(fpu, query, k, filter),
            AnyIndex::Flat(i) => i.search_filtered(fpu, query, k, filter),
        };
        match outcome {
            Ok(results) => {
                proof {
                    self.index.lemma_unique_live();
                    crate::records::lemma_exact_hits(
                        self.index@.points(),
                        self.index@.metric(),
                        arith_of(*fpu),
                        query@,
                        k as int,
                        optional_filter(filter),
                    );
                }
                Ok(self.to_hits(&results))
            },
            Err(e) => Err(e.message()),
        }
    }

    /// The ids of the live vectors, in the order in which they are stored.
    pub fn export_ids(&self) -> (r: Vec<u64>)
        requires
            self.index.wf(),
        ensures
            r@ == live_points(self.index@.points()).map_values(|p: Point| p.id),
    {
        let live = self.index.iter_live();
        let ghost points = live_list(live@);
        let mut ids: Vec<u64> = Vec::new();
        let mut i: usize = 0;
        while i < live.len()
            invariant
                points == live_list(live@),
                i <= live@.len(),
                ids@ == points.take(i as int).map_values(|p: Point| p.id),
            decreases live@.len() - i,
        {
            ids.push(live[i].0.0);
            assert(ids@ =~= points.take(i as int + 1).map_values(|p: Point| p.id));
            i = i + 1;
        }
        assert(points.take(i as int) =~= points);
        ids
    }

    /// The live vectors, one behind the other, in the order of
    /// [`Inner::export_ids`].
    pub fn export_vectors(&self) -> (r: Vec<u32>)
        requires
            self.index.wf(),
        ensures
            r@ == flattened(live_points(self.index@.points())),
    {
        let live = self.index.iter_live();
        let ghost points = live_list(live@);
        let mut out: Vec<u32> = Vec::new();
        let mut i: usize = 0;
        assert(points.take(0) =~= seq![]);
        while i < live.len()
            invariant
                points == live_list(live@),
                i <= live@.len(),
                out@ == flattened(points.take(i as int)),
            decreases live@.len() - i,
        {
            let ghost was = out@;
            let row = live[i].1.as_slice();
            out.extend_from_slice(row);
            assert(points.take(i as int + 1).drop_last() =~= points.take(i as int));
            assert(out@ =~= was + row@);
            i = i + 1;
        }
        assert(points.take(i as int) =~= points);
        out
    }

    /// The vector with an id.
    pub fn vector_of(&self, id: u64) -> (r: Option<Vec<u32>>)
        requires
            self.index.wf(),
        ensures
            match r {
                Some(v) => self.index.records().contains_key(id) && self.index.records()[id].vector
                    == v@,
                None => !self.index.records().contains_key(id),
            },
    {
        match self.index.vector(VectorId(id)) {
            Some(v) => Some(copied(v.as_slice())),
            None => None,
        }
    }

    /// The payload of the vector with an id.
    pub fn payload_of(&self, id: u64) -> (r: Option<Payload>)
        requires
            self.index.wf(),
        ensures
            match r {
                Some(p) => self.index.records().contains_key(id)
                    && self.index.records()[id].payload == Some(p@),
                None => self.index.records().contains_key(id)
                    ==> self.index.records()[id].payload is None,
            },
    {
        copied_payload(self.index.payload(VectorId(id)))
    }

    /// What is told of the index.
    pub fn stats(&self) -> (r: Stats)
        requires
            self.index.wf(),
        ensures
            r.index@ == self.index@.kind_name(),
            r.metric@ == self.index@.metric().name(),
            r.dim == self.index@.dim(),
            r.count == self.index.records().dom().len(),
    {
        Stats {
            index: self.index.kind_name(),
            metric: self.index.metric().name_text(),
            dim: self.index.dim(),
            count: self.index.len(),
        }
    }

    /// The snapshot of the index.
    pub fn snapshot_bytes(&self) -> (r: Result<Vec<u8>, SnapshotError>)
        requires
            self.index.wf(),
        ensures
            match r {
                Ok(bytes) => encoded(self.index@).fault is None && bytes@ == encoded(
                    self.index@,
                ).bytes,
                Err(e) => encoded(self.index@).fault == Some(e@),
            },
            r is Ok && portable(self.index@) ==> decoded(r->Ok_0@) == Ok::<AnyView, Fault>(
                self.index@,
            ),
    {
        let mut bytes: Vec<u8> = Vec::new();
        self.index.write_to(&mut bytes)?;
        assert(bytes@ =~= encoded(self.index@).bytes);
        assert(bytes@ =~= encoded(self.index@).bytes + seq![]);
        Ok(bytes)
    }
}

} // verus!
