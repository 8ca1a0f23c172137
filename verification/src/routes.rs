//! What the server answers to each request.
use crate::api::{index_refusal, ApiError, Refusal};
use crate::codec::fault_text;
use crate::distance::DistanceMetric;
use crate::flat::{FlatIndex, FlatView};
use crate::float::{arith_of, is_arithmetic, Arith, FloatOp};
use crate::format::{encoded, portable, storable, AnyView};
use crate::graph::held_payload;
use crate::hnsw::{HnswConfig, HnswIndex, HnswView};
use crate::index::{search_outcome, Index, Record, SearchResult};
use crate::json::{JsonView, Payload};
use crate::payload::{Filter, FilterView};
use crate::persist::AnyIndex;
use crate::records::live_records;
use crate::state::{
    bad_name, lemma_update_named, no_collection, snapshot_file, valid_name, validate_name, AppState,
    Collection, CollectionView, StateView,
};
use crate::text::{decimal, joined, same_text, with_number};
use crate::vector::{Vector, VectorId};
use vstd::prelude::*;
use vstd::string::StringExecFns;

verus! {

/// The most hits that a search may ask for.
pub const MAX_K: usize = 1_024;

/// The widest beam that a request may ask for.
pub const MAX_EF: usize = 100_000;

/// The most points in one batch.
pub const MAX_BATCH: usize = 10_000;

/// The largest dimension of a collection.
pub const MAX_DIM: usize = 65_536;

/// The largest `m` of a collection.
pub const MAX_M: usize = 256;

/// The largest body of a request in bytes (64 MiB).
pub const BODY_LIMIT_BYTES: usize = 0x400_0000;

/// A request for a new collection.
#[derive(Debug)]
pub struct CreateCollection {
    pub dim: usize,
    pub metric: DistanceMetric,
    /// The type of index: `hnsw` or `flat`.
    pub index: String,
    pub m: usize,
    pub ef_construction: usize,
    pub ef_search: usize,
}

impl CreateCollection {
    /// A request that leaves everything but the dimension to the server.
    pub fn with_defaults(dim: usize) -> (r: Self)
        ensures
            r.dim == dim,
            r.metric == DistanceMetric::L2,
            r.index@ == "hnsw"@,
            r.m == 16,
            r.ef_construction == 200,
            r.ef_search == 64,
    {
        CreateCollection {
            dim,
            metric: DistanceMetric::L2,
            index: String::from_str("hnsw"),
            m: HnswConfig::default().m,
            ef_construction: HnswConfig::default().ef_construction,
            ef_search: HnswConfig::default().ef_search,
        }
    }
}

/// A number kept between two bounds.
pub open spec fn kept_between(x: usize, low: usize, high: usize) -> usize {
    if x < low {
        low
    } else if x > high {
        high
    } else {
        x
    }
}

fn clamp(x: usize, low: usize, high: usize) -> (r: usize)
    ensures
        r == kept_between(x, low, high),
{
    if x < low {
        low
    } else if x > high {
        high
    } else {
        x
    }
}

/// The index that a request for a new collection asks for.
pub open spec fn requested_index(req: CreateCollection) -> Result<AnyView, Refusal> {
    if req.dim == 0 || req.dim > MAX_DIM {
        Err(Refusal::BadRequest("dim must be 1..=65536, got "@ + decimal(req.dim as nat)))
    } else if req.index@ == "flat"@ {
        Ok(AnyView::Flat(FlatView { metric: req.metric, dim: req.dim, entries: seq![] }))
    } else if req.index@ == "hnsw"@ {
        if req.m == 0 || req.m > MAX_M {
            Err(Refusal::BadRequest("m must be 1..=256"@))
        } else {
            Ok(
                AnyView::Hnsw(
                    HnswView {
                        config: HnswConfig {
                            m: req.m,
                            ef_construction: kept_between(req.ef_construction, 1, MAX_EF),
                            ef_search: kept_between(req.ef_search, 1, MAX_EF),
                            seed: 0x5eed_cafe_f00d_d00d,
                        },
                        metric: req.metric,
                        dim: req.dim,
                        nodes: seq![],
                        entry: None,
                        max_layer: 0,
                        rng: 0x5eed_cafe_f00d_d00d,
                    },
                ),
            )
        }
    } else {
        Err(
            Refusal::BadRequest(
                "unknown index type '"@ + req.index@ + "' (expected flat|hnsw)"@,
            ),
        )
    }
}

/// The answer to a request for a new collection: the collection, not yet part
/// of the server, or a refusal.
pub open spec fn creation(state: StateView, name: Seq<char>, req: CreateCollection) -> Result<
    CollectionView,
    Refusal,
> {
    if state.read_only {
        Err(Refusal::ReadOnly)
    } else if !valid_name(name) {
        Err(bad_name())
    } else {
        match requested_index(req) {
            Err(refusal) => Err(refusal),
            Ok(index) => if state.collections.contains_key(name) {
                Err(Refusal::Conflict("collection '"@ + name + "' already exists"@))
            } else {
                Ok(CollectionView { name, index, dirty: false })
            },
        }
    }
}

fn new_index(req: &CreateCollection) -> (r: Result<AnyIndex, ApiError>)
    ensures
        match r {
            Ok(index) => index.wf() && requested_index(*req) == Ok::<AnyView, Refusal>(index@),
            Err(e) => requested_index(*req) == Err::<AnyView, Refusal>(e@),
        },
{
    if req.dim == 0 || req.dim > MAX_DIM {
        return Err(
            ApiError::BadRequest(with_number("dim must be 1..=65536, got ", req.dim as u64)),
        );
    }
    if same_text(req.index.as_str(), "flat") {
        return Ok(AnyIndex::Flat(FlatIndex::new(req.dim, req.metric)));
    }
    if same_text(req.index.as_str(), "hnsw") {
        if req.m == 0 || req.m > MAX_M {
            return Err(ApiError::BadRequest(String::from_str("m must be 1..=256")));
        }
        let config = HnswConfig {
            m: req.m,
            ef_construction: clamp(req.ef_construction, 1, MAX_EF),
            ef_search: clamp(req.ef_search, 1, MAX_EF),
            seed: HnswConfig::default().seed,
        };
        return Ok(AnyIndex::Hnsw(HnswIndex::new(req.dim, req.metric, config)));
    }
    let head = joined("unknown index type '", req.index.as_str());
    Err(ApiError::BadRequest(joined(head.as_str(), "' (expected flat|hnsw)")))
}

/// A point to be stored.
#[derive(Debug)]
pub struct PointInput {
    pub id: u64,
    pub vector: Vec<u32>,
    pub payload: Option<Payload>,
}

/// A point to be stored, as mathematics.
#[verifier::ext_equal]
pub struct PointView {
    pub id: u64,
    pub vector: Seq<u32>,
    pub payload: Option<JsonView>,
}

impl View for PointInput {
    type V = PointView;

    open spec fn view(&self) -> PointView {
        PointView { id: self.id, vector: self.vector@, payload: held_payload(self.payload) }
    }
}

/// Points to be stored.
#[derive(Debug)]
pub struct UpsertPoints {
    pub points: Vec<PointInput>,
}

/// Points as mathematics.
pub open spec fn points_view(points: Seq<PointInput>) -> Seq<PointView> {
    points.map_values(|p: PointInput| p@)
}

/// The index after points were stored one by one, each in place of what had
/// its id.
#[verifier::opaque]
pub open spec fn upserted(v: AnyView, ar: Arith, points: Seq<PointView>) -> AnyView
    decreases points.len(),
{
    if points.len() == 0 {
        v
    } else {
        let before = upserted(v, ar, points.drop_last());
        let p = points.last();
        let cleared = if live_records(before.points()).contains_key(p.id) {
            before.removed(p.id)
        } else {
            before
        };
        cleared.inserted(ar, p.id, p.vector, p.payload)
    }
}

/// What an index holds after points were stored one by one.
pub open spec fn upserted_records(
    records: Map<u64, Record>,
    points: Seq<PointView>,
) -> Map<u64, Record>
    decreases points.len(),
{
    if points.len() == 0 {
        records
    } else {
        let p = points.last();
        upserted_records(records, points.drop_last()).insert(
            p.id,
            Record { vector: p.vector, payload: p.payload },
        )
    }
}

/// The first point from a place on that does not have a dimension.
pub open spec fn misfit(points: Seq<PointView>, dim: usize, from: int) -> Option<int>
    decreases points.len() - from,
{
    if from >= points.len() {
        None
    } else if points[from].vector.len() != dim {
        Some(from)
    } else {
        misfit(points, dim, from + 1)
    }
}

/// Whether a batch is refused, and how.
pub open spec fn batch_refusal(
    state: StateView,
    name: Seq<char>,
    points: Seq<PointView>,
) -> Option<Refusal> {
    if state.read_only {
        Some(Refusal::ReadOnly)
    } else if points.len() == 0 {
        Some(Refusal::BadRequest("points must not be empty"@))
    } else if points.len() > MAX_BATCH {
        Some(
            Refusal::BadRequest(
                "batch too large: "@ + decimal(points.len()) + " points (max 10000)"@,
            ),
        )
    } else if !state.collections.contains_key(name) {
        Some(no_collection(name))
    } else {
        let dim = state.collections[name].index.dim();
        match misfit(points, dim, 0) {
            Some(i) => Some(
                Refusal::BadRequest(
                    "point "@ + decimal(i as nat) + (" (id "@ + decimal(points[i].id as nat) + (
                    "): dimension mismatch: expected "@ + decimal(dim as nat) + (", got "@
                        + decimal(points[i].vector.len())))),
                ),
            ),
            None => None,
        }
    }
}

/// A request for a search.
#[derive(Debug)]
pub struct SearchRequest {
    pub query: Vec<u32>,
    pub k: usize,
    /// The width of the beam; flat collections ignore it.
    pub ef: Option<usize>,
    pub filter: Option<Filter>,
    /// Whether hits carry their payloads.
    pub with_payload: bool,
}

impl SearchRequest {
    /// A request that leaves everything but the query to the server.
    pub fn with_defaults(query: Vec<u32>) -> (r: Self)
        ensures
            r.query == query,
            r.k == 10,
            r.ef is None,
            r.filter is None,
            r.with_payload,
    {
        SearchRequest { query, k: 10, ef: None, filter: None, with_payload: true }
    }
}

/// One hit of an answered search.
#[derive(Debug)]
pub struct SearchHit {
    pub id: u64,
    pub distance: u32,
    pub payload: Option<Payload>,
}

/// One hit of an answered search, as mathematics.
#[verifier::ext_equal]
pub struct HitView {
    pub id: u64,
    pub distance: u32,
    pub payload: Option<JsonView>,
}

impl View for SearchHit {
    type V = HitView;

    open spec fn view(&self) -> HitView {
        HitView { id: self.id, distance: self.distance, payload: held_payload(self.payload) }
    }
}

/// Hits with the payloads of what was hit, or without.
pub open spec fn hit_views(
    records: Map<u64, Record>,
    hits: Seq<SearchResult>,
    with_payload: bool,
) -> Seq<HitView> {
    hits.map_values(
        |r: SearchResult|
            HitView {
                id: r.id.0,
                distance: r.distance,
                payload: if with_payload {
                    records[r.id.0].payload
                } else {
                    None
                },
            },
    )
}

/// The filter of a request.
pub open spec fn request_filter(filter: Option<Filter>) -> Option<FilterView> {
    match filter {
        Some(f) => Some(f@),
        None => None,
    }
}

/// The answer to a search.
pub open spec fn search_answer(
    state: StateView,
    ar: Arith,
    name: Seq<char>,
    req: SearchRequest,
) -> Result<Seq<HitView>, Refusal> {
    if req.k == 0 || req.k > MAX_K {
        Err(Refusal::BadRequest("k must be 1..=1024, got "@ + decimal(req.k as nat)))
    } else if req.ef is Some && req.ef->Some_0 > MAX_EF {
        Err(Refusal::BadRequest("ef must be <= 100000"@))
    } else if !state.collections.contains_key(name) {
        Err(no_collection(name))
    } else {
        let index = state.collections[name].index;
        let hits = index.hits(ar, req.query@, req.k, req.ef, request_filter(req.filter));
        match search_outcome(index.dim(), req.query@, req.k, hits) {
            Ok(found) => Ok(hit_views(live_records(index.points()), found, req.with_payload)),
            Err(e) => Err(index_refusal(e)),
        }
    }
}

/// What the server tells of a collection.
#[derive(Debug)]
pub struct CollectionStats {
    pub name: String,
    pub index: &'static str,
    pub dim: usize,
    pub metric: DistanceMetric,
    pub count: usize,
}

/// What the server tells of a collection, as mathematics.
#[verifier::ext_equal]
pub struct StatsView {
    pub name: Seq<char>,
    pub index: Seq<char>,
    pub dim: usize,
    pub metric: DistanceMetric,
    pub count: nat,
}

impl View for CollectionStats {
    type V = StatsView;

    open spec fn view(&self) -> StatsView {
        StatsView {
            name: self.name@,
            index: self.index@,
            dim: self.dim,
            metric: self.metric,
            count: self.count as nat,
        }
    }
}

/// What is told of a collection.
pub open spec fn stats_of(c: CollectionView) -> StatsView {
    StatsView {
        name: c.name,
        index: c.index.kind_name(),
        dim: c.index.dim(),
        metric: c.index.metric(),
        count: live_records(c.index.points()).dom().len(),
    }
}

/// What the server tells of a collection.
pub fn stats(c: &Collection) -> (r: CollectionStats)
    requires
        c.wf(),
    ensures
        r@ == stats_of(c@),
{
    CollectionStats {
        name: c.name.clone(),
        index: c.index.kind_name(),
        dim: c.index.dim(),
        metric: c.index.metric(),
        count: c.index.len(),
    }
}

/// Stores points one by one, each in place of what had its id.
fn upsert_into<F: Fn(FloatOp, u64, u64) -> u64>(
    index: &mut AnyIndex,
    fpu: &F,
    points: Vec<PointInput>,
)
    requires
        old(index).wf(),
        is_arithmetic(*fpu),
        old(index).ready_for(arith_of(*fpu), points@.len()),
        forall|i: int|
            0 <= i < points@.len() ==> (#[trigger] points@[i]).vector@.len()
                == old(index).spec_dim(),
    ensures
        final(index).wf(),
        final(index)@ == upserted(old(index)@, arith_of(*fpu), points_view(points@)),
        final(index).records() == upserted_records(old(index).records(), points_view(points@)),
{
    let ghost ar = arith_of(*fpu);
    let ghost all = points@;
    let ghost views = points_view(points@);
    let n: usize = points.len();
    let mut forward = points;
    let mut backward: Vec<PointInput> = Vec::new();
    while forward.len() > 0
        invariant
            forward@.len() + backward@.len() == n,
            n == all.len(),
            forward@ == all.take(forward@.len() as int),
            forall|j: int| 0 <= j < backward@.len() ==> (#[trigger] backward@[j]) == all[n - 1 - j],
        decreases forward@.len(),
    {
        if let Some(p) = forward.pop() {
            backward.push(p);
        }
        assert(forward@ =~= all.take(forward@.len() as int));
    }
    let mut done: usize = 0;
    proof {
        reveal(upserted);
        assert(views.take(0) =~= seq![]);
    }
    while done < n
        invariant
            index.wf(),
            is_arithmetic(*fpu),
            ar == arith_of(*fpu),
            n == all.len(),
            done <= n,
            views == points_view(all),
            backward@.len() == n - done,
            forall|j: int| 0 <= j < backward@.len() ==> (#[trigger] backward@[j]) == all[n - 1 - j],
            forall|i: int|
                0 <= i < n ==> (#[trigger] all[i]).vector@.len() == old(index).spec_dim(),
            index.spec_dim() == old(index).spec_dim(),
            index.ready_for(ar, (n - done) as nat),
            index@ == upserted(old(index)@, ar, views.take(done as int)),
            index.records() == upserted_records(old(index).records(), views.take(done as int)),
        decreases n - done,
    {
        proof {
            reveal(upserted);
            assert(views.take(done as int + 1).drop_last() =~= views.take(done as int));
        }
        if let Some(p) = backward.pop() {
            let ghost one = all[done as int];
            assert(p == one);
            assert(views[done as int] == one@);
            let id = VectorId(p.id);
            let ghost before = index.records();
            let _removed = index.remove(id);
            let vector = Vector::from_vec(p.vector);
            assert(index.ready_for(ar, 1)) by {
                index.lemma_ready_for_less(ar, (n - done) as nat, 1);
            }
            let added = index.add_with_payload(fpu, id, vector, p.payload);
            assert(added is Ok);
            assert(index.ready_for(ar, (n - done - 1) as nat));
            assert(index.records() =~= before.insert(
                one.id,
                Record { vector: one@.vector, payload: one@.payload },
            ));
        }
        done = done + 1;
    }
    assert(views.take(n as int) =~= views);
}

/// Finds the first point that does not have the dimension.
fn find_misfit(points: &Vec<PointInput>, dim: usize) -> (r: Option<usize>)
    ensures
        match r {
            Some(i) => misfit(points_view(points@), dim, 0) == Some(i as int) && i < points@.len(),
            None => misfit(points_view(points@), dim, 0) is None && forall|i: int|
                0 <= i < points@.len() ==> (#[trigger] points@[i]).vector@.len() == dim,
        },
{
    let ghost views = points_view(points@);
    let mut i: usize = 0;
    while i < points.len()
        invariant
            views == points_view(points@),
            i <= points@.len(),
            misfit(views, dim, 0) == misfit(views, dim, i as int),
            forall|j: int| 0 <= j < i ==> (#[trigger] points@[j]).vector@.len() == dim,
        decreases points@.len() - i,
    {
        assert(views[i as int] == points@[i as int]@);
        if points[i].vector.len() != dim {
            return Some(i);
        }
        i = i + 1;
    }
    None
}

/// Copies an optional payload.
pub(crate) fn copied_payload(payload: Option<&Payload>) -> (r: Option<Payload>)
    ensures
        held_payload(r) == crate::payload::payload_view(payload),
{
    match payload {
        Some(p) => Some(p.duplicate()),
        None => None,
    }
}

/// Turns hits into what is answered.
fn hits_with_payloads(
    index: &AnyIndex,
    found: &Vec<SearchResult>,
    with_payload: bool,
) -> (r: Vec<SearchHit>)
    requires
        index.wf(),
        forall|i: int|
            #![trigger found@[i]]
            0 <= i < found@.len() ==> index.records().contains_key(found@[i].id.0),
    ensures
        r@.map_values(|h: SearchHit| h@) == hit_views(index.records(), found@, with_payload),
{
    let ghost goal = hit_views(index.records(), found@, with_payload);
    let mut hits: Vec<SearchHit> = Vec::new();
    let mut i: usize = 0;
    while i < found.len()
        invariant
            index.wf(),
            goal == hit_views(index.records(), found@, with_payload),
            i <= found@.len(),
            hits@.len() == i,
            forall|j: int|
                #![trigger found@[j]]
                0 <= j < found@.len() ==> index.records().contains_key(found@[j].id.0),
            forall|j: int| 0 <= j < i ==> (#[trigger] hits@[j])@ == goal[j],
        decreases found@.len() - i,
    {
        let r = found[i];
        let payload = if with_payload {
            copied_payload(index.payload(r.id))
        } else {
            None
        };
        let hit = SearchHit { id: r.id.0, distance: r.distance, payload };
        assert(hit@ == goal[i as int]);
        hits.push(hit);
        i = i + 1;
    }
    assert(hits@.map_values(|h: SearchHit| h@) =~= goal);
    hits
}

impl AppState {
    /// Answers a request for a new collection with the collection. It becomes
    /// part of the server once its snapshot is saved (see
    /// [`AppState::register`]).
    pub fn create_collection(&self, name: &str, req: &CreateCollection) -> (r: Result<
        Collection,
        ApiError,
    >)
        requires
            self.wf(),
        ensures
            match r {
                Ok(c) => c.wf() && creation(self@, name@, *req) == Ok::<CollectionView, Refusal>(
                    c@,
                ),
                Err(e) => creation(self@, name@, *req) == Err::<CollectionView, Refusal>(e@),
            },
    {
        self.ensure_writable()?;
        validate_name(name)?;
        let index = new_index(req)?;
        if self.find(name).is_some() {
            let head = joined("collection '", name);
            return Err(ApiError::Conflict(joined(head.as_str(), "' already exists")));
        }
        Ok(Collection::new(String::from_str(name), index))
    }

    /// Drops a collection and gives the path of its snapshot, which is to be
    /// removed too.
    pub fn drop_collection(&mut self, name: &str) -> (r: Result<String, ApiError>)
        requires
            old(self).wf(),
        ensures
            final(self).wf(),
            match r {
                Ok(path) => {
                    &&& !old(self)@.read_only
                    &&& old(self)@.collections.contains_key(name@)
                    &&& path@ == snapshot_file(old(self)@.data_dir, name@)
                    &&& final(self)@ == (StateView {
                        collections: old(self)@.collections.remove(name@),
                        ..old(self)@
                    })
                },
                Err(e) => {
                    &&& *final(self) == *old(self)
                    &&& e@ == if old(self)@.read_only {
                        Refusal::ReadOnly
                    } else {
                        no_collection(name@)
                    }
                    &&& old(self)@.read_only || !old(self)@.collections.contains_key(name@)
                },
            },
    {
        self.ensure_writable()?;
        match self.find(name) {
            None => {
                let head = joined("collection '", name);
                Err(ApiError::NotFound(joined(head.as_str(), "' does not exist")))
            },
            Some(i) => {
                let path = self.path_of(name);
                self.take_out(i);
                Ok(path)
            },
        }
    }

    /// What the server tells of a collection.
    pub fn collection_stats(&self, name: &str) -> (r: Result<CollectionStats, ApiError>)
        requires
            self.wf(),
        ensures
            match r {
                Ok(told) => self@.collections.contains_key(name@) && told@ == stats_of(
                    self@.collections[name@],
                ),
                Err(e) => !self@.collections.contains_key(name@) && e@ == no_collection(name@),
            },
    {
        let c = self.get(name)?;
        Ok(stats(c))
    }

    /// What the server tells of all its collections, in the dictionary order
    /// of their names.
    pub fn list_collections(&self) -> (r: Vec<CollectionStats>)
        requires
            self.wf(),
        ensures
            r@.map_values(|told: CollectionStats| told@) == self.list().map_values(
                |c: CollectionView| stats_of(c),
            ),
    {
        let ghost list = self.list();
        let mut out: Vec<CollectionStats> = Vec::new();
        let mut i: usize = 0;
        while i < self.collections.len()
            invariant
                self.wf(),
                list == self.list(),
                i <= self.collections@.len(),
                out@.len() == i,
                forall|j: int| 0 <= j < i ==> (#[trigger] out@[j])@ == stats_of(list[j]),
            decreases self.collections@.len() - i,
        {
            assert(list[i as int] == self.collections@[i as int]@);
            out.push(stats(&self.collections[i]));
            i = i + 1;
        }
        assert(out@.map_values(|told: CollectionStats| told@) =~= list.map_values(
            |c: CollectionView| stats_of(c),
        ));
        out
    }

    /// Whether a collection, if it exists, has room for `n` more vectors.
    pub fn can_upsert<F: Fn(FloatOp, u64, u64) -> u64>(&self, fpu: &F, name: &str, n: usize) -> (r:
        bool)
        requires
            self.wf(),
            is_arithmetic(*fpu),
        ensures
            r == self.room_for(arith_of(*fpu), name@, n as nat),
    {
        match self.find(name) {
            None => {
                proof {
                    assert forall|i: int|
                        0 <= i < self.collections@.len() && (#[trigger] self.collections@[i]).name@
                            == name@ implies self.collections@[i].index.ready_for(
                        arith_of(*fpu),
                        n as nat,
                    ) by {
                        assert(self.list()[i].name == name@);
                        crate::state::lemma_by_name(self.list(), i);
                    }
                }
                true
            },
            Some(at) => {
                let r = self.collections[at].index.can_take(fpu, n);
                proof {
                    assert forall|i: int|
                        0 <= i < self.collections@.len() && (#[trigger] self.collections@[i]).name@
                            == name@ implies i == at by {
                        let list = self.list();
                        assert(list[i].name == name@ && list[at as int].name == name@);
                        crate::text::lemma_text_order_strict(name@);
                        if i < at {
                            assert(crate::text::text_before(list[i].name, list[at as int].name));
                        } else if at < i {
                            assert(crate::text::text_before(list[at as int].name, list[i].name));
                        }
                    }
                    assert(self.collections@[at as int].name@ == name@);
                }
                r
            },
        }
    }

    /// Holds a batch against the limits and the collection that it is meant
    /// for; gives the collection's place.
    fn check_batch(&self, name: &str, req: &UpsertPoints) -> (r: Result<usize, ApiError>)
        requires
            self.wf(),
        ensures
            match r {
                Ok(at) => {
                    &&& batch_refusal(self@, name@, points_view(req.points@)) is None
                    &&& at < self.collections@.len()
                    &&& self.collections@[at as int].name@ == name@
                    &&& self@.collections[name@] == self.collections@[at as int]@
                    &&& forall|i: int|
                        0 <= i < req.points@.len() ==> (#[trigger] req.points@[i]).vector@.len()
                            == self.collections@[at as int].index.spec_dim()
                },
                Err(e) => batch_refusal(self@, name@, points_view(req.points@)) == Some(e@),
            },
    {
        self.ensure_writable()?;
        let count: usize = req.points.len();
        if count == 0 {
            return Err(ApiError::BadRequest(String::from_str("points must not be empty")));
        }
        if count > MAX_BATCH {
            let head = with_number("batch too large: ", count as u64);
            return Err(ApiError::BadRequest(joined(head.as_str(), " points (max 10000)")));
        }
        let at: usize = match self.find(name) {
            Some(at) => at,
            None => {
                let head = joined("collection '", name);
                return Err(ApiError::NotFound(joined(head.as_str(), "' does not exist")));
            },
        };
        let dim: usize = self.collections[at].index.dim();
        if let Some(i) = find_misfit(&req.points, dim) {
            let got = with_number(", got ", req.points[i].vector.len() as u64);
            let expected = with_number("): dimension mismatch: expected ", dim as u64);
            let sizes = joined(expected.as_str(), got.as_str());
            let id = with_number(" (id ", req.points[i].id);
            let tail = joined(id.as_str(), sizes.as_str());
            let head = with_number("point ", i as u64);
            return Err(ApiError::BadRequest(joined(head.as_str(), tail.as_str())));
        }
        Ok(at)
    }

    /// Whether a batch is refused, and how.
    pub fn refuse_batch(&self, name: &str, req: &UpsertPoints) -> (r: Option<ApiError>)
        requires
            self.wf(),
        ensures
            match r {
                Some(e) => batch_refusal(self@, name@, points_view(req.points@)) == Some(e@),
                None => batch_refusal(self@, name@, points_view(req.points@)) is None,
            },
    {
        match self.check_batch(name, req) {
            Ok(_) => None,
            Err(e) => Some(e),
        }
    }

    /// Stores a batch of points in a collection and tells how many. A batch
    /// that is refused changes nothing.
    pub fn upsert_points<F: Fn(FloatOp, u64, u64) -> u64>(
        &mut self,
        fpu: &F,
        name: &str,
        req: UpsertPoints,
    ) -> (r: Result<usize, ApiError>)
        requires
            old(self).wf(),
            is_arithmetic(*fpu),
            batch_refusal(old(self)@, name@, points_view(req.points@)) is None
                ==> old(self).room_for(arith_of(*fpu), name@, req.points@.len()),
        ensures
            final(self).wf(),
            ({
                let points = points_view(req.points@);
                let was = old(self)@;
                match r {
                    Ok(count) => {
                        let c = was.collections[name@];
                        &&& batch_refusal(was, name@, points) is None
                        &&& count == points.len()
                        &&& final(self)@ == (StateView {
                            collections: was.collections.insert(
                                name@,
                                CollectionView {
                                    index: upserted(c.index, arith_of(*fpu), points),
                                    dirty: true,
                                    ..c
                                },
                            ),
                            ..was
                        })
                        &&& live_records(final(self)@.collections[name@].index.points())
                            == upserted_records(live_records(c.index.points()), points)
                    },
                    Err(e) => {
                        &&& batch_refusal(was, name@, points) == Some(e@)
                        &&& *final(self) == *old(self)
                    },
                }
            }),
    {
        let count: usize = req.points.len();
        let at: usize = self.check_batch(name, &req)?;
        let ghost list = self.list();
        let ghost was = self.collections@;
        let ghost points = points_view(req.points@);
        let ghost view = CollectionView {
            index: upserted(list[at as int].index, arith_of(*fpu), points),
            dirty: true,
            ..list[at as int]
        };
        proof {
            lemma_update_named(list, at as int, view);
        }
        upsert_into(&mut self.collections[at].index, fpu, req.points);
        self.collections[at].dirty = true;
        proof {
            assert(self.list() =~= list.update(at as int, view));
            assert forall|j: int| 0 <= j < self.collections@.len() implies (
            #[trigger] self.collections@[j]).wf() by {
                assert(was[j].wf());
                if j != at {
                    assert(self.collections@[j] == was[j]);
                }
            }
        }
        Ok(count)
    }

    /// Deletes a point; tells whether there was one.
    pub fn delete_point(&mut self, name: &str, id: u64) -> (r: Result<bool, ApiError>)
        requires
            old(self).wf(),
        ensures
            final(self).wf(),
            match r {
                Ok(removed) => {
                    let was = old(self)@;
                    let c = was.collections[name@];
                    &&& !was.read_only
                    &&& was.collections.contains_key(name@)
                    &&& removed == live_records(c.index.points()).contains_key(id)
                    &&& removed ==> final(self)@ == (StateView {
                        collections: was.collections.insert(
                            name@,
                            CollectionView { index: c.index.removed(id), dirty: true, ..c },
                        ),
                        ..was
                    }) && live_records(final(self)@.collections[name@].index.points())
                        == live_records(c.index.points()).remove(id)
                    &&& !removed ==> final(self)@ == was
                },
                Err(e) => {
                    &&& *final(self) == *old(self)
                    &&& e@ == if old(self)@.read_only {
                        Refusal::ReadOnly
                    } else {
                        no_collection(name@)
                    }
                    &&& old(self)@.read_only || !old(self)@.collections.contains_key(name@)
                },
            },
    {
        self.ensure_writable()?;
        let at: usize = match self.find(name) {
            Some(at) => at,
            None => {
                let head = joined("collection '", name);
                return Err(ApiError::NotFound(joined(head.as_str(), "' does not exist")));
            },
        };
        let ghost list = self.list();
        let ghost was = self.collections@;
        let removed = match self.collections[at].index.remove(VectorId(id)) {
            Ok(removed) => removed,
            Err(e) => return Err(ApiError::from_index(e)),
        };
        if removed {
            self.collections[at].dirty = true;
        }
        proof {
            let c = list[at as int];
            let view = if removed {
                CollectionView { index: c.index.removed(id), dirty: true, ..c }
            } else {
                c
            };
            lemma_update_named(list, at as int, view);
            assert(self.list() =~= list.update(at as int, view));
            assert(!removed ==> self.list() =~= list);
            assert forall|j: int| 0 <= j < self.collections@.len() implies (
            #[trigger] self.collections@[j]).wf() by {
                assert(was[j].wf());
                if j != at {
                    assert(self.collections@[j] == was[j]);
                }
            }
        }
        Ok(removed)
    }

    /// Answers a search.
    pub fn search<F: Fn(FloatOp, u64, u64) -> u64>(
        &self,
        fpu: &F,
        name: &str,
        req: &SearchRequest,
    ) -> (r: Result<Vec<SearchHit>, ApiError>)
        requires
            self.wf(),
            is_arithmetic(*fpu),
        ensures
            match r {
                Ok(hits) => search_answer(self@, arith_of(*fpu), name@, *req) == Ok::<
                    Seq<HitView>,
                    Refusal,
                >(hits@.map_values(|h: SearchHit| h@)),
                Err(e) => search_answer(self@, arith_of(*fpu), name@, *req) == Err::<
                    Seq<HitView>,
                    Refusal,
                >(e@),
            },
    {
        if req.k == 0 || req.k > MAX_K {
            return Err(
                ApiError::BadRequest(with_number("k must be 1..=1024, got ", req.k as u64)),
            );
        }
        if let Some(ef) = req.ef {
            if ef > MAX_EF {
                return Err(ApiError::BadRequest(String::from_str("ef must be <= 100000")));
            }
        }
        let c = self.get(name)?;
        let filter = req.filter.as_ref();
        match c.index.search_opts(fpu, req.query.as_slice(), req.k, req.ef, filter) {
            Ok(found) => Ok(hits_with_payloads(&c.index, &found, req.with_payload)),
            Err(e) => Err(ApiError::from_index(e)),
        }
    }

    /// The path and the bytes of a collection's snapshot, for a request to
    /// save it now. Once they are saved, see [`AppState::mark_flushed`].
    pub fn snapshot_collection(&self, name: &str) -> (r: Result<(String, Vec<u8>), ApiError>)
        requires
            self.wf(),
        ensures
            match r {
                Ok((path, bytes)) => {
                    let out = encoded(self@.collections[name@].index);
                    &&& !self@.read_only
                    &&& self@.collections.contains_key(name@)
                    &&& out.fault is None
                    &&& path@ == snapshot_file(self@.data_dir, name@)
                    &&& bytes@ == out.bytes
                },
                Err(e) => if self@.read_only {
                    e@ == Refusal::ReadOnly
                } else if !self@.collections.contains_key(name@) {
                    e@ == no_collection(name@)
                } else {
                    encoded(self@.collections[name@].index).fault matches Some(fault) && e@
                        == Refusal::Internal(fault_text(fault))
                },
            },
            r is Ok && portable(self@.collections[name@].index) ==> storable(
                self@.collections[name@].index,
            ),
    {
        self.ensure_writable()?;
        let c = self.get(name)?;
        let bytes = c.snapshot()?;
        Ok((self.path_of(name), bytes))
    }
}

} // verus!
