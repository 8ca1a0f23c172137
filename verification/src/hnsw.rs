//! The HNSW index: a stack of proximity graphs for approximate search.
//!
//! Layer 0 holds every vector; each higher layer holds an exponentially
//! shrinking part of the one below. A query descends greedily through the
//! sparse layers and then runs a beam search on layer 0. Removed vectors stay
//! in the graph as waypoints and never surface as results. Where the graph
//! leads to fewer results than were asked for, a scan makes up for the rest.
use crate::beam::{
    beam_search, beam_start, beam_wf, events_wf, lemma_beam_run, lemma_beam_start, lemma_events_run,
    lemma_events_start, seen, Beam, BeamStatus, Terrain,
};
use crate::candidate::{ascending, before, first, lemma_ranked, offer, ranked, Candidate};
use crate::distance::DistanceMetric;
use crate::error::{Result, VexError};
use crate::flat::hits_from;
use crate::float::{arith_of, is_arithmetic, total_key, Arith, FloatOp};
use crate::graph::{
    clamped, descend, descend_layers, descent_cost, descent_steps, dist_to_node, distances,
    graph_wf, held_payload, layer_terrain, lemma_descend, lemma_layer_terrain, lists_view, matching,
    nodes_view, search_layer, Admission, DescentStep, Node, NodeView,
};
use crate::index::{search_outcome, sound_answer, Index, Record, SearchResult};
use crate::json::{JsonView, Payload};
use crate::link::{layers_linked, lemma_layers_linked, link_layers, same_points, LinkRules};
use crate::payload::{lets_through, optional_filter, passes, Filter, FilterView};
use crate::records::{
    exact_hits, lemma_live_records, lemma_matches_count, lemma_matches_of, lemma_push_point,
    lemma_rearranged, lemma_retire_point, live_count, live_list, live_points, live_records,
    matches_of, unique_live, Point,
};
use crate::rng::{
    check_levels, lemma_levels_fit_less, level_of, levels_fit, next_state, sample_level, scrambled,
    splitmix,
};
use crate::vector::{copied, Vector, VectorId};
use std::collections::HashMap;
use vstd::prelude::*;

verus! {

broadcast use vstd::std_specs::hash::group_hash_axioms;

/// Tunable parameters.
#[derive(Clone, Copy, Debug, PartialEq, Eq, Structural)]
pub struct HnswConfig {
    /// Neighbors per node on layers from 1 up; layer 0 allows twice as many.
    pub m: usize,
    /// Beam width while building.
    pub ef_construction: usize,
    /// Beam width while searching, unless a search gives its own.
    pub ef_search: usize,
    /// Seed of the generator that samples layers.
    pub seed: u64,
}

impl Default for HnswConfig {
    fn default() -> (r: Self)
        ensures
            r == (HnswConfig {
                m: 16,
                ef_construction: 200,
                ef_search: 64,
                seed: 0x5eed_cafe_f00d_d00d,
            }),
    {
        HnswConfig { m: 16, ef_construction: 200, ef_search: 64, seed: 0x5eed_cafe_f00d_d00d }
    }
}

/// The HNSW index.
#[derive(Debug)]
pub struct HnswIndex {
    pub(crate) config: HnswConfig,
    pub(crate) metric: DistanceMetric,
    pub(crate) dim: usize,
    pub(crate) nodes: Vec<Node>,
    pub(crate) id_to_pos: HashMap<u64, u32>,
    pub(crate) entry_point: Option<u32>,
    pub(crate) max_layer: usize,
    pub(crate) live_count: usize,
    pub(crate) rng_state: u64,
}

/// An HNSW index as mathematics.
#[verifier::ext_equal]
pub struct HnswView {
    pub config: HnswConfig,
    pub metric: DistanceMetric,
    pub dim: usize,
    pub nodes: Seq<NodeView>,
    /// Where every walk starts.
    pub entry: Option<u32>,
    /// The highest layer, on which the entry node is.
    pub max_layer: usize,
    /// The state of the generator that samples layers.
    pub rng: u64,
}

impl View for HnswIndex {
    type V = HnswView;

    open(crate) spec fn view(&self) -> HnswView {
        HnswView {
            config: self.config,
            metric: self.metric,
            dim: self.dim,
            nodes: nodes_view(self.nodes@),
            entry: self.entry_point,
            max_layer: self.max_layer,
            rng: self.rng_state,
        }
    }
}

/// The nodes as stored points.
pub open spec fn node_points(nodes: Seq<NodeView>) -> Seq<Point> {
    nodes.map_values(
        |n: NodeView|
            Point {
                id: n.id,
                live: !n.deleted,
                record: Record { vector: n.vector, payload: n.payload },
            },
    )
}

/// The nodes as stored points that are known by their places.
pub open spec fn placed_points(nodes: Seq<NodeView>) -> Seq<Point> {
    Seq::new(
        nodes.len(),
        |i: int|
            Point {
                id: i as u64,
                live: !nodes[i].deleted,
                record: Record { vector: nodes[i].vector, payload: nodes[i].payload },
            },
    )
}

/// Candidates that are nodes, as hits.
pub open spec fn node_hits(nodes: Seq<NodeView>, cands: Seq<Candidate>) -> Seq<SearchResult> {
    cands.map_values(
        |c: Candidate|
            SearchResult { id: VectorId(nodes[c.label as int].id), distance: c.distance },
    )
}

impl HnswView {
    /// The invariant: a layered graph over vectors of the dimension, an entry
    /// node on the highest layer, and no id of two live nodes.
    pub open spec fn wf(self) -> bool {
        &&& graph_wf(self.nodes, self.dim as nat)
        &&& self.entry matches Some(e) ==> e < self.nodes.len() && self.nodes[e as int].reaches(
            self.max_layer as int,
        )
        &&& unique_live(self.points())
    }

    /// The nodes as stored points.
    pub open spec fn points(self) -> Seq<Point> {
        node_points(self.nodes)
    }

    /// What linking goes by.
    pub open spec fn rules(self) -> LinkRules {
        LinkRules { m: self.config.m, ef_construction: self.config.ef_construction }
    }

    /// The distance of every node from a query.
    pub open spec fn dist(self, ar: Arith, query: Seq<u32>) -> Seq<u32> {
        distances(ar, self.metric, self.nodes, query)
    }

    /// Layer 0 as a filtered search sees it.
    pub open spec fn ground(
        self,
        ar: Arith,
        query: Seq<u32>,
        filter: Option<FilterView>,
    ) -> Terrain {
        layer_terrain(self.nodes, 0, self.dist(ar, query), matching(self.nodes, filter))
    }

    /// Where a search that descended from the entry node meets layer 0.
    pub open spec fn landing(self, ar: Arith, query: Seq<u32>) -> u32
        recommends
            self.entry is Some,
    {
        descend(self.nodes, self.dist(ar, query), self.max_layer as int, 1, self.entry->Some_0)
    }

    /// The beam at the end of a search. The beam is at least as wide as the
    /// number of hits asked for.
    pub open spec fn search_beam(
        self,
        ar: Arith,
        query: Seq<u32>,
        k: usize,
        ef: usize,
        filter: Option<FilterView>,
    ) -> Beam {
        beam_search(
            self.ground(ar, query, filter),
            self.landing(ar, query),
            if ef < k {
                k as int
            } else {
                ef as int
            },
        )
    }

    /// Whether there is anything to search.
    pub open spec fn searchable(self) -> bool {
        self.entry is Some && live_count(self.points()) > 0
    }

    /// The closest nodes that the walk of a search with a beam of width `ef`
    /// came by, `k` at most.
    pub open spec fn walked(
        self,
        ar: Arith,
        query: Seq<u32>,
        k: usize,
        ef: usize,
        filter: Option<FilterView>,
    ) -> Seq<Candidate> {
        if self.searchable() {
            first(self.search_beam(ar, query, k, ef, filter).best, k as int)
        } else {
            seq![]
        }
    }

    /// The live nodes that pass a filter, in the order in which they are
    /// stored.
    pub open spec fn node_matches(
        self,
        ar: Arith,
        query: Seq<u32>,
        filter: Option<FilterView>,
    ) -> Seq<Candidate> {
        matches_of(placed_points(self.nodes), self.metric, ar, query, filter)
    }

    /// The `k` closest of all live nodes that pass a filter, of two at one
    /// distance the one stored first in front.
    pub open spec fn scanned(
        self,
        ar: Arith,
        query: Seq<u32>,
        k: usize,
        filter: Option<FilterView>,
    ) -> Seq<Candidate> {
        first(ranked(self.node_matches(ar, query, filter)), k as int)
    }

    /// The hits of a search with a beam of width `ef`: what the walk came by,
    /// or, if that is fewer than `k`, the closest of all nodes that are wanted.
    pub open spec fn found(
        self,
        ar: Arith,
        query: Seq<u32>,
        k: usize,
        ef: usize,
        filter: Option<FilterView>,
    ) -> Seq<SearchResult> {
        let near = self.walked(ar, query, k, ef, filter);
        if near.len() < k {
            node_hits(self.nodes, self.scanned(ar, query, k, filter))
        } else {
            node_hits(self.nodes, near)
        }
    }

    /// What a search with a beam of width `ef` comes to.
    pub open spec fn found_outcome(
        self,
        ar: Arith,
        query: Seq<u32>,
        k: usize,
        ef: usize,
        filter: Option<FilterView>,
    ) -> Result<Seq<SearchResult>> {
        search_outcome(self.dim, query, k, self.found(ar, query, k, ef, filter))
    }

    /// Whether `n` more vectors fit: the places of nodes fit 32 bits, and the
    /// layers to be sampled for them can be counted.
    pub open spec fn ready_for(self, ar: Arith, n: nat) -> bool {
        &&& self.config.m * 2 <= usize::MAX
        &&& self.nodes.len() + n <= 0x1_0000_0000
        &&& levels_fit(ar, self.config.m, self.rng, n)
    }

    /// The index with one more vector.
    pub open spec fn inserted(
        self,
        ar: Arith,
        id: u64,
        vector: Seq<u32>,
        payload: Option<JsonView>,
    ) -> HnswView {
        let rng = next_state(self.rng);
        let level = level_of(ar, self.config.m, scrambled(rng));
        let new_pos = self.nodes.len() as u32;
        let nodes = self.nodes.push(
            NodeView {
                id,
                vector,
                neighbors: Seq::new((level + 1) as nat, |i: int| seq![]),
                deleted: false,
                payload,
            },
        );
        match self.entry {
            None => HnswView {
                nodes,
                entry: Some(new_pos),
                max_layer: level,
                rng,
                ..self
            },
            Some(entry) => {
                let dist = distances(ar, self.metric, nodes, vector);
                let ep = descend(nodes, dist, self.max_layer as int, level + 1, entry);
                let top = if level < self.max_layer {
                    level
                } else {
                    self.max_layer
                };
                HnswView {
                    nodes: layers_linked(
                        ar,
                        self.metric,
                        self.rules(),
                        nodes,
                        new_pos,
                        top as int,
                        ep,
                    ),
                    entry: if level > self.max_layer {
                        Some(new_pos)
                    } else {
                        Some(entry)
                    },
                    max_layer: if level > self.max_layer {
                        level
                    } else {
                        self.max_layer
                    },
                    rng,
                    ..self
                }
            },
        }
    }

    /// The index with the node at a place marked as removed.
    pub open spec fn retired(self, at: int) -> HnswView {
        HnswView {
            nodes: self.nodes.update(at, NodeView { deleted: true, ..self.nodes[at] }),
            ..self
        }
    }

    /// The place of the live node with an id, if there is one.
    pub open spec fn place_of(self, id: u64) -> int {
        choose|i: int|
            #![trigger self.nodes[i]]
            0 <= i < self.nodes.len() && !self.nodes[i].deleted && self.nodes[i].id == id
    }
}

/// The beam of a search: it starts on layer 0 and keeps its order and its
/// record to the end.
pub proof fn lemma_search_beam(
    v: HnswView,
    ar: Arith,
    query: Seq<u32>,
    k: usize,
    ef: usize,
    filter: Option<FilterView>,
)
    requires
        v.wf(),
        v.entry is Some,
    ensures
        v.ground(ar, query, filter).wf(),
        v.ground(ar, query, filter).holds(v.landing(ar, query)),
        beam_wf(v.ground(ar, query, filter), v.search_beam(ar, query, k, ef, filter)),
        events_wf(v.ground(ar, query, filter), v.search_beam(ar, query, k, ef, filter)),
{
    let t = v.ground(ar, query, filter);
    let dist = v.dist(ar, query);
    let width = if ef < k {
        k as int
    } else {
        ef as int
    };
    let entry = v.entry->Some_0;
    lemma_layer_terrain(v.nodes, v.dim as nat, 0, dist, matching(v.nodes, filter));
    lemma_descend(v.nodes, v.dim as nat, dist, v.max_layer as int, 1, entry);
    let ep = v.landing(ar, query);
    assert(v.nodes[ep as int].neighbors.len() >= 1);
    lemma_beam_start(t, ep);
    lemma_events_start(t, ep);
    lemma_beam_run(t, beam_start(t, ep), width);
    lemma_events_run(t, beam_start(t, ep), width);
}

/// Nodes known by their places match as the stored points do, at the same
/// distances.
pub proof fn lemma_node_matches(
    v: HnswView,
    ar: Arith,
    query: Seq<u32>,
    filter: Option<FilterView>,
)
    requires
        v.nodes.len() <= 0x1_0000_0000,
    ensures
        unique_live(placed_points(v.nodes)),
        relabeled(v.nodes, v.node_matches(ar, query, filter)) == matches_of(
            v.points(),
            v.metric,
            ar,
            query,
            filter,
        ),
        forall|c: Candidate| #[trigger]
            v.node_matches(ar, query, filter).contains(c) ==> c.label < v.nodes.len(),
{
    let placed = placed_points(v.nodes);
    let points = v.points();
    let n = v.nodes.len() as int;
    assert forall|i: int, j: int|
        #![trigger placed[i], placed[j]]
        0 <= i < placed.len() && 0 <= j < placed.len() && placed[i].live && placed[j].live
            && placed[i].id == placed[j].id implies i == j by {
        assert(placed[i].id == i && placed[j].id == j);
    }
    lemma_node_matches_to(v, ar, query, filter, n);
    assert(placed.take(n) =~= placed);
    assert(points.take(n) =~= points);
    lemma_matches_of(placed, v.metric, ar, query, filter);
}

proof fn lemma_node_matches_to(
    v: HnswView,
    ar: Arith,
    query: Seq<u32>,
    filter: Option<FilterView>,
    n: int,
)
    requires
        v.nodes.len() <= 0x1_0000_0000,
        0 <= n <= v.nodes.len(),
    ensures
        relabeled(
            v.nodes,
            matches_of(placed_points(v.nodes).take(n), v.metric, ar, query, filter),
        ) == matches_of(v.points().take(n), v.metric, ar, query, filter),
    decreases n,
{
    let placed = placed_points(v.nodes).take(n);
    let points = v.points().take(n);
    let cands = matches_of(placed, v.metric, ar, query, filter);
    let all = matches_of(points, v.metric, ar, query, filter);
    if n > 0 {
        lemma_node_matches_to(v, ar, query, filter, n - 1);
        assert(placed.drop_last() =~= placed_points(v.nodes).take(n - 1));
        assert(points.drop_last() =~= v.points().take(n - 1));
        assert(placed.last().id == n - 1);
    }
    assert(relabeled(v.nodes, cands) =~= all);
}

/// Candidates that are nodes, as candidates that are ids.
pub open spec fn relabeled(nodes: Seq<NodeView>, cands: Seq<Candidate>) -> Seq<Candidate> {
    cands.map_values(
        |c: Candidate| Candidate { distance: c.distance, label: nodes[c.label as int].id },
    )
}

/// Whether candidates are distinct nodes that a search wants, closest first,
/// at their distances.
pub open spec fn wanted_nodes(
    v: HnswView,
    ar: Arith,
    query: Seq<u32>,
    filter: Option<FilterView>,
    cands: Seq<Candidate>,
) -> bool {
    &&& ascending(cands)
    &&& forall|i: int, j: int|
        #![trigger cands[i], cands[j]]
        0 <= i < j < cands.len() ==> cands[i].label != cands[j].label
    &&& forall|i: int|
        #![trigger cands[i]]
        0 <= i < cands.len() ==> {
            let n = cands[i].label as int;
            &&& n < v.nodes.len()
            &&& !v.nodes[n].deleted
            &&& passes(filter, v.nodes[n].payload)
            &&& cands[i].distance == v.metric.between(ar, query, v.nodes[n].vector)
        }
}

/// What a walk comes by are nodes that the search wants.
pub proof fn lemma_walked(
    v: HnswView,
    ar: Arith,
    query: Seq<u32>,
    k: usize,
    ef: usize,
    filter: Option<FilterView>,
)
    requires
        v.wf(),
    ensures
        wanted_nodes(v, ar, query, filter, v.walked(ar, query, k, ef, filter)),
{
    if v.searchable() {
        let t = v.ground(ar, query, filter);
        lemma_search_beam(v, ar, query, k, ef, filter);
        let end = v.search_beam(ar, query, k, ef, filter);
        let best = end.best;
        let near = v.walked(ar, query, k, ef, filter);
        assert forall|i: int| 0 <= i < best.len() implies seen(
            t,
            end.visited,
            #[trigger] best[i],
        ) && t.eligible[best[i].label as int] by {
            assert(best.contains(best[i]));
        }
        assert forall|i: int, j: int|
            #![trigger near[i], near[j]]
            0 <= i < j < near.len() implies near[i].label != near[j].label by {
            if near[i].label == near[j].label {
                assert(best[i] == best[j]);
            }
        }
    }
}

/// What a scan comes by are nodes that the search wants, `k` or all of them.
pub proof fn lemma_scanned(
    v: HnswView,
    ar: Arith,
    query: Seq<u32>,
    k: usize,
    filter: Option<FilterView>,
)
    requires
        v.wf(),
    ensures
        wanted_nodes(v, ar, query, filter, v.scanned(ar, query, k, filter)),
        v.scanned(ar, query, k, filter).len() == if k < matches_of(
            v.points(),
            v.metric,
            ar,
            query,
            filter,
        ).len() {
            k as nat
        } else {
            matches_of(v.points(), v.metric, ar, query, filter).len()
        },
{
    let placed = placed_points(v.nodes);
    let cands = v.node_matches(ar, query, filter);
    let order = ranked(cands);
    let some = v.scanned(ar, query, k, filter);
    lemma_node_matches(v, ar, query, filter);
    lemma_matches_of(placed, v.metric, ar, query, filter);
    lemma_ranked(cands);
    lemma_rearranged(cands, order);
    assert(relabeled(v.nodes, cands).len() == cands.len());
    assert forall|i: int|
        #![trigger some[i]]
        0 <= i < some.len() implies {
        let n = some[i].label as int;
        &&& n < v.nodes.len()
        &&& !v.nodes[n].deleted
        &&& passes(filter, v.nodes[n].payload)
        &&& some[i].distance == v.metric.between(ar, query, v.nodes[n].vector)
    } by {
        assert(some[i] == order[i]);
        assert(order.contains(order[i]));
        assert(cands.contains(order[i]));
        let j = choose|j: int|
            #![trigger placed[j]]
            0 <= j < placed.len() && placed[j].live && passes(filter, placed[j].record.payload)
                && order[i] == (Candidate {
                distance: v.metric.between(ar, query, placed[j].record.vector),
                label: placed[j].id,
            });
        assert(placed[j].id == j);
    }
    assert forall|i: int, j: int|
        #![trigger some[i], some[j]]
        0 <= i < j < some.len() implies some[i].label != some[j].label by {
        if some[i].label == some[j].label {
            assert(order[i] == order[j]);
        }
    }
}

/// The hits of a search are an answer, and there are as many as there can be.
pub proof fn lemma_found(
    v: HnswView,
    ar: Arith,
    query: Seq<u32>,
    k: usize,
    ef: usize,
    filter: Option<FilterView>,
)
    requires
        v.wf(),
    ensures
        sound_answer(
            live_records(v.points()),
            v.metric,
            ar,
            query,
            k as int,
            filter,
            v.found(ar, query, k, ef, filter),
        ),
{
    let points = v.points();
    let records = live_records(points);
    let near = v.walked(ar, query, k, ef, filter);
    let all = matches_of(points, v.metric, ar, query, filter);
    let cands = if near.len() < k {
        v.scanned(ar, query, k, filter)
    } else {
        near
    };
    let hits = v.found(ar, query, k, ef, filter);
    lemma_live_records(points);
    lemma_walked(v, ar, query, k, ef, filter);
    lemma_scanned(v, ar, query, k, filter);
    lemma_matches_count(points, v.metric, ar, query, filter);
    assert(hits == node_hits(v.nodes, cands));
    assert forall|i: int|
        #![trigger hits[i]]
        0 <= i < hits.len() implies {
        &&& records.contains_key(hits[i].id.0)
        &&& passes(filter, records[hits[i].id.0].payload)
        &&& hits[i].distance == v.metric.between(ar, query, records[hits[i].id.0].vector)
    } by {
        let at = cands[i].label as int;
        assert(points[at].live);
    }
    assert forall|i: int, j: int| 0 <= i < j < hits.len() implies total_key(hits[i].distance)
        <= total_key(hits[j].distance) by {
        assert(!before(cands[j], cands[i]));
    }
    assert forall|i: int, j: int| 0 <= i < j < hits.len() implies hits[i].id != hits[j].id by {
        let a = cands[i].label as int;
        let b = cands[j].label as int;
        assert(points[a].live && points[b].live);
    }
    if near.len() == k {
        lemma_enough(v, ar, query, filter, near);
    }
}

/// There are at least as many matches as distinct nodes that are wanted.
proof fn lemma_enough(
    v: HnswView,
    ar: Arith,
    query: Seq<u32>,
    filter: Option<FilterView>,
    cands: Seq<Candidate>,
)
    requires
        v.wf(),
        wanted_nodes(v, ar, query, filter, cands),
    ensures
        cands.len() <= matches_of(v.points(), v.metric, ar, query, filter).len(),
{
    let placed = placed_points(v.nodes);
    let all = v.node_matches(ar, query, filter);
    lemma_node_matches(v, ar, query, filter);
    lemma_matches_of(placed, v.metric, ar, query, filter);
    assert(relabeled(v.nodes, all).len() == all.len());
    assert(cands.no_duplicates()) by {
        assert forall|i: int, j: int|
            0 <= i < cands.len() && 0 <= j < cands.len() && i != j implies cands[i] != cands[j] by {
            if i < j {
                assert(cands[i].label != cands[j].label);
            } else {
                assert(cands[j].label != cands[i].label);
            }
        }
    }
    cands.unique_seq_to_set();
    all.unique_seq_to_set();
    assert(cands.to_set().subset_of(all.to_set())) by {
        assert forall|c: Candidate| cands.to_set().contains(c) implies all.to_set().contains(c) by {
            let i = choose|i: int| 0 <= i < cands.len() && cands[i] == c;
            let n = cands[i].label as int;
            assert(placed[n].live);
            assert(all.contains(c));
        }
    }
    vstd::set_lib::lemma_len_subset(cands.to_set(), all.to_set());
}

// ---------------------------------------------------------------------------
// Traces
// ---------------------------------------------------------------------------

/// A node that the beam looked at.
#[derive(Clone, Copy, Debug, PartialEq, Eq, Structural)]
pub struct BeamEvent {
    pub id: u64,
    pub distance: u32,
    pub status: BeamStatus,
}

/// The record of a search: where it started, where the descent left each
/// layer, and every node that the beam looked at, in order.
#[derive(Debug)]
pub struct SearchTrace {
    pub entry_id: Option<u64>,
    pub max_layer: usize,
    pub descent: Vec<DescentStep>,
    pub beam: Vec<BeamEvent>,
    /// How many nodes the beam looked at.
    pub visited: usize,
    /// How many distances were measured on the walk.
    pub distance_evals: usize,
}

/// The record of a search as mathematics.
#[verifier::ext_equal]
pub struct TraceView {
    pub entry_id: Option<u64>,
    pub max_layer: usize,
    pub descent: Seq<DescentStep>,
    pub beam: Seq<BeamEvent>,
    pub visited: nat,
    pub distance_evals: nat,
}

impl View for SearchTrace {
    type V = TraceView;

    open spec fn view(&self) -> TraceView {
        TraceView {
            entry_id: self.entry_id,
            max_layer: self.max_layer,
            descent: self.descent@,
            beam: self.beam@,
            visited: self.visited as nat,
            distance_evals: self.distance_evals as nat,
        }
    }
}

/// What the beam looked at, by ids.
pub open spec fn event_ids(
    nodes: Seq<NodeView>,
    events: Seq<(Candidate, BeamStatus)>,
) -> Seq<BeamEvent> {
    events.map_values(
        |e: (Candidate, BeamStatus)|
            BeamEvent { id: nodes[e.0.label as int].id, distance: e.0.distance, status: e.1 },
    )
}

impl HnswView {
    /// The record of a search.
    pub open spec fn trace(
        self,
        ar: Arith,
        query: Seq<u32>,
        k: usize,
        ef: usize,
        filter: Option<FilterView>,
    ) -> TraceView {
        if self.searchable() {
            let entry = self.entry->Some_0;
            let dist = self.dist(ar, query);
            let events = self.search_beam(ar, query, k, ef, filter).events;
            TraceView {
                entry_id: Some(self.nodes[entry as int].id),
                max_layer: self.max_layer,
                descent: descent_steps(self.nodes, dist, self.max_layer as int, 1, entry),
                beam: event_ids(self.nodes, events),
                visited: events.len(),
                distance_evals: clamped(
                    descent_cost(self.nodes, dist, self.max_layer as int, 1, entry) + events.len(),
                ),
            }
        } else {
            TraceView {
                entry_id: None,
                max_layer: self.max_layer,
                descent: seq![],
                beam: seq![],
                visited: 0,
                distance_evals: 0,
            }
        }
    }
}

// ---------------------------------------------------------------------------
// The index
// ---------------------------------------------------------------------------

/// Turns candidates that are nodes into hits.
fn hits_of(nodes: &Vec<Node>, cands: &Vec<Candidate>, k: usize) -> (r: Vec<SearchResult>)
    requires
        forall|i: int| 0 <= i < cands@.len() ==> (#[trigger] cands@[i]).label < nodes@.len(),
    ensures
        r@ == node_hits(nodes_view(nodes@), first(cands@, k as int)),
{
    let ghost all = nodes_view(nodes@);
    let n: usize = nodes.len();
    let mut hits: Vec<SearchResult> = Vec::new();
    let mut i: usize = 0;
    while i < cands.len() && i < k
        invariant
            all == nodes_view(nodes@),
            n == nodes@.len(),
            forall|j: int| 0 <= j < cands@.len() ==> (#[trigger] cands@[j]).label < nodes@.len(),
            i <= cands@.len(),
            i <= k,
            hits@ == node_hits(all, cands@.take(i as int)),
        decreases cands@.len() - i,
    {
        let c = cands[i];
        hits.push(SearchResult { id: nodes[c.label as usize].id, distance: c.distance });
        assert(hits@ =~= node_hits(all, cands@.take(i as int + 1)));
        i = i + 1;
    }
    assert(cands@.take(i as int) =~= first(cands@, k as int));
    hits
}

/// Gives the ids of what the beam looked at.
fn events_of(nodes: &Vec<Node>, events: &Vec<(Candidate, BeamStatus)>) -> (r: Vec<BeamEvent>)
    requires
        forall|i: int| 0 <= i < events@.len() ==> (#[trigger] events@[i]).0.label < nodes@.len(),
    ensures
        r@ == event_ids(nodes_view(nodes@), events@),
{
    let ghost all = nodes_view(nodes@);
    let n: usize = nodes.len();
    let mut out: Vec<BeamEvent> = Vec::new();
    let mut i: usize = 0;
    while i < events.len()
        invariant
            all == nodes_view(nodes@),
            n == nodes@.len(),
            forall|j: int|
                0 <= j < events@.len() ==> (#[trigger] events@[j]).0.label < nodes@.len(),
            i <= events@.len(),
            out@ == event_ids(all, events@.take(i as int)),
        decreases events@.len() - i,
    {
        let (c, status) = events[i];
        out.push(BeamEvent { id: nodes[c.label as usize].id.0, distance: c.distance, status });
        assert(out@ =~= event_ids(all, events@.take(i as int + 1)));
        i = i + 1;
    }
    assert(events@.take(i as int) =~= events@);
    out
}

/// Neighbor lists for a new node: one empty list per layer.
fn empty_lists(layers: usize) -> (r: Vec<Vec<u32>>)
    ensures
        lists_view(r@) == Seq::new(layers as nat, |i: int| Seq::<u32>::empty()),
{
    let mut lists: Vec<Vec<u32>> = Vec::new();
    let mut i: usize = 0;
    while i < layers
        invariant
            i <= layers,
            lists@.len() == i,
            forall|j: int| 0 <= j < i ==> (#[trigger] lists@[j])@ == Seq::<u32>::empty(),
        decreases layers - i,
    {
        lists.push(Vec::new());
        i = i + 1;
    }
    assert(lists_view(lists@) =~= Seq::new(layers as nat, |i: int| Seq::<u32>::empty()));
    lists
}

/// What a walk through the graph found.
struct Walk {
    best: Vec<Candidate>,
    events: Vec<(Candidate, BeamStatus)>,
    descent: Vec<DescentStep>,
    evals: usize,
}

impl HnswIndex {
    /// Whether the map gives the place of every live id, and only places of
    /// the id that is asked for.
    pub open(crate) spec fn mapped(&self) -> bool {
        &&& forall|i: int|
            #![trigger self.nodes@[i]]
            0 <= i < self.nodes@.len() ==> {
                &&& self.id_to_pos@.contains_key(self.nodes@[i].id.0)
                &&& !self.nodes@[i].deleted ==> self.id_to_pos@[self.nodes@[i].id.0] == i
            }
        &&& forall|id: u64| #[trigger]
            self.id_to_pos@.contains_key(id) ==> self.id_to_pos@[id] < self.nodes@.len()
                && self.nodes@[self.id_to_pos@[id] as int].id.0 == id
    }

    /// An index that holds nothing.
    pub fn new(dim: usize, metric: DistanceMetric, config: HnswConfig) -> (r: Self)
        ensures
            r.wf(),
            r@ == (HnswView {
                config,
                metric,
                dim,
                nodes: seq![],
                entry: None,
                max_layer: 0,
                rng: config.seed,
            }),
            r.records() == Map::<u64, Record>::empty(),
    {
        let r = HnswIndex {
            config,
            metric,
            dim,
            nodes: Vec::new(),
            id_to_pos: HashMap::new(),
            entry_point: None,
            max_layer: 0,
            live_count: 0,
            rng_state: config.seed,
        };
        assert(r@.nodes =~= seq![]);
        assert(r@.points() =~= seq![]);
        r
    }

    /// An index that holds nothing, with the default parameters.
    pub fn with_defaults(dim: usize, metric: DistanceMetric) -> (r: Self)
        ensures
            r.wf(),
            r@ == (HnswView {
                config: HnswConfig {
                    m: 16,
                    ef_construction: 200,
                    ef_search: 64,
                    seed: 0x5eed_cafe_f00d_d00d,
                },
                metric,
                dim,
                nodes: seq![],
                entry: None,
                max_layer: 0,
                rng: 0x5eed_cafe_f00d_d00d,
            }),
            r.records() == Map::<u64, Record>::empty(),
    {
        HnswIndex::new(dim, metric, HnswConfig::default())
    }

    /// The parameters of the index.
    pub fn config(&self) -> (r: HnswConfig)
        ensures
            r == self@.config,
    {
        self.config
    }

    /// The metric of the index.
    pub fn metric(&self) -> (r: DistanceMetric)
        ensures
            r == self@.metric,
    {
        self.metric
    }

    proof fn lemma_lookup(&self, id: u64)
        requires
            self.wf(),
        ensures
            self.records().contains_key(id) == (self.id_to_pos@.contains_key(id)
                && !self.nodes@[self.id_to_pos@[id] as int].deleted),
            self.id_to_pos@.contains_key(id) ==> self.id_to_pos@[id] < self.nodes@.len(),
            self.records().contains_key(id) ==> {
                let at = self.id_to_pos@[id] as int;
                &&& self@.nodes[at] == self.nodes@[at]@
                &&& self.records()[id] == (Record {
                    vector: self@.nodes[at].vector,
                    payload: self@.nodes[at].payload,
                })
                &&& self@.points()[at].live
                &&& self@.points()[at].id == id
                &&& self@.place_of(id) == at
            },
    {
        let v = self@;
        lemma_live_records(v.points());
        if self.id_to_pos@.contains_key(id) {
            let at = self.id_to_pos@[id] as int;
            assert(v.nodes[at] == self.nodes@[at]@);
            if !self.nodes@[at].deleted {
                assert(v.points()[at].live);
            }
        }
        if self.records().contains_key(id) {
            let i = choose|i: int|
                #![trigger v.points()[i]]
                0 <= i < v.points().len() && v.points()[i].live && v.points()[i].id == id;
            assert(self.nodes@[i].id.0 == id);
            assert(v.nodes[i].id == id);
            let p = v.place_of(id);
            assert(0 <= p < v.nodes.len() && !v.nodes[p].deleted && v.nodes[p].id == id);
            assert(v.points()[p].live);
        }
    }

    /// Whether a live vector has the id.
    pub fn contains(&self, id: VectorId) -> (r: bool)
        requires
            self.wf(),
        ensures
            r == self.records().contains_key(id.0),
    {
        proof {
            self.lemma_lookup(id.0);
        }
        match self.id_to_pos.get(&id.0) {
            Some(pos) => !self.nodes[*pos as usize].deleted,
            None => false,
        }
    }

    /// Descends from the entry node and runs the beam on layer 0.
    fn walk<F: Fn(FloatOp, u64, u64) -> u64>(
        &self,
        fpu: &F,
        query: &[u32],
        k: usize,
        ef: usize,
        filter: Option<&Filter>,
        entry: u32,
        record: bool,
    ) -> (r: Walk)
        requires
            self@.wf(),
            is_arithmetic(*fpu),
            query@.len() == self@.dim,
            self@.entry == Some(entry),
        ensures
            ({
                let ar = arith_of(*fpu);
                let v = self@;
                let end = v.search_beam(ar, query@, k, ef, optional_filter(filter));
                &&& r.best@ == end.best
                &&& record ==> r.events@ == end.events
                &&& r.descent@ == descent_steps(
                    v.nodes,
                    v.dist(ar, query@),
                    v.max_layer as int,
                    1,
                    entry,
                )
                &&& r.evals == clamped(
                    descent_cost(v.nodes, v.dist(ar, query@), v.max_layer as int, 1, entry),
                )
                &&& forall|i: int|
                    0 <= i < r.best@.len() ==> (#[trigger] r.best@[i]).label < v.nodes.len()
            }),
    {
        let ghost ar = arith_of(*fpu);
        let ghost v = self@;
        let ep_dist: u32 = dist_to_node(&self.nodes, self.metric, fpu, query, entry);
        let down = descend_layers(
            &self.nodes,
            self.metric,
            fpu,
            query,
            entry,
            ep_dist,
            self.max_layer,
            1,
        );
        let width: usize = if ef < k {
            k
        } else {
            ef
        };
        let admission = Admission::Matching(filter);
        let (best, events) = search_layer(
            &self.nodes,
            self.metric,
            fpu,
            query,
            down.ep,
            down.ep_dist,
            width,
            0,
            &admission,
            record,
        );
        proof {
            let t = v.ground(ar, query@, optional_filter(filter));
            let end = v.search_beam(ar, query@, k, ef, optional_filter(filter));
            assert(best@ == end.best);
            assert forall|i: int| 0 <= i < best@.len() implies (#[trigger] best@[i]).label
                < v.nodes.len() by {
                assert(end.best.contains(best@[i]));
                assert(seen(t, end.visited, best@[i]));
            }
        }
        Walk { best, events, descent: down.steps, evals: down.evals }
    }

    /// Looks at every live node for the closest ones that a filter lets
    /// through.
    fn scan<F: Fn(FloatOp, u64, u64) -> u64>(
        &self,
        fpu: &F,
        query: &[u32],
        k: usize,
        filter: Option<&Filter>,
    ) -> (r: Vec<Candidate>)
        requires
            self@.wf(),
            is_arithmetic(*fpu),
            query@.len() == self@.dim,
            k > 0,
        ensures
            r@ == self@.scanned(arith_of(*fpu), query@, k, optional_filter(filter)),
            forall|i: int|
                0 <= i < r@.len() ==> (#[trigger] r@[i]).label < self.nodes@.len(),
    {
        let ghost ar = arith_of(*fpu);
        let ghost v = self@;
        let ghost fv = optional_filter(filter);
        let ghost points = placed_points(v.nodes);
        let n: usize = self.nodes.len();
        let mut best: Vec<Candidate> = Vec::new();
        let mut i: usize = 0;
        assert(points.take(0) =~= seq![]);
        assert(best@ =~= first(ranked(seq![]), k as int));
        while i < n
            invariant
                is_arithmetic(*fpu),
                ar == arith_of(*fpu),
                v == self@,
                v.wf(),
                points == placed_points(v.nodes),
                fv == optional_filter(filter),
                query@.len() == v.dim,
                n == self.nodes@.len(),
                n == points.len(),
                k > 0,
                i <= n,
                best@ == first(
                    ranked(matches_of(points.take(i as int), v.metric, ar, query@, fv)),
                    k as int,
                ),
            decreases n - i,
        {
            let node = &self.nodes[i];
            assert(v.nodes[i as int] == node@);
            assert(points.take(i as int + 1).drop_last() =~= points.take(i as int));
            if !node.deleted && lets_through(filter, node.payload.as_ref()) {
                let distance: u32 = self.metric.measure(fpu, query, node.vector.as_slice());
                offer(
                    &mut best,
                    k,
                    Candidate { distance, label: i as u64 },
                    Ghost(matches_of(points.take(i as int), v.metric, ar, query@, fv)),
                );
            }
            i = i + 1;
        }
        assert(points.take(n as int) =~= points);
        proof {
            lemma_scanned(v, ar, query@, k, fv);
        }
        best
    }

    /// Searches with a beam of width `ef`, or `k` if that is more.
    pub fn search_with_ef<F: Fn(FloatOp, u64, u64) -> u64>(
        &self,
        fpu: &F,
        query: &[u32],
        k: usize,
        ef: usize,
    ) -> (r: Result<Vec<SearchResult>>)
        requires
            self.wf(),
            is_arithmetic(*fpu),
        ensures
            match r {
                Ok(hits) => self@.found_outcome(arith_of(*fpu), query@, k, ef, None) == Ok::<
                    Seq<SearchResult>,
                    VexError,
                >(hits@),
                Err(e) => self@.found_outcome(arith_of(*fpu), query@, k, ef, None) == Err::<
                    Seq<SearchResult>,
                    VexError,
                >(e),
            },
    {
        self.search_filtered_with_ef(fpu, query, k, ef, None)
    }

    /// Searches, with a beam of width `ef` or more, among the vectors that a
    /// filter lets through.
    ///
    /// The filter is applied during the walk: what it does not let through
    /// routes the beam without taking one of its result slots, so a selective
    /// filter widens the search. Where the walk comes by fewer than `k` hits,
    /// every live vector is looked at, so fewer than `k` results mean that
    /// fewer vectors are let through.
    pub fn search_filtered_with_ef<F: Fn(FloatOp, u64, u64) -> u64>(
        &self,
        fpu: &F,
        query: &[u32],
        k: usize,
        ef: usize,
        filter: Option<&Filter>,
    ) -> (r: Result<Vec<SearchResult>>)
        requires
            self.wf(),
            is_arithmetic(*fpu),
        ensures
            match r {
                Ok(hits) => {
                    &&& self@.found_outcome(
                        arith_of(*fpu),
                        query@,
                        k,
                        ef,
                        optional_filter(filter),
                    ) == Ok::<Seq<SearchResult>, VexError>(hits@)
                    &&& sound_answer(
                        self.records(),
                        self.spec_metric(),
                        arith_of(*fpu),
                        query@,
                        k as int,
                        optional_filter(filter),
                        hits@,
                    )
                },
                Err(e) => self@.found_outcome(
                    arith_of(*fpu),
                    query@,
                    k,
                    ef,
                    optional_filter(filter),
                ) == Err::<Seq<SearchResult>, VexError>(e),
            },
    {
        if k == 0 {
            return Err(VexError::InvalidK);
        }
        if query.len() != self.dim {
            return Err(
                VexError::DimensionMismatch { expected: self.dim, actual: query.len() },
            );
        }
        proof {
            lemma_found(self@, arith_of(*fpu), query@, k, ef, optional_filter(filter));
        }
        let near: Vec<Candidate> = match self.entry_point {
            Some(entry) if self.live_count > 0 => self.walk(
                fpu,
                query,
                k,
                ef,
                filter,
                entry,
                false,
            ).best,
            _ => Vec::new(),
        };
        if near.len() < k {
            let all = self.scan(fpu, query, k, filter);
            assert(first(all@, k as int) =~= all@);
            return Ok(hits_of(&self.nodes, &all, k));
        }
        Ok(hits_of(&self.nodes, &near, k))
    }
}

impl HnswIndex {
    /// Searches as [`HnswIndex::search_filtered_with_ef`] does and records the
    /// walk. The record observes the walk and never alters it.
    pub fn search_traced<F: Fn(FloatOp, u64, u64) -> u64>(
        &self,
        fpu: &F,
        query: &[u32],
        k: usize,
        ef: usize,
        filter: Option<&Filter>,
    ) -> (r: Result<(Vec<SearchResult>, SearchTrace)>)
        requires
            self.wf(),
            is_arithmetic(*fpu),
        ensures
            match r {
                Ok((hits, trace)) => {
                    &&& self@.found_outcome(
                        arith_of(*fpu),
                        query@,
                        k,
                        ef,
                        optional_filter(filter),
                    ) == Ok::<Seq<SearchResult>, VexError>(hits@)
                    &&& trace@ == self@.trace(
                        arith_of(*fpu),
                        query@,
                        k,
                        ef,
                        optional_filter(filter),
                    )
                },
                Err(e) => self@.found_outcome(
                    arith_of(*fpu),
                    query@,
                    k,
                    ef,
                    optional_filter(filter),
                ) == Err::<Seq<SearchResult>, VexError>(e),
            },
    {
        if k == 0 {
            return Err(VexError::InvalidK);
        }
        if query.len() != self.dim {
            return Err(
                VexError::DimensionMismatch { expected: self.dim, actual: query.len() },
            );
        }
        let entry: u32 = match self.entry_point {
            Some(entry) if self.live_count > 0 => entry,
            _ => {
                let trace = SearchTrace {
                    entry_id: None,
                    max_layer: self.max_layer,
                    descent: Vec::new(),
                    beam: Vec::new(),
                    visited: 0,
                    distance_evals: 0,
                };
                let all = self.scan(fpu, query, k, filter);
                assert(first(all@, k as int) =~= all@);
                return Ok((hits_of(&self.nodes, &all, k), trace));
            },
        };
        proof {
            lemma_search_beam(self@, arith_of(*fpu), query@, k, ef, optional_filter(filter));
        }
        let walk = self.walk(fpu, query, k, ef, filter, entry, true);
        assert forall|i: int| 0 <= i < walk.events@.len() implies (
        #[trigger] walk.events@[i]).0.label < self.nodes@.len() by {
            let t = self@.ground(arith_of(*fpu), query@, optional_filter(filter));
            assert(t.size() == self.nodes@.len());
        }
        let hits = if walk.best.len() < k {
            let all = self.scan(fpu, query, k, filter);
            assert(first(all@, k as int) =~= all@);
            hits_of(&self.nodes, &all, k)
        } else {
            hits_of(&self.nodes, &walk.best, k)
        };
        let beam = events_of(&self.nodes, &walk.events);
        let visited: usize = walk.events.len();
        assert(self@.nodes[entry as int] == self.nodes@[entry as int]@);
        let trace = SearchTrace {
            entry_id: Some(self.nodes[entry as usize].id.0),
            max_layer: self.max_layer,
            descent: walk.descent,
            beam,
            visited,
            distance_evals: walk.evals.saturating_add(visited),
        };
        Ok((hits, trace))
    }

    /// Searches by looking at every live vector: the exact answer.
    pub fn search_exact<F: Fn(FloatOp, u64, u64) -> u64>(
        &self,
        fpu: &F,
        query: &[u32],
        k: usize,
        filter: Option<&Filter>,
    ) -> (r: Result<Vec<SearchResult>>)
        requires
            self.wf(),
            is_arithmetic(*fpu),
        ensures
            match r {
                Ok(hits) => search_outcome(
                    self@.dim,
                    query@,
                    k,
                    exact_hits(
                        self@.points(),
                        self@.metric,
                        arith_of(*fpu),
                        query@,
                        k as int,
                        optional_filter(filter),
                    ),
                ) == Ok::<Seq<SearchResult>, VexError>(hits@),
                Err(e) => search_outcome(self@.dim, query@, k, seq![]) == Err::<
                    Seq<SearchResult>,
                    VexError,
                >(e),
            },
    {
        if k == 0 {
            return Err(VexError::InvalidK);
        }
        if query.len() != self.dim {
            return Err(
                VexError::DimensionMismatch { expected: self.dim, actual: query.len() },
            );
        }
        let ghost ar = arith_of(*fpu);
        let ghost v = self@;
        let ghost fv = optional_filter(filter);
        let ghost points = v.points();
        let n: usize = self.nodes.len();
        let mut best: Vec<Candidate> = Vec::new();
        let mut i: usize = 0;
        assert(points.take(0) =~= seq![]);
        assert(best@ =~= first(ranked(seq![]), k as int));
        while i < n
            invariant
                is_arithmetic(*fpu),
                ar == arith_of(*fpu),
                v == self@,
                v.wf(),
                points == v.points(),
                fv == optional_filter(filter),
                query@.len() == v.dim,
                n == self.nodes@.len(),
                n == points.len(),
                k > 0,
                i <= n,
                best@ == first(
                    ranked(matches_of(points.take(i as int), v.metric, ar, query@, fv)),
                    k as int,
                ),
            decreases n - i,
        {
            let node = &self.nodes[i];
            assert(v.nodes[i as int] == node@);
            assert(points.take(i as int + 1).drop_last() =~= points.take(i as int));
            if !node.deleted && lets_through(filter, node.payload.as_ref()) {
                let distance: u32 = self.metric.measure(fpu, query, node.vector.as_slice());
                offer(
                    &mut best,
                    k,
                    Candidate { distance, label: node.id.0 },
                    Ghost(matches_of(points.take(i as int), v.metric, ar, query@, fv)),
                );
            }
            i = i + 1;
        }
        assert(points.take(n as int) =~= points);
        Ok(hits_from(&best))
    }

    /// The live vectors with their payloads, in the order in which they are
    /// stored.
    pub fn iter_live(&self) -> (r: Vec<(VectorId, &Vector, Option<&Payload>)>)
        requires
            self.wf(),
        ensures
            live_list(r@) == live_points(self@.points()),
    {
        let ghost points = self@.points();
        let mut out: Vec<(VectorId, &Vector, Option<&Payload>)> = Vec::new();
        let mut i: usize = 0;
        assert(points.take(0) =~= seq![]);
        assert(live_list(out@) =~= seq![]);
        while i < self.nodes.len()
            invariant
                points == self@.points(),
                points.len() == self.nodes@.len(),
                i <= self.nodes@.len(),
                live_list(out@) == live_points(points.take(i as int)),
            decreases self.nodes@.len() - i,
        {
            let node = &self.nodes[i];
            assert(self@.nodes[i as int] == node@);
            assert(points.take(i as int + 1).drop_last() =~= points.take(i as int));
            let ghost was = out@;
            if !node.deleted {
                out.push((node.id, &node.vector, node.payload.as_ref()));
                assert(live_list(out@) =~= live_list(was).push(points[i as int]));
            }
            i = i + 1;
        }
        assert(points.take(i as int) =~= points);
        out
    }
}

impl Index for HnswIndex {
    open(crate) spec fn wf(&self) -> bool {
        &&& self@.wf()
        &&& self.mapped()
        &&& self.live_count == live_count(self@.points())
    }

    open spec fn spec_dim(&self) -> usize {
        self@.dim
    }

    open spec fn spec_metric(&self) -> DistanceMetric {
        self@.metric
    }

    open spec fn records(&self) -> Map<u64, Record> {
        live_records(self@.points())
    }

    open spec fn ready_for(&self, ar: Arith, n: nat) -> bool {
        self@.ready_for(ar, n)
    }

    open spec fn stored(
        &self,
        ar: Arith,
        id: u64,
        vector: Seq<u32>,
        payload: Option<JsonView>,
        after: Self,
    ) -> bool {
        after@ == self@.inserted(ar, id, vector, payload)
    }

    open spec fn dropped(&self, id: u64, after: Self) -> bool {
        after@ == self@.retired(self@.place_of(id))
    }

    open spec fn answer(
        &self,
        ar: Arith,
        query: Seq<u32>,
        k: usize,
        filter: Option<FilterView>,
    ) -> Seq<SearchResult> {
        self@.found(ar, query, k, self@.config.ef_search, filter)
    }

    proof fn lemma_ready_for_less(&self, ar: Arith, n: nat, fewer: nat) {
        lemma_levels_fit_less(ar, self@.config.m, self@.rng, n, fewer);
    }

    fn can_take<F: Fn(FloatOp, u64, u64) -> u64>(&self, fpu: &F, n: usize) -> (r: bool) {
        let count: u64 = self.nodes.len() as u64;
        if self.config.m > usize::MAX / 2 || count > 0x1_0000_0000 || n as u64 > 0x1_0000_0000
            - count {
            return false;
        }
        check_levels(fpu, self.config.m, self.rng_state, n)
    }

    fn add_with_payload<F: Fn(FloatOp, u64, u64) -> u64>(
        &mut self,
        fpu: &F,
        id: VectorId,
        vector: Vector,
        payload: Option<Payload>,
    ) -> (r: Result<()>)
        ensures
            r is Ok ==> final(self)@ == old(self)@.inserted(
                arith_of(*fpu),
                id.0,
                vector@,
                held_payload(payload),
            ),
    {
        if vector.dim() != self.dim {
            return Err(
                VexError::DimensionMismatch { expected: self.dim, actual: vector.dim() },
            );
        }
        proof {
            self.lemma_lookup(id.0);
        }
        if let Some(pos) = self.id_to_pos.get(&id.0) {
            if !self.nodes[*pos as usize].deleted {
                return Err(VexError::DuplicateId(id));
            }
        }
        proof {
            lemma_inserted(self@, arith_of(*fpu), id.0, vector@, held_payload(payload));
        }
        self.insert_node(fpu, id, vector, payload);
        Ok(())
    }

    fn remove(&mut self, id: VectorId) -> (r: Result<bool>)
        ensures
            old(self).records().contains_key(id.0) ==> final(self)@ == old(self)@.retired(
                old(self)@.place_of(id.0),
            ),
    {
        let ghost was = self@;
        proof {
            self.lemma_lookup(id.0);
        }
        let pos: u32 = match self.id_to_pos.get(&id.0) {
            Some(pos) => *pos,
            None => {
                assert(self.records() =~= self.records().remove(id.0));
                return Ok(false);
            },
        };
        if self.nodes[pos as usize].deleted {
            assert(self.records() =~= self.records().remove(id.0));
            return Ok(false);
        }
        proof {
            lemma_retire_point(was.points(), pos as int);
        }
        let ghost nodes = self.nodes@;
        self.nodes[pos as usize].deleted = true;
        self.live_count = self.live_count - 1;
        proof {
            let at = pos as int;
            assert(self@.nodes =~= was.retired(at).nodes);
            let gone = Point { live: false, ..was.points()[at] };
            assert(self@.points() =~= was.points().update(at, gone));
            let now = self@.nodes;
            assert forall|i: int, layer: int, j: int|
                #![trigger now[i].neighbors[layer][j]]
                0 <= i < now.len() && 0 <= layer < now[i].neighbors.len() && 0 <= j
                    < now[i].neighbors[layer].len() implies now[i].neighbors[layer][j] < now.len()
                && now[now[i].neighbors[layer][j] as int].reaches(layer) by {
                assert(now[i].neighbors[layer][j] == was.nodes[i].neighbors[layer][j]);
            }
            assert forall|i: int| 0 <= i < now.len() implies (#[trigger] now[i]).vector.len()
                == was.dim && now[i].neighbors.len() >= 1 by {
                assert(was.nodes[i].neighbors.len() >= 1);
            }
            assert forall|i: int|
                #![trigger self.nodes@[i]]
                0 <= i < self.nodes@.len() implies {
                &&& self.id_to_pos@.contains_key(self.nodes@[i].id.0)
                &&& !self.nodes@[i].deleted ==> self.id_to_pos@[self.nodes@[i].id.0] == i
            } by {
                assert(self.nodes@[i].id == nodes[i].id);
            }
            assert forall|x: u64| #[trigger] self.id_to_pos@.contains_key(
                x,
            ) implies self.id_to_pos@[x] < self.nodes@.len()
                && self.nodes@[self.id_to_pos@[x] as int].id.0 == x by {
                let i = self.id_to_pos@[x] as int;
                assert(self.nodes@[i].id == nodes[i].id);
            }
        }
        Ok(true)
    }

    fn search_filtered<F: Fn(FloatOp, u64, u64) -> u64>(
        &self,
        fpu: &F,
        query: &[u32],
        k: usize,
        filter: Option<&Filter>,
    ) -> (r: Result<Vec<SearchResult>>) {
        self.search_filtered_with_ef(fpu, query, k, self.config.ef_search, filter)
    }

    fn payload(&self, id: VectorId) -> (r: Option<&Payload>) {
        proof {
            self.lemma_lookup(id.0);
        }
        match self.id_to_pos.get(&id.0) {
            Some(pos) => {
                let node = &self.nodes[*pos as usize];
                if node.deleted {
                    None
                } else {
                    node.payload.as_ref()
                }
            },
            None => None,
        }
    }

    fn vector(&self, id: VectorId) -> (r: Option<&Vector>) {
        proof {
            self.lemma_lookup(id.0);
        }
        match self.id_to_pos.get(&id.0) {
            Some(pos) => {
                let node = &self.nodes[*pos as usize];
                if node.deleted {
                    None
                } else {
                    Some(&node.vector)
                }
            },
            None => None,
        }
    }

    fn len(&self) -> (r: usize) {
        proof {
            lemma_live_records(self@.points());
        }
        self.live_count
    }

    fn dim(&self) -> (r: usize) {
        self.dim
    }
}

/// An index with one more vector under an unused id: the invariant holds, the
/// new vector is there and live, and the others are as they were.
pub proof fn lemma_inserted(
    v: HnswView,
    ar: Arith,
    id: u64,
    vector: Seq<u32>,
    payload: Option<JsonView>,
)
    requires
        v.wf(),
        v.nodes.len() < 0x1_0000_0000,
        vector.len() == v.dim,
        !live_records(v.points()).contains_key(id),
    ensures
        ({
            let after = v.inserted(ar, id, vector, payload);
            let n = v.nodes.len() as int;
            &&& after.wf()
            &&& live_records(after.points()) == live_records(v.points()).insert(
                id,
                Record { vector, payload },
            )
            &&& live_count(after.points()) == live_count(v.points()) + 1
            &&& after.nodes.len() == n + 1
            &&& after.nodes[n].id == id
            &&& !after.nodes[n].deleted
            &&& forall|i: int|
                #![trigger after.nodes[i]]
                0 <= i < n ==> after.nodes[i].id == v.nodes[i].id && after.nodes[i].deleted
                    == v.nodes[i].deleted
            &&& forall|m: nat| v.ready_for(ar, m + 1) ==> #[trigger] after.ready_for(ar, m)
        }),
{
    let after = v.inserted(ar, id, vector, payload);
    let rng = next_state(v.rng);
    let level = level_of(ar, v.config.m, scrambled(rng));
    let new_pos = v.nodes.len() as u32;
    let n = v.nodes.len() as int;
    let fresh = NodeView {
        id,
        vector,
        neighbors: Seq::new((level + 1) as nat, |i: int| seq![]),
        deleted: false,
        payload,
    };
    let p = Point { id, live: true, record: Record { vector, payload } };
    let grown = v.nodes.push(fresh);
    lemma_live_records(v.points());
    lemma_push_point(v.points(), p);
    assert(node_points(grown) =~= v.points().push(p));
    lemma_pushed_wf(v.nodes, v.dim as nat, fresh);
    assert(grown[n] == fresh);
    match v.entry {
        None => {},
        Some(entry) => {
            let dist = distances(ar, v.metric, grown, vector);
            let ep = descend(grown, dist, v.max_layer as int, level + 1, entry);
            let top = if level < v.max_layer {
                level
            } else {
                v.max_layer
            };
            assert(grown[entry as int] == v.nodes[entry as int]);
            if level < v.max_layer {
                lemma_descend(grown, v.dim as nat, dist, v.max_layer as int, level + 1, entry);
            }
            lemma_layers_linked(
                ar,
                v.metric,
                v.rules(),
                grown,
                v.dim as nat,
                new_pos,
                top as int,
                ep,
            );
            let linked = after.nodes;
            assert(same_points(grown, linked));
            assert forall|i: int| 0 <= i < linked.len() implies node_points(linked)[i]
                == node_points(grown)[i] by {
                assert(grown[i].id == linked[i].id);
            }
            assert(node_points(linked) =~= node_points(grown));
            assert(grown[entry as int].neighbors.len() == linked[entry as int].neighbors.len());
            assert(grown[n].neighbors.len() == linked[n].neighbors.len());
            assert forall|i: int|
                #![trigger after.nodes[i]]
                0 <= i < n implies after.nodes[i].id == v.nodes[i].id && after.nodes[i].deleted
                == v.nodes[i].deleted by {
                assert(grown[i] == v.nodes[i]);
                assert(linked[i].id == grown[i].id);
            }
        },
    }
}

impl HnswIndex {
    /// Stores a vector that was found fit to be stored.
    fn insert_node<F: Fn(FloatOp, u64, u64) -> u64>(
        &mut self,
        fpu: &F,
        id: VectorId,
        vector: Vector,
        payload: Option<Payload>,
    )
        requires
            old(self).wf(),
            is_arithmetic(*fpu),
            old(self)@.ready_for(arith_of(*fpu), 1),
            vector@.len() == old(self)@.dim,
            !old(self).records().contains_key(id.0),
        ensures
            final(self).wf(),
            final(self)@ == old(self)@.inserted(
                arith_of(*fpu),
                id.0,
                vector@,
                held_payload(payload),
            ),
    {
        let ghost ar = arith_of(*fpu);
        let ghost was = self@;
        let ghost places = self.id_to_pos@;
        let ghost was_nodes = self.nodes@;
        let ghost goal = was.inserted(ar, id.0, vector@, held_payload(payload));
        proof {
            lemma_inserted(was, ar, id.0, vector@, held_payload(payload));
            lemma_live_bound(goal.points());
            self.lemma_lookup(id.0);
        }
        let z: u64 = splitmix(&mut self.rng_state);
        let level: usize = sample_level(fpu, self.config.m, z);
        let new_pos: u32 = self.nodes.len() as u32;
        let query = copied(vector.as_slice());
        let ghost fresh = NodeView {
            id: id.0,
            vector: vector@,
            neighbors: Seq::new((level + 1) as nat, |i: int| seq![]),
            deleted: false,
            payload: held_payload(payload),
        };
        let neighbors = empty_lists(level + 1);
        self.nodes.push(Node { id, vector, neighbors, deleted: false, payload });
        self.id_to_pos.insert(id.0, new_pos);
        let count: usize = self.nodes.len();
        assert(self.live_count < count);
        self.live_count = self.live_count + 1;
        let ghost grown = nodes_view(self.nodes@);
        proof {
            assert(self.nodes@[new_pos as int]@ =~= fresh);
            assert(grown =~= was.nodes.push(fresh));
            lemma_pushed_wf(was.nodes, was.dim as nat, fresh);
            assert(grown[new_pos as int] == fresh);
        }
        match self.entry_point {
            None => {
                self.entry_point = Some(new_pos);
                self.max_layer = level;
            },
            Some(entry) => {
                assert(grown[entry as int] == was.nodes[entry as int]);
                let mut ep: u32 = entry;
                let mut ep_dist: u32 = dist_to_node(
                    &self.nodes,
                    self.metric,
                    fpu,
                    query.as_slice(),
                    entry,
                );
                let mut top: usize = self.max_layer;
                if level < self.max_layer {
                    let down = descend_layers(
                        &self.nodes,
                        self.metric,
                        fpu,
                        query.as_slice(),
                        entry,
                        ep_dist,
                        self.max_layer,
                        level + 1,
                    );
                    ep = down.ep;
                    ep_dist = down.ep_dist;
                    top = level;
                }
                let rules = LinkRules {
                    m: self.config.m,
                    ef_construction: self.config.ef_construction,
                };
                link_layers(
                    &mut self.nodes,
                    self.metric,
                    fpu,
                    &rules,
                    query.as_slice(),
                    new_pos,
                    top,
                    ep,
                    ep_dist,
                );
                if level > self.max_layer {
                    self.max_layer = level;
                    self.entry_point = Some(new_pos);
                }
            },
        }
        proof {
            assert(self@ == goal);
            assert forall|i: int| 0 <= i < self.nodes@.len() implies (#[trigger] self.nodes@[i])@
                == goal.nodes[i] by {
                assert(self@.nodes[i] == self.nodes@[i]@);
            }
            assert forall|i: int| 0 <= i < new_pos implies (#[trigger] self.nodes@[i]).id
                == was_nodes[i].id && self.nodes@[i].deleted == was_nodes[i].deleted by {
                assert(was.nodes[i] == was_nodes[i]@);
                assert(self.nodes@[i]@ == goal.nodes[i]);
            }
            assert(self.nodes@[new_pos as int]@ == goal.nodes[new_pos as int]);
            self.lemma_mapped_after(places, id.0, new_pos);
        }
    }

    /// The count of live nodes is kept right.
    pub(crate) proof fn lemma_live_count(&self)
        requires
            self.wf(),
        ensures
            self.live_count == live_count(self@.points()),
    {
    }

    /// The map is right after a new node took over an id.
    proof fn lemma_mapped_after(&self, places: Map<u64, u32>, id: u64, new_pos: u32)
        requires
            self.id_to_pos@ == places.insert(id, new_pos),
            self.nodes@.len() == new_pos + 1,
            self.nodes@[new_pos as int].id.0 == id,
            forall|i: int|
                #![trigger self.nodes@[i]]
                0 <= i < new_pos ==> {
                    &&& places.contains_key(self.nodes@[i].id.0)
                    &&& !self.nodes@[i].deleted ==> places[self.nodes@[i].id.0] == i
                },
            forall|x: u64| #[trigger]
                places.contains_key(x) ==> places[x] < new_pos
                    && self.nodes@[places[x] as int].id.0 == x,
            places.contains_key(id) ==> self.nodes@[places[id] as int].deleted,
        ensures
            self.mapped(),
    {
    }
}

proof fn lemma_live_bound(points: Seq<Point>)
    ensures
        live_count(points) <= points.len(),
    decreases points.len(),
{
    if points.len() > 0 {
        lemma_live_bound(points.drop_last());
    }
}

/// A new node without edges keeps the graph well formed.
pub(crate) proof fn lemma_pushed_wf(nodes: Seq<NodeView>, dim: nat, fresh: NodeView)
    requires
        graph_wf(nodes, dim),
        nodes.len() < 0x1_0000_0000,
        fresh.vector.len() == dim,
        fresh.neighbors.len() >= 1,
        forall|l: int| 0 <= l < fresh.neighbors.len() ==> (#[trigger] fresh.neighbors[l]).len() == 0,
    ensures
        graph_wf(nodes.push(fresh), dim),
{
    let all = nodes.push(fresh);
    assert forall|i: int, layer: int, j: int|
        #![trigger all[i].neighbors[layer][j]]
        0 <= i < all.len() && 0 <= layer < all[i].neighbors.len() && 0 <= j
            < all[i].neighbors[layer].len() implies all[i].neighbors[layer][j] < all.len()
        && all[all[i].neighbors[layer][j] as int].reaches(layer) by {
        assert(i < nodes.len());
        assert(nodes[i].neighbors[layer][j] < nodes.len());
    }
}

} // verus!
