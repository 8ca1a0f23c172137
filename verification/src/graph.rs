//! The layered proximity graph: its nodes and the walks over them.
use crate::beam::{
    advanced, beam_run, beam_search, beam_start, beam_wf, climb, climb_cost, closest_of,
    lemma_beam_start, lemma_beam_turn, lemma_climb, lemma_closest_of, lemma_visit, steps_left,
    visit, visit_all, worst, Beam, BeamStatus, Terrain,
};
use crate::candidate::{ascending, insert_candidate, Candidate};
use crate::distance::DistanceMetric;
use crate::float::{arith_of, is_arithmetic, is_less, value_key, Arith, FloatOp, INFINITY};
use crate::json::{JsonView, Payload};
use crate::payload::{lets_through, optional_filter, passes, Filter, FilterView};
use crate::vector::{Vector, VectorId};
use vstd::prelude::*;

verus! {

/// A vector in the graph.
#[derive(Debug)]
pub struct Node {
    pub id: VectorId,
    pub vector: Vector,
    /// The neighbors on each layer that the node is on, from layer 0 up.
    pub neighbors: Vec<Vec<u32>>,
    /// Whether the vector was removed. Its node stays to route searches.
    pub deleted: bool,
    pub payload: Option<Payload>,
}

/// A node as mathematics.
#[verifier::ext_equal]
pub struct NodeView {
    pub id: u64,
    pub vector: Seq<u32>,
    pub neighbors: Seq<Seq<u32>>,
    pub deleted: bool,
    pub payload: Option<JsonView>,
}

/// The contents of an optional payload that is held by value.
pub open spec fn held_payload(payload: Option<Payload>) -> Option<JsonView> {
    match payload {
        Some(p) => Some(p@),
        None => None,
    }
}

/// The neighbor lists of a node, layer by layer.
pub open spec fn lists_view(lists: Seq<Vec<u32>>) -> Seq<Seq<u32>> {
    lists.map_values(|list: Vec<u32>| list@)
}

impl View for Node {
    type V = NodeView;

    open spec fn view(&self) -> NodeView {
        NodeView {
            id: self.id.0,
            vector: self.vector@,
            neighbors: lists_view(self.neighbors@),
            deleted: self.deleted,
            payload: held_payload(self.payload),
        }
    }
}

/// All nodes as mathematics.
pub open spec fn nodes_view(nodes: Seq<Node>) -> Seq<NodeView> {
    nodes.map_values(|node: Node| node@)
}

impl NodeView {
    /// Whether the node is on a layer.
    pub open spec fn reaches(self, layer: int) -> bool {
        layer < self.neighbors.len()
    }
}

/// Whether the nodes form a layered graph over vectors of one dimension:
/// every node is on layer 0, and a neighbor on a layer is a node of that layer.
pub open spec fn graph_wf(nodes: Seq<NodeView>, dim: nat) -> bool {
    &&& nodes.len() <= 0x1_0000_0000
    &&& forall|i: int|
        0 <= i < nodes.len() ==> (#[trigger] nodes[i]).vector.len() == dim
            && nodes[i].neighbors.len() >= 1
    &&& forall|i: int, layer: int, j: int|
        #![trigger nodes[i].neighbors[layer][j]]
        0 <= i < nodes.len() && 0 <= layer < nodes[i].neighbors.len() && 0 <= j
            < nodes[i].neighbors[layer].len() ==> nodes[i].neighbors[layer][j] < nodes.len()
            && nodes[nodes[i].neighbors[layer][j] as int].reaches(layer)
}

/// The distance of every node from a query.
pub open spec fn distances(
    ar: Arith,
    metric: DistanceMetric,
    nodes: Seq<NodeView>,
    query: Seq<u32>,
) -> Seq<u32> {
    Seq::new(nodes.len(), |i: int| metric.between(ar, query, nodes[i].vector))
}

/// Which nodes a walk may return.
pub enum Admission<'a> {
    /// Every node, removed ones too.
    Everything,
    /// Live nodes that an optional filter lets through.
    Matching(Option<&'a Filter>),
}

/// Which nodes are live and pass a filter.
pub open spec fn matching(nodes: Seq<NodeView>, filter: Option<FilterView>) -> Seq<bool> {
    Seq::new(nodes.len(), |i: int| !nodes[i].deleted && passes(filter, nodes[i].payload))
}

/// Every node.
pub open spec fn everyone(nodes: Seq<NodeView>) -> Seq<bool> {
    Seq::new(nodes.len(), |i: int| true)
}

impl<'a> Admission<'a> {
    /// Which nodes may be returned.
    pub open spec fn eligible(self, nodes: Seq<NodeView>) -> Seq<bool> {
        match self {
            Admission::Everything => everyone(nodes),
            Admission::Matching(filter) => matching(nodes, optional_filter(filter)),
        }
    }
}

/// One layer of the graph as a query sees it.
pub open spec fn layer_terrain(
    nodes: Seq<NodeView>,
    layer: int,
    dist: Seq<u32>,
    eligible: Seq<bool>,
) -> Terrain {
    Terrain {
        on: Seq::new(nodes.len(), |i: int| nodes[i].reaches(layer)),
        links: Seq::new(
            nodes.len(),
            |i: int|
                if nodes[i].reaches(layer) {
                    nodes[i].neighbors[layer]
                } else {
                    seq![]
                },
        ),
        dist,
        eligible,
    }
}

/// Where the descent through the layers from `top` down to `bottom` ends: on
/// each layer a hill climb from where the one above ended.
pub open spec fn descend(
    nodes: Seq<NodeView>,
    dist: Seq<u32>,
    top: int,
    bottom: int,
    ep: u32,
) -> u32
    decreases top - bottom + 1,
{
    if top < bottom {
        ep
    } else {
        descend(
            nodes,
            dist,
            top - 1,
            bottom,
            climb(layer_terrain(nodes, top, dist, everyone(nodes)), ep),
        )
    }
}

/// A layer of a well-formed graph is a well-formed terrain.
pub proof fn lemma_layer_terrain(
    nodes: Seq<NodeView>,
    dim: nat,
    layer: int,
    dist: Seq<u32>,
    eligible: Seq<bool>,
)
    requires
        graph_wf(nodes, dim),
        0 <= layer,
        dist.len() == nodes.len(),
        eligible.len() == nodes.len(),
    ensures
        layer_terrain(nodes, layer, dist, eligible).wf(),
{
    let t = layer_terrain(nodes, layer, dist, eligible);
    assert forall|i: int, j: int|
        #![trigger t.links[i][j]]
        0 <= i < t.size() && t.on[i] && 0 <= j < t.links[i].len() implies t.links[i][j]
        < t.size() && t.on[t.links[i][j] as int] by {
        assert(nodes[i].neighbors[layer][j] < nodes.len());
    }
}

/// The descent ends on a node of the layer that the walk goes on with.
pub proof fn lemma_descend(
    nodes: Seq<NodeView>,
    dim: nat,
    dist: Seq<u32>,
    top: int,
    bottom: int,
    ep: u32,
)
    requires
        graph_wf(nodes, dim),
        dist.len() == nodes.len(),
        0 <= bottom <= top + 1,
        ep < nodes.len(),
        nodes[ep as int].reaches(top),
    ensures
        descend(nodes, dist, top, bottom, ep) < nodes.len(),
        nodes[descend(nodes, dist, top, bottom, ep) as int].reaches(bottom - 1),
        top >= bottom ==> nodes[descend(nodes, dist, top, bottom, ep) as int].reaches(bottom),
    decreases top - bottom + 1,
{
    if top >= bottom {
        let t = layer_terrain(nodes, top, dist, everyone(nodes));
        lemma_layer_terrain(nodes, dim, top, dist, everyone(nodes));
        lemma_climb(t, ep);
        let next = climb(t, ep);
        assert(t.on[next as int]);
        lemma_descend(nodes, dim, dist, top - 1, bottom, next);
    }
}

/// The distance of a node from a query.
pub fn dist_to_node<F: Fn(FloatOp, u64, u64) -> u64>(
    nodes: &Vec<Node>,
    metric: DistanceMetric,
    fpu: &F,
    query: &[u32],
    node: u32,
) -> (r: u32)
    requires
        is_arithmetic(*fpu),
        graph_wf(nodes_view(nodes@), query@.len()),
        node < nodes@.len(),
    ensures
        r == metric.between(arith_of(*fpu), query@, nodes_view(nodes@)[node as int].vector),
        r == distances(arith_of(*fpu), metric, nodes_view(nodes@), query@)[node as int],
{
    assert(nodes_view(nodes@)[node as int].vector.len() == query@.len());
    metric.measure(fpu, query, nodes[node as usize].vector.as_slice())
}

/// Hill climb on one layer: moves to closer neighbors until none is closer.
/// Also counts the distances measured, up to what a `usize` holds.
pub fn greedy_closest<F: Fn(FloatOp, u64, u64) -> u64>(
    nodes: &Vec<Node>,
    metric: DistanceMetric,
    fpu: &F,
    query: &[u32],
    from: u32,
    from_dist: u32,
    layer: usize,
) -> (r: (u32, u32, usize))
    requires
        is_arithmetic(*fpu),
        graph_wf(nodes_view(nodes@), query@.len()),
        from < nodes@.len(),
        nodes_view(nodes@)[from as int].reaches(layer as int),
        from_dist == distances(arith_of(*fpu), metric, nodes_view(nodes@), query@)[from as int],
    ensures
        ({
            let all = nodes_view(nodes@);
            let dist = distances(arith_of(*fpu), metric, all, query@);
            let t = layer_terrain(all, layer as int, dist, everyone(all));
            &&& r.0 == climb(t, from)
            &&& r.1 == dist[r.0 as int]
            &&& r.2 == if climb_cost(t, from) <= usize::MAX {
                climb_cost(t, from)
            } else {
                usize::MAX as nat
            }
            &&& t.holds(r.0)
        }),
{
    let ghost all = nodes_view(nodes@);
    let ghost dist = distances(arith_of(*fpu), metric, all, query@);
    let ghost t = layer_terrain(all, layer as int, dist, everyone(all));
    let mut ep: u32 = from;
    let mut ep_dist: u32 = from_dist;
    let mut cost: usize = 0;
    let ghost mut spent: nat = 0;
    proof {
        lemma_layer_terrain(all, query@.len(), layer as int, dist, everyone(all));
        lemma_climb(t, from);
    }
    loop
        invariant
            is_arithmetic(*fpu),
            all == nodes_view(nodes@),
            graph_wf(all, query@.len()),
            dist == distances(arith_of(*fpu), metric, all, query@),
            t == layer_terrain(all, layer as int, dist, everyone(all)),
            t.wf(),
            t.holds(ep),
            t.holds(climb(t, from)),
            ep_dist == dist[ep as int],
            climb(t, ep) == climb(t, from),
            climb_cost(t, from) == spent + climb_cost(t, ep),
            cost == if spent <= usize::MAX {
                spent
            } else {
                usize::MAX as nat
            },
        decreases value_key(ep_dist) + 0x8000_0000,
    {
        let start: u32 = ep;
        let ghost start_dist = ep_dist;
        let ghost list = t.links[start as int];
        assert(list == all[start as int].neighbors[layer as int]);
        let len: usize = nodes[start as usize].neighbors[layer].len();
        let mut i: usize = 0;
        assert(list.take(0) =~= Seq::<u32>::empty());
        while i < len
            invariant
                is_arithmetic(*fpu),
                all == nodes_view(nodes@),
                graph_wf(all, query@.len()),
                dist == distances(arith_of(*fpu), metric, all, query@),
                t == layer_terrain(all, layer as int, dist, everyone(all)),
                t.wf(),
                t.holds(start),
                list == t.links[start as int],
                list == all[start as int].neighbors[layer as int],
                len == list.len(),
                i <= len,
                ep == closest_of(t, start, list.take(i as int)),
                t.holds(ep),
                ep_dist == dist[ep as int],
            decreases len - i,
        {
            let nb: u32 = nodes[start as usize].neighbors[layer][i];
            assert(nb == t.links[start as int][i as int]);
            let d: u32 = dist_to_node(nodes, metric, fpu, query, nb);
            assert(list.take(i as int + 1).drop_last() =~= list.take(i as int));
            if is_less(d, ep_dist) {
                ep = nb;
                ep_dist = d;
            }
            i = i + 1;
        }
        assert(list.take(len as int) =~= list);
        proof {
            lemma_closest_of(t, start, list);
            spent = spent + list.len();
        }
        cost = cost.saturating_add(len);
        if ep == start {
            return (ep, ep_dist, cost);
        }
    }
}

/// Whether a node may be returned.
fn is_eligible(nodes: &Vec<Node>, admission: &Admission<'_>, node: u32) -> (r: bool)
    requires
        node < nodes@.len(),
    ensures
        r == admission.eligible(nodes_view(nodes@))[node as int],
{
    assert(nodes_view(nodes@)[node as int] == nodes@[node as int]@);
    match admission {
        Admission::Everything => true,
        Admission::Matching(filter) => {
            let held = &nodes[node as usize];
            !held.deleted && lets_through(*filter, held.payload.as_ref())
        },
    }
}

/// The distance of the farthest result so far.
fn worst_of(best: &Vec<Candidate>) -> (r: u32)
    ensures
        r == worst(best@),
{
    if best.len() == 0 {
        INFINITY
    } else {
        best[best.len() - 1].distance
    }
}

/// The candidate that a node is.
fn node_candidate(node: u32, distance: u32) -> (r: Candidate)
    ensures
        r.distance == distance,
        r.label == node,
{
    Candidate { distance, label: node as u64 }
}

/// Beam search on one layer: the frontier is expanded closest first until it
/// is empty, or the results are full and none of the frontier is closer than
/// the worst of them. Nodes that may not be returned route the beam all the
/// same. Gives the results in ascending order and, where asked to, a record
/// of every node looked at.
pub fn search_layer<F: Fn(FloatOp, u64, u64) -> u64>(
    nodes: &Vec<Node>,
    metric: DistanceMetric,
    fpu: &F,
    query: &[u32],
    ep: u32,
    ep_dist: u32,
    ef: usize,
    layer: usize,
    admission: &Admission<'_>,
    record: bool,
) -> (r: (Vec<Candidate>, Vec<(Candidate, BeamStatus)>))
    requires
        is_arithmetic(*fpu),
        graph_wf(nodes_view(nodes@), query@.len()),
        ep < nodes@.len(),
        nodes_view(nodes@)[ep as int].reaches(layer as int),
        ep_dist == distances(arith_of(*fpu), metric, nodes_view(nodes@), query@)[ep as int],
    ensures
        ({
            let all = nodes_view(nodes@);
            let dist = distances(arith_of(*fpu), metric, all, query@);
            let t = layer_terrain(all, layer as int, dist, admission.eligible(all));
            &&& t.wf()
            &&& beam_wf(t, beam_search(t, ep, ef as int))
            &&& r.0@ == beam_search(t, ep, ef as int).best
            &&& record ==> r.1@ == beam_search(t, ep, ef as int).events
        }),
{
    let ghost all = nodes_view(nodes@);
    let ghost dist = distances(arith_of(*fpu), metric, all, query@);
    let ghost t = layer_terrain(all, layer as int, dist, admission.eligible(all));
    proof {
        lemma_layer_terrain(all, query@.len(), layer as int, dist, admission.eligible(all));
        lemma_beam_start(t, ep);
    }
    let n: usize = nodes.len();
    let mut visited: Vec<bool> = vec![false; n];
    visited.set(ep as usize, true);
    let start = node_candidate(ep, ep_dist);
    let mut frontier: Vec<Candidate> = Vec::new();
    frontier.push(start);
    let mut best: Vec<Candidate> = Vec::new();
    let mut events: Vec<(Candidate, BeamStatus)> = Vec::new();
    let start_eligible = is_eligible(nodes, admission, ep);
    if start_eligible {
        best.push(start);
    }
    if record {
        events.push(
            (
                start,
                if start_eligible {
                    BeamStatus::Admitted
                } else {
                    BeamStatus::Routed
                },
            ),
        );
    }
    let ghost mut b = beam_start(t, ep);
    let ghost goal = beam_search(t, ep, ef as int);
    assert(visited@ =~= b.visited);
    assert(frontier@ =~= b.frontier);
    assert(best@ =~= b.best);
    assert(record ==> events@ =~= b.events);
    while frontier.len() > 0
        invariant_except_break
            beam_run(t, b, ef as int) == goal,
        invariant
            is_arithmetic(*fpu),
            all == nodes_view(nodes@),
            graph_wf(all, query@.len()),
            n == nodes@.len(),
            dist == distances(arith_of(*fpu), metric, all, query@),
            t == layer_terrain(all, layer as int, dist, admission.eligible(all)),
            t.wf(),
            beam_wf(t, b),
            visited@ == b.visited,
            best@ == b.best,
            frontier@ == b.frontier,
            record ==> events@ == b.events,
        ensures
            best@ == goal.best,
            record ==> events@ == goal.events,
            beam_wf(t, goal),
        decreases steps_left(b),
    {
        let current = frontier[0];
        proof {
            lemma_beam_turn(t, b, ef as int);
        }
        let far: u32 = worst_of(&best);
        if best.len() >= ef && is_less(far, current.distance) {
            break;
        }
        frontier.remove(0);
        let ghost before_turn = b;
        proof {
            b = advanced(b);
        }
        assert(frontier@ =~= b.frontier);
        let at: usize = current.label as usize;
        let ghost list = t.links[at as int];
        let ghost base = b;
        assert(list == all[at as int].neighbors[layer as int]);
        let len: usize = nodes[at].neighbors[layer].len();
        let mut i: usize = 0;
        assert(list.take(0) =~= Seq::<u32>::empty());
        while i < len
            invariant
                is_arithmetic(*fpu),
                all == nodes_view(nodes@),
                graph_wf(all, query@.len()),
                n == nodes@.len(),
                dist == distances(arith_of(*fpu), metric, all, query@),
                t == layer_terrain(all, layer as int, dist, admission.eligible(all)),
                t.wf(),
                at < n,
                t.on[at as int],
                list == t.links[at as int],
                list == all[at as int].neighbors[layer as int],
                len == list.len(),
                i <= len,
                forall|j: int| #![trigger list[j]] 0 <= j < list.len() ==> t.holds(list[j]),
                beam_wf(t, b),
                b == visit_all(t, base, ef as int, list.take(i as int)),
                visited@ == b.visited,
                best@ == b.best,
                frontier@ == b.frontier,
                record ==> events@ == b.events,
            decreases len - i,
        {
            let nb: u32 = nodes[at].neighbors[layer][i];
            assert(nb == list[i as int]);
            assert(list.take(i as int + 1).drop_last() =~= list.take(i as int));
            let ghost prev = b;
            proof {
                lemma_visit(t, b, ef as int, nb);
                b = visit(t, b, ef as int, nb);
            }
            if !visited[nb as usize] {
                visited.set(nb as usize, true);
                let d: u32 = dist_to_node(nodes, metric, fpu, query, nb);
                let c = node_candidate(nb, d);
                let far: u32 = worst_of(&best);
                let status = if best.len() < ef || is_less(d, far) {
                    insert_candidate(&mut frontier, c);
                    if is_eligible(nodes, admission, nb) {
                        insert_candidate(&mut best, c);
                        if best.len() > ef {
                            best.pop();
                        }
                        BeamStatus::Admitted
                    } else {
                        BeamStatus::Routed
                    }
                } else {
                    BeamStatus::Discarded
                };
                if record {
                    events.push((c, status));
                }
                assert(c == t.candidate(nb));
                assert(visited@ =~= b.visited);
                assert(best@ =~= b.best);
                assert(frontier@ =~= b.frontier);
            }
            i = i + 1;
        }
        assert(list.take(len as int) =~= list);
    }
    (best, events)
}

// ---------------------------------------------------------------------------
// Descent
// ---------------------------------------------------------------------------

/// Where the descent left a layer.
#[derive(Clone, Copy, Debug, PartialEq, Eq, Structural)]
pub struct DescentStep {
    pub layer: usize,
    pub id: u64,
    pub distance: u32,
}

/// The steps of the descent from layer `top` down to layer `bottom`.
pub open spec fn descent_steps(
    nodes: Seq<NodeView>,
    dist: Seq<u32>,
    top: int,
    bottom: int,
    ep: u32,
) -> Seq<DescentStep>
    decreases top - bottom + 1,
{
    if top < bottom {
        seq![]
    } else {
        let next = climb(layer_terrain(nodes, top, dist, everyone(nodes)), ep);
        seq![
            DescentStep {
                layer: top as usize,
                id: nodes[next as int].id,
                distance: dist[next as int],
            },
        ] + descent_steps(nodes, dist, top - 1, bottom, next)
    }
}

/// How many distances the descent measures.
pub open spec fn descent_cost(
    nodes: Seq<NodeView>,
    dist: Seq<u32>,
    top: int,
    bottom: int,
    ep: u32,
) -> nat
    decreases top - bottom + 1,
{
    if top < bottom {
        0
    } else {
        let t = layer_terrain(nodes, top, dist, everyone(nodes));
        climb_cost(t, ep) + descent_cost(nodes, dist, top - 1, bottom, climb(t, ep))
    }
}

/// A count, as far as a `usize` can tell.
pub open spec fn clamped(n: nat) -> nat {
    if n <= usize::MAX {
        n
    } else {
        usize::MAX as nat
    }
}

/// What came of a descent.
pub struct Descent {
    /// The node that it ended on.
    pub ep: u32,
    /// The distance of that node.
    pub ep_dist: u32,
    /// How many distances were measured.
    pub evals: usize,
    /// Where each layer was left.
    pub steps: Vec<DescentStep>,
}

/// Greedy descent from layer `top` down to layer `bottom`.
pub fn descend_layers<F: Fn(FloatOp, u64, u64) -> u64>(
    nodes: &Vec<Node>,
    metric: DistanceMetric,
    fpu: &F,
    query: &[u32],
    from: u32,
    from_dist: u32,
    top: usize,
    bottom: usize,
) -> (r: Descent)
    requires
        is_arithmetic(*fpu),
        graph_wf(nodes_view(nodes@), query@.len()),
        from < nodes@.len(),
        nodes_view(nodes@)[from as int].reaches(top as int),
        bottom <= top + 1,
        from_dist == distances(arith_of(*fpu), metric, nodes_view(nodes@), query@)[from as int],
    ensures
        ({
            let all = nodes_view(nodes@);
            let dist = distances(arith_of(*fpu), metric, all, query@);
            &&& r.ep == descend(all, dist, top as int, bottom as int, from)
            &&& r.ep < all.len()
            &&& r.ep_dist == dist[r.ep as int]
            &&& r.steps@ == descent_steps(all, dist, top as int, bottom as int, from)
            &&& r.evals == clamped(descent_cost(all, dist, top as int, bottom as int, from))
            &&& bottom <= top ==> all[r.ep as int].reaches(bottom as int)
            &&& all[r.ep as int].reaches(bottom - 1)
        }),
{
    let ghost all = nodes_view(nodes@);
    let ghost dist = distances(arith_of(*fpu), metric, all, query@);
    let ghost steps_goal = descent_steps(all, dist, top as int, bottom as int, from);
    let ghost cost_goal = descent_cost(all, dist, top as int, bottom as int, from);
    let mut ep: u32 = from;
    let mut ep_dist: u32 = from_dist;
    let mut evals: usize = 0;
    let mut steps: Vec<DescentStep> = Vec::new();
    let ghost mut spent: nat = 0;
    assert(all[from as int].neighbors.len() == nodes@[from as int].neighbors@.len());
    let layers: usize = nodes[from as usize].neighbors.len();
    assert(top < layers);
    let mut above: usize = top + 1;
    assert(steps@ + steps_goal =~= steps_goal);
    while above > bottom
        invariant
            is_arithmetic(*fpu),
            all == nodes_view(nodes@),
            graph_wf(all, query@.len()),
            dist == distances(arith_of(*fpu), metric, all, query@),
            bottom <= above <= top + 1,
            ep < all.len(),
            ep_dist == dist[ep as int],
            all[ep as int].reaches(above - 1),
            above <= top ==> all[ep as int].reaches(above as int),
            descend(all, dist, above - 1, bottom as int, ep) == descend(
                all,
                dist,
                top as int,
                bottom as int,
                from,
            ),
            steps@ + descent_steps(all, dist, above - 1, bottom as int, ep) == steps_goal,
            spent + descent_cost(all, dist, above - 1, bottom as int, ep) == cost_goal,
            evals == clamped(spent),
        decreases above,
    {
        let layer: usize = above - 1;
        let ghost t = layer_terrain(all, layer as int, dist, everyone(all));
        let ghost was = steps@;
        let ghost rest = descent_steps(all, dist, layer as int, bottom as int, ep);
        let (next, next_dist, cost) = greedy_closest(
            nodes,
            metric,
            fpu,
            query,
            ep,
            ep_dist,
            layer,
        );
        proof {
            spent = spent + climb_cost(t, ep);
            assert(t.on[next as int]);
        }
        evals = evals.saturating_add(cost);
        ep = next;
        ep_dist = next_dist;
        assert(all[next as int] == nodes@[next as int]@);
        steps.push(DescentStep { layer, id: nodes[next as usize].id.0, distance: next_dist });
        above = layer;
        assert(steps@ + descent_steps(all, dist, above - 1, bottom as int, ep) =~= was + rest);
    }
    assert(steps@ + Seq::<DescentStep>::empty() =~= steps@);
    Descent { ep, ep_dist, evals, steps }
}

} // verus!
