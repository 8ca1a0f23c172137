//! What the walk of a search promises: the climb through the sparse layers, the
//! beam on layer 0, and the record of both.
use crate::beam::{
    advanced, beam_run, beam_search, beam_start, beam_wf, climb, climb_cost, closest_of, kept,
    lemma_beam_start, lemma_beam_turn, lemma_climb, lemma_closest_of, lemma_kept, lemma_visit,
    lemma_visit_all, seen, settled, steps_left, visit, visit_all, worst, Beam, BeamStatus, Terrain,
};
use crate::beam_laws::{
    closed_under_links, expanded, law_beam_does_not_starve, law_beam_is_bounded,
    law_beam_keeps_the_closest, reachable,
};
use crate::candidate::{before, first, lemma_place, lemma_with_candidate, place, with_candidate};
use crate::float::{is_nan, lemma_total_order_refines_less, less, Arith};
use crate::graph::{
    descend, descent_cost, descent_steps, everyone, graph_wf, layer_terrain, lemma_layer_terrain,
    DescentStep, NodeView,
};
use crate::hnsw::{lemma_search_beam, HnswView, TraceView};
use crate::hnsw_laws::{law_search_finds_k_or_all, node_hit, wanted};
use crate::payload::FilterView;
use vstd::prelude::*;

verus! {

// ---------------------------------------------------------------------------
// The climb
// ---------------------------------------------------------------------------

/// Of a node and the nodes of a list, none is closer than the one that is held
/// in the end.
pub proof fn law_look_through_holds_the_closest(t: Terrain, held: u32, list: Seq<u32>, j: int)
    ensures
        !less(t.dist[held as int], t.dist[closest_of(t, held, list) as int]),
        0 <= j < list.len() ==> !less(
            t.dist[list[j] as int],
            t.dist[closest_of(t, held, list) as int],
        ),
    decreases list.len(),
{
    if list.len() > 0 {
        let front = list.drop_last();
        law_look_through_holds_the_closest(t, held, front, j);
        if 0 <= j < front.len() {
            assert(front[j] == list[j]);
        }
    }
}

/// Whether the node at a place of a list is closer than those ahead of it.
pub open spec fn closer_than_those_ahead(t: Terrain, list: Seq<u32>, p: int) -> bool {
    &&& 0 <= p < list.len()
    &&& forall|j: int|
        0 <= j < p && !is_nan(t.dist[#[trigger] list[j] as int]) ==> less(
            t.dist[list[p] as int],
            t.dist[list[j] as int],
        )
}

/// Of nodes that are equally close the first is held: the one that was held
/// before, or else the first of the list.
pub proof fn law_look_through_holds_the_first(t: Terrain, held: u32, list: Seq<u32>)
    ensures
        closest_of(t, held, list) != held ==> exists|p: int| #[trigger]
            closer_than_those_ahead(t, list, p) && list[p] == closest_of(t, held, list) && less(
                t.dist[list[p] as int],
                t.dist[held as int],
            ),
    decreases list.len(),
{
    if list.len() > 0 {
        let front = list.drop_last();
        let best = closest_of(t, held, front);
        let last = list.len() - 1;
        law_look_through_holds_the_first(t, held, front);
        if less(t.dist[list.last() as int], t.dist[best as int]) {
            assert forall|j: int|
                0 <= j < last && !is_nan(t.dist[#[trigger] list[j] as int]) implies less(
                t.dist[list[last] as int],
                t.dist[list[j] as int],
            ) by {
                law_look_through_holds_the_closest(t, held, front, j);
                assert(front[j] == list[j]);
            }
            assert(closer_than_those_ahead(t, list, last));
        } else if best != held {
            let p = choose|p: int| #[trigger]
                closer_than_those_ahead(t, front, p) && front[p] == best;
            assert forall|j: int|
                0 <= j < p && !is_nan(t.dist[#[trigger] list[j] as int]) implies less(
                t.dist[list[p] as int],
                t.dist[list[j] as int],
            ) by {
                assert(front[j] == list[j]);
            }
            assert(closer_than_those_ahead(t, list, p));
        }
    }
}

/// The climb ends at a node of the layer none of whose neighbors is closer, and
/// that is no farther than where it began or than any neighbor there; it gets
/// there by neighbors.
pub proof fn law_climb_ends_where_no_neighbor_is_closer(t: Terrain, from: u32)
    requires
        t.wf(),
        t.holds(from),
    ensures
        t.holds(climb(t, from)),
        forall|j: int|
            #![trigger t.links[climb(t, from) as int][j]]
            0 <= j < t.links[climb(t, from) as int].len() ==> !less(
                t.dist[t.links[climb(t, from) as int][j] as int],
                t.dist[climb(t, from) as int],
            ),
        forall|j: int|
            #![trigger t.links[from as int][j]]
            0 <= j < t.links[from as int].len() ==> !less(
                t.dist[t.links[from as int][j] as int],
                t.dist[climb(t, from) as int],
            ),
        climb(t, from) == from || less(t.dist[climb(t, from) as int], t.dist[from as int]),
        reachable(t, from, climb(t, from) as int),
{
    let n = climb(t, from);
    lemma_climb(t, from);
    assert forall|j: int|
        #![trigger t.links[n as int][j]]
        0 <= j < t.links[n as int].len() implies !less(
        t.dist[t.links[n as int][j] as int],
        t.dist[n as int],
    ) by {
        law_look_through_holds_the_closest(t, n, t.links[n as int], j);
    }
    let next = closest_of(t, from, t.links[from as int]);
    assert forall|j: int|
        #![trigger t.links[from as int][j]]
        0 <= j < t.links[from as int].len() implies !less(
        t.dist[t.links[from as int][j] as int],
        t.dist[n as int],
    ) by {
        law_look_through_holds_the_closest(t, from, t.links[from as int], j);
        lemma_closest_of(t, from, t.links[from as int]);
        if next != from {
            let p = choose|p: int|
                0 <= p < t.links[from as int].len() && t.links[from as int][p] == next;
            assert(t.holds(t.links[from as int][p]));
            lemma_climb(t, next);
        }
    }
    lemma_climb_reaches(t, from);
}

proof fn lemma_climb_reaches(t: Terrain, from: u32)
    requires
        t.wf(),
        t.holds(from),
    ensures
        reachable(t, from, climb(t, from) as int),
    decreases crate::float::value_key(t.dist[from as int]) + 0x8000_0000,
{
    let list = t.links[from as int];
    let next = closest_of(t, from, list);
    lemma_closest_of(t, from, list);
    if next != from {
        let j = choose|j: int| 0 <= j < list.len() && list[j] == next;
        assert(t.links[from as int][j] == next);
        lemma_climb_reaches(t, next);
        assert forall|set: Seq<bool>|
            #![trigger closed_under_links(t, set)]
            closed_under_links(t, set) && set[from as int] implies set[climb(t, from) as int] by {
            assert(set[t.links[from as int][j] as int]);
        }
    }
}

/// Whether a step of a descent is at a node: on the step's layer, with the
/// node's id and distance, and with no neighbor there that is closer.
pub open spec fn step_at(
    nodes: Seq<NodeView>,
    dist: Seq<u32>,
    step: DescentStep,
    n: int,
) -> bool {
    &&& 0 <= n < nodes.len()
    &&& step.layer < nodes[n].neighbors.len()
    &&& step.id == nodes[n].id
    &&& step.distance == dist[n]
    &&& forall|j: int|
        #![trigger nodes[n].neighbors[step.layer as int][j]]
        0 <= j < nodes[n].neighbors[step.layer as int].len() ==> !less(
            dist[nodes[n].neighbors[step.layer as int][j] as int],
            step.distance,
        )
}

/// Whether a step of a descent is that of a layer, at some node of it.
pub open spec fn tells_layer(
    nodes: Seq<NodeView>,
    dist: Seq<u32>,
    step: DescentStep,
    layer: int,
) -> bool {
    step.layer == layer && exists|n: int| #[trigger] step_at(nodes, dist, step, n)
}

/// Whether no step of a descent leads away: from where it began, or from a
/// step before.
pub open spec fn leads_nowhere_away(steps: Seq<DescentStep>, start: u32) -> bool {
    &&& forall|i: int|
        #![trigger steps[i]]
        0 <= i < steps.len() ==> !less(start, steps[i].distance)
    &&& forall|i: int, j: int|
        #![trigger steps[i], steps[j]]
        0 <= i < j < steps.len() ==> !less(steps[i].distance, steps[j].distance)
}

/// Whether a record of a descent from the node `ep` on layer `top` to the node
/// `end` tells it layer by layer, down to the first: each step is at a node of
/// its layer none of whose neighbors there is closer, and no step leads away.
pub open spec fn tells_descent(
    nodes: Seq<NodeView>,
    dist: Seq<u32>,
    steps: Seq<DescentStep>,
    top: int,
    ep: int,
    end: int,
) -> bool {
    &&& steps.len() == top
    &&& 0 <= end < nodes.len()
    &&& top == 0 ==> end == ep
    &&& top > 0 ==> step_at(nodes, dist, steps[top - 1], end)
    &&& forall|i: int| 0 <= i < top ==> tells_layer(nodes, dist, #[trigger] steps[i], top - i)
    &&& leads_nowhere_away(steps, dist[ep])
}

proof fn lemma_descent(nodes: Seq<NodeView>, dim: nat, dist: Seq<u32>, top: int, ep: u32)
    requires
        graph_wf(nodes, dim),
        dist.len() == nodes.len(),
        0 <= top <= usize::MAX,
        ep < nodes.len(),
        nodes[ep as int].reaches(top),
    ensures
        tells_descent(
            nodes,
            dist,
            descent_steps(nodes, dist, top, 1, ep),
            top,
            ep as int,
            descend(nodes, dist, top, 1, ep) as int,
        ),
    decreases top,
{
    if top > 0 {
        let t = layer_terrain(nodes, top, dist, everyone(nodes));
        lemma_layer_terrain(nodes, dim, top, dist, everyone(nodes));
        law_climb_ends_where_no_neighbor_is_closer(t, ep);
        let next = climb(t, ep);
        assert(t.on[next as int]);
        lemma_descent(nodes, dim, dist, top - 1, next);
        let steps = descent_steps(nodes, dist, top, 1, ep);
        let rest = descent_steps(nodes, dist, top - 1, 1, next);
        assert(t.links[next as int] == nodes[next as int].neighbors[top]);
        assert forall|j: int|
            #![trigger nodes[next as int].neighbors[top][j]]
            0 <= j < nodes[next as int].neighbors[top].len() implies !less(
            dist[nodes[next as int].neighbors[top][j] as int],
            dist[next as int],
        ) by {
            assert(t.links[next as int][j] == nodes[next as int].neighbors[top][j]);
        }
        assert(step_at(nodes, dist, steps[0], next as int));
        assert(steps.len() == top);
        assert forall|i: int| 0 <= i < top implies tells_layer(
            nodes,
            dist,
            #[trigger] steps[i],
            top - i,
        ) by {
            if i > 0 {
                assert(steps[i] == rest[i - 1]);
                assert(tells_layer(nodes, dist, rest[i - 1], top - 1 - (i - 1)));
            }
        }
        assert(leads_nowhere_away(steps, dist[ep as int])) by {
            assert forall|i: int| #![trigger steps[i]] 0 <= i < top implies !less(
                dist[ep as int],
                steps[i].distance,
            ) by {
                if i > 0 {
                    assert(steps[i] == rest[i - 1]);
                }
            }
            assert forall|i: int, j: int|
                #![trigger steps[i], steps[j]]
                0 <= i < j < top implies !less(steps[i].distance, steps[j].distance) by {
                assert(steps[j] == rest[j - 1]);
                if i > 0 {
                    assert(steps[i] == rest[i - 1]);
                }
            }
        }
        if top > 1 {
            assert(steps[top - 1] == rest[top - 2]);
        } else {
            assert(descend(nodes, dist, top - 1, 1, next) == next);
        }
        let end = descend(nodes, dist, top, 1, ep) as int;
        assert(0 <= end < nodes.len());
        assert(step_at(nodes, dist, steps[top - 1], end));
        assert(tells_descent(nodes, dist, steps, top, ep as int, end));
    }
}

/// The record of a search tells the climb layer by layer, from the highest
/// layer down to the first: each step is at a node of its layer none of whose
/// neighbors there is closer, and no step leads away. The beam starts where the
/// climb ended.
pub proof fn law_trace_tells_the_climb(
    v: HnswView,
    ar: Arith,
    query: Seq<u32>,
    k: usize,
    ef: usize,
    filter: Option<FilterView>,
)
    requires
        v.wf(),
        v.searchable(),
    ensures
        exists|dist: Seq<u32>, end: int| #[trigger]
            tells_climb(v, ar, query, v.trace(ar, query, k, ef, filter), dist, end),
{
    let dist = v.dist(ar, query);
    let entry = v.entry->Some_0;
    lemma_descent(v.nodes, v.dim as nat, dist, v.max_layer as int, entry);
    lemma_search_beam(v, ar, query, k, ef, filter);
    let t = v.ground(ar, query, filter);
    let ep = v.landing(ar, query);
    let width = if ef < k {
        k as int
    } else {
        ef as int
    };
    lemma_told_start(t, ep, width);
    lemma_told_run(t, beam_start(t, ep), width, ep);
    let told = v.trace(ar, query, k, ef, filter);
    let b = v.search_beam(ar, query, k, ef, filter);
    assert(b.events[0].0 == t.candidate(ep));
    assert(told.beam[0].id == v.nodes[ep as int].id);
    assert(tells_climb(v, ar, query, told, dist, ep as int));
}

/// Whether a record of a search tells the climb from the entry node to the node
/// `end`, where the beam starts; `dist` are the distances from the query.
pub open spec fn tells_climb(
    v: HnswView,
    ar: Arith,
    query: Seq<u32>,
    told: TraceView,
    dist: Seq<u32>,
    end: int,
) -> bool {
    &&& dist.len() == v.nodes.len()
    &&& forall|i: int|
        #![trigger dist[i]]
        0 <= i < dist.len() ==> dist[i] == v.metric.between(ar, query, v.nodes[i].vector)
    &&& told.entry_id == Some(v.nodes[v.entry->Some_0 as int].id)
    &&& told.max_layer == v.max_layer
    &&& tells_descent(
        v.nodes,
        dist,
        told.descent,
        v.max_layer as int,
        v.entry->Some_0 as int,
        end,
    )
    &&& told.beam.len() > 0
    &&& told.beam[0].id == v.nodes[end].id
    &&& told.beam[0].distance == dist[end]
}

// ---------------------------------------------------------------------------
// The beam
// ---------------------------------------------------------------------------

/// Whether every node looked at has been expanded, waits in the frontier, is
/// the one being expanded, or was passed over for a full set of closer results.
spec fn ends_open(t: Terrain, b: Beam, ef: int, current: int) -> bool {
    forall|i: u32|
        #![trigger b.visited[i as int]]
        i < t.size() && b.visited[i as int] ==> {
            ||| i == current
            ||| expanded(t, b.visited, i as int)
            ||| b.frontier.contains(t.candidate(i))
            ||| b.best.len() >= ef && !less(t.dist[i as int], worst(b.best))
        }
}

proof fn lemma_open_visit(t: Terrain, b: Beam, ef: int, n: u32, current: int)
    requires
        t.wf(),
        beam_wf(t, b),
        t.holds(n),
        ef >= 1,
        ends_open(t, b, ef, current),
    ensures
        ends_open(t, visit(t, b, ef, n), ef, current),
{
    let after = visit(t, b, ef, n);
    let c = t.candidate(n);
    lemma_visit(t, b, ef, n);
    if !b.visited[n as int] {
        lemma_with_candidate(b.frontier, c);
        lemma_with_candidate(b.best, c);
        lemma_place(b.best, c);
        lemma_kept(b.best, c, ef);
        let more = with_candidate(b.best, c);
        let last = b.best.len() - 1;
        let joins = t.eligible[n as int] && (b.best.len() < ef || less(
            c.distance,
            worst(b.best),
        ));
        if joins && b.best.len() >= ef {
            let p = place(b.best, c);
            lemma_total_order_refines_less(c.distance, worst(b.best));
            assert(before(c, b.best[last]));
            assert(p <= last);
            assert(more[last + 1] == b.best[last]);
            assert(after.best =~= more.drop_last());
            assert(after.best.last() == more[last]);
            assert(!before(more[last + 1], more[last]));
        }
        assert forall|i: u32|
            #![trigger after.visited[i as int]]
            i < t.size() && after.visited[i as int] implies {
            ||| i == current
            ||| expanded(t, after.visited, i as int)
            ||| after.frontier.contains(t.candidate(i))
            ||| after.best.len() >= ef && !less(t.dist[i as int], worst(after.best))
        } by {
            if i != n {
                assert(b.visited[i as int]);
                if expanded(t, b.visited, i as int) {
                    assert forall|j: int|
                        #![trigger t.links[i as int][j]]
                        0 <= j
                            < t.links[i as int].len() implies after.visited[t.links[i as int][j] as int] by {
                        assert(b.visited[t.links[i as int][j] as int]);
                    }
                    assert(expanded(t, after.visited, i as int));
                }
            }
        }
    }
}

proof fn lemma_open_visits(t: Terrain, b: Beam, ef: int, list: Seq<u32>, current: int)
    requires
        t.wf(),
        beam_wf(t, b),
        forall|j: int| #![trigger list[j]] 0 <= j < list.len() ==> t.holds(list[j]),
        ef >= 1,
        ends_open(t, b, ef, current),
    ensures
        ends_open(t, visit_all(t, b, ef, list), ef, current),
    decreases list.len(),
{
    if list.len() > 0 {
        let front = list.drop_last();
        assert forall|j: int| #![trigger front[j]] 0 <= j < front.len() implies t.holds(
            front[j],
        ) by {
            assert(front[j] == list[j]);
        }
        lemma_visit_all(t, b, ef, front);
        lemma_open_visits(t, b, ef, front, current);
        assert(t.holds(list[list.len() - 1]));
        lemma_open_visit(t, visit_all(t, b, ef, front), ef, list.last(), current);
    }
}

proof fn lemma_open_run(t: Terrain, b: Beam, ef: int)
    requires
        t.wf(),
        beam_wf(t, b),
        ef >= 1,
        ends_open(t, b, ef, -1),
    ensures
        ({
            let end = beam_run(t, b, ef);
            forall|i: u32|
                #![trigger end.visited[i as int]]
                i < t.size() && end.visited[i as int] ==> expanded(t, end.visited, i as int) || (
                end.best.len() >= ef && !less(t.dist[i as int], worst(end.best)))
        }),
    decreases steps_left(b),
{
    if b.frontier.len() > 0 {
        lemma_beam_turn(t, b, ef);
        let current = b.frontier[0];
        if settled(b, ef, current) {
            assert forall|i: u32|
                #![trigger b.visited[i as int]]
                i < t.size() && b.visited[i as int] implies expanded(t, b.visited, i as int) || (
            b.best.len() >= ef && !less(t.dist[i as int], worst(b.best))) by {
                let c = t.candidate(i);
                if b.frontier.contains(c) {
                    let p = choose|p: int| 0 <= p < b.frontier.len() && b.frontier[p] == c;
                    if p > 0 {
                        assert(!before(b.frontier[p], b.frontier[0]));
                    }
                    lemma_total_order_refines_less(worst(b.best), current.distance);
                    lemma_total_order_refines_less(c.distance, worst(b.best));
                }
            }
        } else {
            let list = t.links[current.label as int];
            let start = advanced(b);
            let here = current.label as int;
            assert(ends_open(t, start, ef, here)) by {
                assert forall|i: u32|
                    #![trigger start.visited[i as int]]
                    i < t.size() && start.visited[i as int] implies {
                    ||| i == here
                    ||| expanded(t, start.visited, i as int)
                    ||| start.frontier.contains(t.candidate(i))
                    ||| start.best.len() >= ef && !less(t.dist[i as int], worst(start.best))
                } by {
                    let c = t.candidate(i);
                    if b.frontier.contains(c) && i != here {
                        let p = choose|p: int| 0 <= p < b.frontier.len() && b.frontier[p] == c;
                        assert(p > 0);
                        assert(start.frontier[p - 1] == c);
                    }
                }
            }
            lemma_open_visits(t, start, ef, list, here);
            lemma_visit_all(t, start, ef, list);
            let after = visit_all(t, start, ef, list);
            assert(expanded(t, after.visited, here)) by {
                assert forall|j: int|
                    #![trigger t.links[here][j]]
                    0 <= j < t.links[here].len() implies after.visited[t.links[here][j] as int] by {
                    assert(list[j] == t.links[here][j]);
                }
            }
            assert(ends_open(t, after, ef, -1));
            lemma_open_run(t, after, ef);
        }
    }
}

/// The beam stops in front of nothing that could matter: a node that it looked
/// at and whose neighbors it did not all look at is no closer than the farthest
/// of a full set of results.
pub proof fn law_beam_stops_only_when_settled(t: Terrain, ep: u32, ef: int, n: u32, j: int)
    requires
        t.wf(),
        t.holds(ep),
        ef >= 1,
        n < t.size(),
        beam_search(t, ep, ef).visited[n as int],
        0 <= j < t.links[n as int].len(),
        !beam_search(t, ep, ef).visited[t.links[n as int][j] as int],
    ensures
        beam_search(t, ep, ef).best.len() >= ef,
        !less(t.dist[n as int], beam_search(t, ep, ef).best.last().distance),
{
    let start = beam_start(t, ep);
    lemma_beam_start(t, ep);
    assert forall|i: u32|
        #![trigger start.visited[i as int]]
        i < t.size() && start.visited[i as int] implies start.frontier.contains(
        t.candidate(i),
    ) by {
        assert(start.frontier[0] == t.candidate(ep));
    }
    lemma_open_run(t, start, ef);
    let end = beam_search(t, ep, ef);
    let c = t.candidate(n);
    assert(!expanded(t, end.visited, n as int));
}

/// What the record of a beam holds to: it starts at the entry node, names every
/// node once, goes from node to neighbor, tells possible results from the
/// others, and discards none before the results can be full.
pub open spec fn record_kept(t: Terrain, b: Beam, ef: int, ep: u32) -> bool {
    &&& b.events.len() > 0
    &&& b.events[0].0 == t.candidate(ep)
    &&& b.best.len() <= b.events.len()
    &&& forall|i: int|
        #![trigger b.events[i]]
        0 <= i < b.events.len() ==> {
            &&& seen(t, b.visited, b.events[i].0)
            &&& b.events[i].1 is Admitted ==> t.eligible[b.events[i].0.label as int]
            &&& b.events[i].1 is Routed ==> !t.eligible[b.events[i].0.label as int]
            &&& i < ef || i == 0 ==> !(b.events[i].1 is Discarded)
            &&& i > 0 ==> next_to_earlier(t, b.events, i)
        }
    &&& forall|i: int, j: int|
        #![trigger b.events[i], b.events[j]]
        0 <= i < j < b.events.len() ==> b.events[i].0.label != b.events[j].0.label
    &&& forall|n: u32|
        #![trigger b.visited[n as int]]
        n < t.size() && b.visited[n as int] ==> in_record(b.events, n)
}

/// Whether a record names a node.
pub open spec fn in_record(
    events: Seq<(crate::candidate::Candidate, BeamStatus)>,
    n: u32,
) -> bool {
    exists|i: int| 0 <= i < events.len() && (#[trigger] events[i]).0.label == n
}

/// Whether the node at a place of a record is a neighbor of one in front of it.
pub open spec fn next_to_earlier(
    t: Terrain,
    events: Seq<(crate::candidate::Candidate, BeamStatus)>,
    i: int,
) -> bool {
    exists|j: int, l: int|
        #![trigger t.links[events[j].0.label as int][l]]
        0 <= j < i && 0 <= l < t.links[events[j].0.label as int].len()
            && t.links[events[j].0.label as int][l] == events[i].0.label
}

pub(crate) proof fn lemma_told_start(t: Terrain, ep: u32, ef: int)
    requires
        t.wf(),
        t.holds(ep),
    ensures
        record_kept(t, beam_start(t, ep), ef, ep),
{
    let b = beam_start(t, ep);
    lemma_beam_start(t, ep);
    assert forall|n: u32|
        #![trigger b.visited[n as int]]
        n < t.size() && b.visited[n as int] implies in_record(b.events, n) by {
        assert(b.events[0].0.label == n);
    }
}

pub(crate) proof fn lemma_told_visit(t: Terrain, b: Beam, ef: int, n: u32, ep: u32, from: int, l: int)
    requires
        t.wf(),
        beam_wf(t, b),
        t.holds(n),
        record_kept(t, b, ef, ep),
        0 <= from < b.events.len(),
        0 <= l < t.links[b.events[from].0.label as int].len(),
        t.links[b.events[from].0.label as int][l] == n,
    ensures
        record_kept(t, visit(t, b, ef, n), ef, ep),
        visit(t, b, ef, n).events.len() >= b.events.len(),
        forall|i: int|
            #![trigger visit(t, b, ef, n).events[i]]
            0 <= i < b.events.len() ==> visit(t, b, ef, n).events[i] == b.events[i],
{
    let after = visit(t, b, ef, n);
    lemma_visit(t, b, ef, n);
    if !b.visited[n as int] {
        let c = t.candidate(n);
        let last = b.events.len() as int;
        lemma_kept(b.best, c, ef);
        lemma_with_candidate(b.best, c);
        assert(after.events[last].0 == c);
        assert forall|i: int|
            #![trigger after.events[i]]
            0 <= i < after.events.len() implies {
            &&& seen(t, after.visited, after.events[i].0)
            &&& after.events[i].1 is Admitted ==> t.eligible[after.events[i].0.label as int]
            &&& after.events[i].1 is Routed ==> !t.eligible[after.events[i].0.label as int]
            &&& i < ef || i == 0 ==> !(after.events[i].1 is Discarded)
            &&& i > 0 ==> next_to_earlier(t, after.events, i)
        } by {
            if i < last {
                assert(after.events[i] == b.events[i]);
                if i > 0 {
                    let (j, m) = choose|j: int, m: int|
                        #![trigger t.links[b.events[j].0.label as int][m]]
                        0 <= j < i && 0 <= m < t.links[b.events[j].0.label as int].len()
                            && t.links[b.events[j].0.label as int][m] == b.events[i].0.label;
                    assert(after.events[j] == b.events[j]);
                    assert(t.links[after.events[j].0.label as int][m]
                        == after.events[i].0.label);
                }
            } else {
                assert(after.events[from] == b.events[from]);
                assert(t.links[after.events[from].0.label as int][l] == after.events[i].0.label);
            }
        }
        assert forall|i: int, j: int|
            #![trigger after.events[i], after.events[j]]
            0 <= i < j < after.events.len() implies after.events[i].0.label
            != after.events[j].0.label by {
            assert(after.events[i] == b.events[i]);
            if j < last {
                assert(after.events[j] == b.events[j]);
            } else {
                assert(seen(t, b.visited, b.events[i].0));
            }
        }
        assert forall|m: u32|
            #![trigger after.visited[m as int]]
            m < t.size() && after.visited[m as int] implies in_record(after.events, m) by {
            if m == n {
                assert(after.events[last].0.label == m);
            } else {
                assert(b.visited[m as int]);
                assert(in_record(b.events, m));
                let i = choose|i: int|
                    0 <= i < b.events.len() && (#[trigger] b.events[i]).0.label == m;
                assert(after.events[i].0.label == m);
            }
        }
    }
}

proof fn lemma_told_visits(
    t: Terrain,
    b: Beam,
    ef: int,
    list: Seq<u32>,
    ep: u32,
    from: int,
)
    requires
        t.wf(),
        beam_wf(t, b),
        record_kept(t, b, ef, ep),
        0 <= from < b.events.len(),
        list.len() <= t.links[b.events[from].0.label as int].len(),
        forall|j: int|
            #![trigger list[j]]
            0 <= j < list.len() ==> list[j] == t.links[b.events[from].0.label as int][j],
        forall|j: int| #![trigger list[j]] 0 <= j < list.len() ==> t.holds(list[j]),
    ensures
        record_kept(t, visit_all(t, b, ef, list), ef, ep),
        visit_all(t, b, ef, list).events.len() >= b.events.len(),
        forall|i: int|
            #![trigger visit_all(t, b, ef, list).events[i]]
            0 <= i < b.events.len() ==> visit_all(t, b, ef, list).events[i] == b.events[i],
    decreases list.len(),
{
    if list.len() > 0 {
        let front = list.drop_last();
        let l = list.len() - 1;
        assert forall|j: int|
            #![trigger front[j]]
            0 <= j < front.len() implies front[j] == t.links[b.events[from].0.label as int][j]
            && t.holds(front[j]) by {
            assert(front[j] == list[j]);
        }
        lemma_told_visits(t, b, ef, front, ep, from);
        lemma_visit_all(t, b, ef, front);
        let mid = visit_all(t, b, ef, front);
        assert(mid.events[from] == b.events[from]);
        assert(list[l] == list.last());
        lemma_told_visit(t, mid, ef, list.last(), ep, from, l);
        let after = visit_all(t, b, ef, list);
        assert forall|i: int| #![trigger after.events[i]] 0 <= i < b.events.len() implies
            after.events[i] == b.events[i] by {
            assert(mid.events[i] == b.events[i]);
        }
    }
}

proof fn lemma_told_run(t: Terrain, b: Beam, ef: int, ep: u32)
    requires
        t.wf(),
        beam_wf(t, b),
        record_kept(t, b, ef, ep),
    ensures
        record_kept(t, beam_run(t, b, ef), ef, ep),
    decreases steps_left(b),
{
    if b.frontier.len() > 0 {
        lemma_beam_turn(t, b, ef);
        let current = b.frontier[0];
        if !settled(b, ef, current) {
            let list = t.links[current.label as int];
            let start = advanced(b);
            let n = current.label as u32;
            assert(t.candidate(n) == current);
            assert(b.visited[n as int]);
            assert(in_record(b.events, n));
            let from = choose|i: int|
                0 <= i < b.events.len() && (#[trigger] b.events[i]).0.label == n;
            assert(start.events[from].0.label == n);
            assert(record_kept(t, start, ef, ep));
            lemma_told_visits(t, start, ef, list, ep, from);
            lemma_told_run(t, visit_all(t, start, ef, list), ef, ep);
        }
    }
}

/// The record of a search tells the beam node by node: every node once, each
/// but the first a neighbor on layer 0 of one in front of it, at its distance
/// from the query. What took a result slot is live and passes the filter; what
/// only routed is not or does not; nothing is discarded before as many nodes
/// were looked at as the beam is wide.
pub proof fn law_trace_tells_the_beam(
    v: HnswView,
    ar: Arith,
    query: Seq<u32>,
    k: usize,
    ef: usize,
    filter: Option<FilterView>,
)
    requires
        v.wf(),
        v.searchable(),
    ensures
        ({
            let told = v.trace(ar, query, k, ef, filter).beam;
            exists|places: Seq<int>| #[trigger] told_by(v, ar, query, k, ef, filter, told, places)
        }),
{
    let t = v.ground(ar, query, filter);
    let ep = v.landing(ar, query);
    let width = if ef < k {
        k as int
    } else {
        ef as int
    };
    lemma_search_beam(v, ar, query, k, ef, filter);
    lemma_told_start(t, ep, width);
    lemma_beam_start(t, ep);
    lemma_told_run(t, beam_start(t, ep), width, ep);
    let b = v.search_beam(ar, query, k, ef, filter);
    let events = b.events;
    let told = v.trace(ar, query, k, ef, filter).beam;
    let places = Seq::new(events.len(), |i: int| events[i].0.label as int);
    assert forall|i: int| #![trigger told[i]] 0 <= i < told.len() implies {
        let n = places[i];
        &&& 0 <= n < v.nodes.len()
        &&& told[i].id == v.nodes[n].id
        &&& told[i].distance == v.metric.between(ar, query, v.nodes[n].vector)
        &&& told[i].status is Admitted ==> wanted(v, filter, n)
        &&& told[i].status is Routed ==> !wanted(v, filter, n)
        &&& i < k || i < ef || i == 0 ==> !(told[i].status is Discarded)
        &&& i > 0 ==> exists|j: int|
            0 <= j < i && v.nodes[#[trigger] places[j]].neighbors[0].contains(n as u32)
    } by {
        assert(seen(t, b.visited, events[i].0));
        if i > 0 {
            let (j, l) = choose|j: int, l: int|
                #![trigger t.links[events[j].0.label as int][l]]
                0 <= j < i && 0 <= l < t.links[events[j].0.label as int].len()
                    && t.links[events[j].0.label as int][l] == events[i].0.label;
            assert(seen(t, b.visited, events[j].0));
            assert(v.nodes[places[j]].neighbors[0][l] == places[i] as u32);
        }
    }
    assert forall|i: int, j: int|
        #![trigger places[i], places[j]]
        0 <= i < j < places.len() implies places[i] != places[j] by {
        assert(events[i].0.label != events[j].0.label);
    }
    assert(told_by(v, ar, query, k, ef, filter, told, places));
}

/// Whether a record of a beam tells of the nodes at places.
pub open spec fn told_by(
    v: HnswView,
    ar: Arith,
    query: Seq<u32>,
    k: usize,
    ef: usize,
    filter: Option<FilterView>,
    told: Seq<crate::hnsw::BeamEvent>,
    places: Seq<int>,
) -> bool {
    &&& places.len() == told.len()
    &&& forall|i: int, j: int|
        #![trigger places[i], places[j]]
        0 <= i < j < places.len() ==> places[i] != places[j]
    &&& forall|i: int|
        #![trigger told[i]]
        0 <= i < told.len() ==> {
            let n = places[i];
            &&& 0 <= n < v.nodes.len()
            &&& told[i].id == v.nodes[n].id
            &&& told[i].distance == v.metric.between(ar, query, v.nodes[n].vector)
            &&& told[i].status is Admitted ==> wanted(v, filter, n)
            &&& told[i].status is Routed ==> !wanted(v, filter, n)
            &&& i < k || i < ef || i == 0 ==> !(told[i].status is Discarded)
            &&& i > 0 ==> exists|j: int|
                0 <= j < i && v.nodes[#[trigger] places[j]].neighbors[0].contains(n as u32)
        }
}

// ---------------------------------------------------------------------------
// The hits
// ---------------------------------------------------------------------------

/// What a search looked at and did not find is no closer than what it found.
pub proof fn law_hits_are_the_closest_looked_at(
    v: HnswView,
    ar: Arith,
    query: Seq<u32>,
    k: usize,
    ef: usize,
    filter: Option<FilterView>,
    n: u32,
    i: int,
)
    requires
        v.wf(),
        v.searchable(),
        forall|m: int|
            0 <= m < v.nodes.len() ==> !is_nan(
                v.metric.between(ar, query, (#[trigger] v.nodes[m]).vector),
            ),
        wanted(v, filter, n as int),
        v.search_beam(ar, query, k, ef, filter).visited[n as int],
        !v.found(ar, query, k, ef, filter).contains(node_hit(v, ar, query, n as int)),
        0 <= i < v.found(ar, query, k, ef, filter).len(),
    ensures
        !less(
            v.metric.between(ar, query, v.nodes[n as int].vector),
            v.found(ar, query, k, ef, filter)[i].distance,
        ),
{
    let t = v.ground(ar, query, filter);
    let ep = v.landing(ar, query);
    let width = if ef < k {
        k as int
    } else {
        ef as int
    };
    lemma_search_beam(v, ar, query, k, ef, filter);
    law_search_finds_k_or_all(v, ar, query, k, ef, filter);
    let found = v.found(ar, query, k, ef, filter);
    let best = v.search_beam(ar, query, k, ef, filter).best;
    let near = v.walked(ar, query, k, ef, filter);
    let c = t.candidate(n);
    if near.len() < k {
        assert(best == near);
        if !best.contains(c) {
            law_beam_keeps_the_closest(t, ep, width, n);
        }
        let q = choose|q: int| 0 <= q < best.len() && best[q] == c;
        crate::hnsw::lemma_scanned(v, ar, query, k, filter);
        lemma_scan_leaves_out_the_farthest(v, ar, query, k, filter, n, i);
    } else {
        assert(found[i].distance == best[i].distance);
        assert(best.contains(best[i]));
        if best.contains(c) {
            let q = choose|q: int| 0 <= q < best.len() && best[q] == c;
            if q < k {
                assert(found[q] == node_hit(v, ar, query, n as int));
            }
            assert(!before(best[q], best[i]));
            lemma_total_order_refines_less(best[q].distance, best[i].distance);
        } else {
            law_beam_keeps_the_closest(t, ep, width, n);
            let last = best.len() - 1;
            if i < last {
                assert(!before(best[last], best[i]));
            }
            assert(best.contains(best[last]));
            assert(t.dist[best[last].label as int] == worst(best));
            assert(v.nodes[best[last].label as int] == v.nodes[best[last].label as int]);
            lemma_total_order_refines_less(best[last].distance, best[i].distance);
        }
    }
}

proof fn lemma_scan_leaves_out_the_farthest(
    v: HnswView,
    ar: Arith,
    query: Seq<u32>,
    k: usize,
    filter: Option<FilterView>,
    n: u32,
    i: int,
)
    requires
        v.wf(),
        wanted(v, filter, n as int),
        !crate::hnsw::node_hits(v.nodes, v.scanned(ar, query, k, filter)).contains(
            node_hit(v, ar, query, n as int),
        ),
        0 <= i < v.scanned(ar, query, k, filter).len(),
    ensures
        !less(
            v.metric.between(ar, query, v.nodes[n as int].vector),
            v.scanned(ar, query, k, filter)[i].distance,
        ),
{
    let placed = crate::hnsw::placed_points(v.nodes);
    let all = v.node_matches(ar, query, filter);
    let order = crate::candidate::ranked(all);
    let some = v.scanned(ar, query, k, filter);
    crate::hnsw::lemma_node_matches(v, ar, query, filter);
    crate::records::lemma_matches_of(placed, v.metric, ar, query, filter);
    crate::candidate::lemma_ranked(all);
    crate::records::lemma_rearranged(all, order);
    let c = crate::candidate::Candidate {
        distance: v.metric.between(ar, query, v.nodes[n as int].vector),
        label: n as u64,
    };
    assert(placed[n as int].live);
    assert(all.contains(c));
    assert(order.contains(c));
    let q = choose|q: int| 0 <= q < order.len() && order[q] == c;
    if q < some.len() {
        assert(some[q] == c);
        assert(crate::hnsw::node_hits(v.nodes, some)[q] == node_hit(v, ar, query, n as int));
    }
    assert(!before(order[q], order[i]));
    lemma_total_order_refines_less(order[q].distance, order[i].distance);
}

/// A beam narrower than the number of hits asked for is as wide as that number.
pub proof fn law_narrow_beam_is_widened(
    v: HnswView,
    ar: Arith,
    query: Seq<u32>,
    k: usize,
    ef: usize,
    filter: Option<FilterView>,
)
    requires
        ef <= k,
    ensures
        v.found(ar, query, k, ef, filter) == v.found(ar, query, k, k, filter),
        v.trace(ar, query, k, ef, filter) == v.trace(ar, query, k, k, filter),
{
}

/// The beam of a search keeps as many results as it is wide and no more; if it
/// ends with fewer, it has kept everything wanted within its reach.
pub proof fn law_beam_is_as_wide_as_asked(
    v: HnswView,
    ar: Arith,
    query: Seq<u32>,
    k: usize,
    ef: usize,
    filter: Option<FilterView>,
    n: u32,
)
    requires
        v.wf(),
        v.searchable(),
        k >= 1,
    ensures
        ({
            let best = v.search_beam(ar, query, k, ef, filter).best;
            &&& best.len() <= ef || best.len() <= k
            &&& (best.len() < ef || best.len() < k) && wanted(v, filter, n as int) && reachable(
                v.ground(ar, query, filter),
                v.landing(ar, query),
                n as int,
            ) ==> exists|i: int|
                0 <= i < best.len() && (#[trigger] best[i]).label == n
        }),
{
    let t = v.ground(ar, query, filter);
    let ep = v.landing(ar, query);
    let width = if ef < k {
        k as int
    } else {
        ef as int
    };
    lemma_search_beam(v, ar, query, k, ef, filter);
    law_beam_is_bounded(t, ep, width);
    let best = v.search_beam(ar, query, k, ef, filter).best;
    if (best.len() < ef || best.len() < k) && wanted(v, filter, n as int) && reachable(
        t,
        ep,
        n as int,
    ) {
        law_beam_does_not_starve(t, ep, width, n);
        let i = choose|i: int| 0 <= i < best.len() && best[i] == t.candidate(n);
        assert(best[i].label == n);
    }
}

// ---------------------------------------------------------------------------
// The distances measured
// ---------------------------------------------------------------------------

/// Whether a descent passes from a node of a layer to another: to the closest
/// of its neighbors there, if one is closer, or else to the same node one layer
/// below.
pub open spec fn passes_on(
    nodes: Seq<NodeView>,
    dist: Seq<u32>,
    from: (int, u32),
    to: (int, u32),
) -> bool {
    let list = nodes[from.1 as int].neighbors[from.0];
    if to.0 == from.0 {
        &&& list.contains(to.1)
        &&& less(dist[to.1 as int], dist[from.1 as int])
        &&& forall|j: int|
            0 <= j < list.len() ==> !less(dist[#[trigger] list[j] as int], dist[to.1 as int])
    } else {
        &&& to == (from.0 - 1, from.1)
        &&& no_neighbor_closer(nodes, dist, from)
    }
}

/// Whether a node has no neighbor on a layer that is closer.
pub open spec fn no_neighbor_closer(
    nodes: Seq<NodeView>,
    dist: Seq<u32>,
    at: (int, u32),
) -> bool {
    let list = nodes[at.1 as int].neighbors[at.0];
    forall|j: int|
        0 <= j < list.len() ==> !less(dist[#[trigger] list[j] as int], dist[at.1 as int])
}

/// Whether a path is that of a descent from a node of a layer down to a layer.
pub open spec fn path_of_descent(
    nodes: Seq<NodeView>,
    dist: Seq<u32>,
    path: Seq<(int, u32)>,
    top: int,
    bottom: int,
    from: u32,
) -> bool {
    &&& path.len() >= 1
    &&& path[0] == (top, from)
    &&& path.last().0 == bottom
    &&& no_neighbor_closer(nodes, dist, path.last())
    &&& forall|i: int|
        #![trigger path[i]]
        0 <= i < path.len() ==> bottom <= path[i].0 <= top && path[i].1 < nodes.len()
            && path[i].0 < nodes[path[i].1 as int].neighbors.len()
    &&& forall|i: int|
        #![trigger path[i]]
        0 <= i < path.len() - 1 ==> passes_on(nodes, dist, path[i], path[i + 1])
}

/// How many neighbors are looked at on a path.
pub open spec fn looked_at(nodes: Seq<NodeView>, path: Seq<(int, u32)>) -> nat
    decreases path.len(),
{
    if path.len() == 0 {
        0
    } else {
        nodes[path[0].1 as int].neighbors[path[0].0].len() + looked_at(nodes, path.drop_first())
    }
}

proof fn lemma_climb_path(nodes: Seq<NodeView>, t: Terrain, layer: int, from: u32) -> (path: Seq<
    (int, u32),
>)
    requires
        t.wf(),
        t.holds(from),
        t.size() == nodes.len(),
        forall|i: int|
            #![trigger t.on[i]]
            0 <= i < nodes.len() ==> t.on[i] == nodes[i].reaches(layer),
        forall|i: int|
            #![trigger t.links[i]]
            0 <= i < nodes.len() && t.on[i] ==> t.links[i] == nodes[i].neighbors[layer],
    ensures
        path_of_descent(nodes, t.dist, path, layer, layer, from),
        path.last() == (layer, climb(t, from)),
        looked_at(nodes, path) == climb_cost(t, from),
    decreases crate::float::value_key(t.dist[from as int]) + 0x8000_0000,
{
    reveal_with_fuel(looked_at, 2);
    let list = t.links[from as int];
    let next = closest_of(t, from, list);
    lemma_closest_of(t, from, list);
    assert forall|j: int| 0 <= j < list.len() implies !less(
        t.dist[#[trigger] list[j] as int],
        t.dist[next as int],
    ) by {
        law_look_through_holds_the_closest(t, from, list, j);
    }
    let here = (layer, from);
    if next == from {
        let path = seq![here];
        assert(path.drop_first() =~= seq![]);
        assert(t.on[from as int]);
        path
    } else {
        let p = choose|p: int| 0 <= p < list.len() && list[p] == next;
        assert(t.links[from as int][p] == next);
        let rest = lemma_climb_path(nodes, t, layer, next);
        let path = seq![here] + rest;
        assert(path.drop_first() =~= rest);
        assert(path.last() == rest.last());
        assert forall|i: int| #![trigger path[i]] 0 <= i < path.len() implies path[i].0 == layer
            && path[i].1 < nodes.len() && path[i].0
            < nodes[path[i].1 as int].neighbors.len() by {
            if i > 0 {
                assert(path[i] == rest[i - 1]);
            } else {
                assert(t.on[from as int]);
            }
        }
        assert forall|i: int|
            #![trigger path[i]]
            0 <= i < path.len() - 1 implies passes_on(nodes, t.dist, path[i], path[i + 1]) by {
            if i > 0 {
                assert(path[i] == rest[i - 1]);
                assert(path[i + 1] == rest[i]);
            } else {
                assert(path[1] == rest[0]);
            }
        }
        path
    }
}

proof fn lemma_looked_at_sum(nodes: Seq<NodeView>, a: Seq<(int, u32)>, b: Seq<(int, u32)>)
    ensures
        looked_at(nodes, a + b) == looked_at(nodes, a) + looked_at(nodes, b),
    decreases a.len(),
{
    if a.len() == 0 {
        assert(a + b =~= b);
    } else {
        lemma_looked_at_sum(nodes, a.drop_first(), b);
        assert((a + b).drop_first() =~= a.drop_first() + b);
    }
}

pub(crate) proof fn lemma_descent_path(
    nodes: Seq<NodeView>,
    dim: nat,
    dist: Seq<u32>,
    top: int,
    bottom: int,
    from: u32,
) -> (path: Seq<(int, u32)>)
    requires
        graph_wf(nodes, dim),
        dist.len() == nodes.len(),
        0 <= bottom <= top,
        from < nodes.len(),
        nodes[from as int].reaches(top),
    ensures
        path_of_descent(nodes, dist, path, top, bottom, from),
        path.last() == (bottom, descend(nodes, dist, top, bottom, from)),
        looked_at(nodes, path) == descent_cost(nodes, dist, top, bottom, from),
    decreases top,
{
    let t = layer_terrain(nodes, top, dist, everyone(nodes));
    lemma_layer_terrain(nodes, dim, top, dist, everyone(nodes));
    lemma_climb(t, from);
    let next = climb(t, from);
    assert(t.on[next as int]);
    let first = lemma_climb_path(nodes, t, top, from);
    reveal_with_fuel(descent_cost, 2);
    reveal_with_fuel(descend, 2);
    if top == bottom {
        first
    } else {
        let rest = lemma_descent_path(nodes, dim, dist, top - 1, bottom, next);
        let path = first + rest;
        lemma_looked_at_sum(nodes, first, rest);
        assert(path.last() == rest.last());
        assert forall|i: int| #![trigger path[i]] 0 <= i < path.len() implies bottom <= path[i].0
            <= top && path[i].1 < nodes.len() && path[i].0
            < nodes[path[i].1 as int].neighbors.len() by {
            if i < first.len() {
                assert(path[i] == first[i]);
            } else {
                assert(path[i] == rest[i - first.len()]);
            }
        }
        assert forall|i: int|
            #![trigger path[i]]
            0 <= i < path.len() - 1 implies passes_on(nodes, dist, path[i], path[i + 1]) by {
            if i < first.len() - 1 {
                assert(path[i] == first[i]);
                assert(path[i + 1] == first[i + 1]);
            } else if i == first.len() - 1 {
                assert(path[i] == first.last());
                assert(path[i + 1] == rest[0]);
            } else {
                assert(path[i] == rest[i - first.len()]);
                assert(path[i + 1] == rest[i - first.len() + 1]);
            }
        }
        path
    }
}

/// The distances that a traced search tells to have measured are those to the
/// neighbors of every node that its descent passed through, and those to the
/// nodes that its beam looked at; an index with nothing above layer 0 has no
/// descent.
pub proof fn law_trace_tells_the_distances_measured(
    v: HnswView,
    ar: Arith,
    query: Seq<u32>,
    k: usize,
    ef: usize,
    filter: Option<FilterView>,
)
    requires
        v.wf(),
        v.searchable(),
        v.nodes.len() <= usize::MAX,
    ensures
        ({
            let trace = v.trace(ar, query, k, ef, filter);
            let dist = Seq::new(
                v.nodes.len(),
                |i: int| v.metric.between(ar, query, v.nodes[i].vector),
            );
            &&& v.max_layer == 0 ==> trace.distance_evals == trace.visited
            &&& v.max_layer >= 1 ==> exists|path: Seq<(int, u32)>| #[trigger]
                path_of_descent(
                    v.nodes,
                    dist,
                    path,
                    v.max_layer as int,
                    1,
                    v.entry->Some_0,
                ) && trace.distance_evals == if looked_at(v.nodes, path) + trace.visited
                    <= usize::MAX {
                    looked_at(v.nodes, path) + trace.visited
                } else {
                    usize::MAX as nat
                }
        }),
{
    let dist = Seq::new(v.nodes.len(), |i: int| v.metric.between(ar, query, v.nodes[i].vector));
    assert(v.dist(ar, query) =~= dist);
    crate::hnsw_laws::law_trace_counts(v, ar, query, k, ef, filter);
    if v.max_layer >= 1 {
        let path = lemma_descent_path(
            v.nodes,
            v.dim as nat,
            dist,
            v.max_layer as int,
            1,
            v.entry->Some_0,
        );
        assert(path_of_descent(v.nodes, dist, path, v.max_layer as int, 1, v.entry->Some_0));
    }
}

} // verus!
