//! What storing a vector promises: of the graph that it joins, and of the order
//! of an index that looks at every vector.
use crate::beam::{beam_start, lemma_beam_start, Terrain};
use crate::beam_laws::{
    closed_under_links, law_beam_does_not_starve, law_beam_keeps_the_closest, lemma_visited_grows,
    reachable,
};
use crate::candidate::{before, lemma_ranked, ranked, Candidate};
use crate::connect_laws::{
    ground_links, joined_up, lemma_candidates_are_others, lemma_descent_avoids, lemma_other_layers,
    lemma_selected_distinct, link_closed, same_but_layer, unnamed_to, well_linked,
};
use crate::distance::DistanceMetric;
use crate::flat::{EntryView, FlatView};
use crate::float::{is_nan, less, lemma_total_order_refines_less, total_key, Arith};
use crate::graph::{descend, distances, graph_wf, lemma_descend, NodeView};
use crate::hnsw::{lemma_pushed_wf, HnswView};
use crate::json::JsonView;
use crate::link::{
    all_back_linked, back_linked, dominated, gap, labels, layer_linked, layers_linked,
    lemma_all_back_linked, lemma_back_linked, lemma_layer_linked, lemma_layers_linked,
    lemma_link_candidates, lemma_selected, lemma_shrunk, link_candidates, list_limit,
    neighbor_candidates, open_terrain, same_points, selected, selection, shrunk, with_list,
    LinkRules,
};
use crate::link_laws::law_selection_fills_its_slots;
use crate::rng::{level_of, next_state, scrambled};
use crate::walk_laws::{lemma_descent_path, no_neighbor_closer, passes_on, path_of_descent};
use vstd::prelude::*;

verus! {

// ---------------------------------------------------------------------------
// The choice of neighbors
// ---------------------------------------------------------------------------

/// The choice of neighbors spreads them: it takes the closest candidate first;
/// of those kept for their direction none is closer to one kept before it than
/// to the target; one that was passed over is; and nothing is passed over or
/// left out as long as slots are free.
pub proof fn law_selection_spreads_neighbors(
    ar: Arith,
    metric: DistanceMetric,
    nodes: Seq<NodeView>,
    cands: Seq<Candidate>,
    m: int,
)
    requires
        m >= 0,
    ensures
        ({
            let s = selection(ar, metric, nodes, cands, m);
            let out = selected(ar, metric, nodes, cands, m);
            &&& m >= 1 && cands.len() >= 1 ==> s.chosen.len() >= 1 && s.chosen[0] == cands[0]
                && out[0] == cands[0].label as u32
            &&& forall|i: int, j: int|
                #![trigger s.chosen[i], s.chosen[j]]
                0 <= i < j < s.chosen.len() ==> !less(
                    metric.between(
                        ar,
                        nodes[s.chosen[j].label as int].vector,
                        nodes[s.chosen[i].label as int].vector,
                    ),
                    s.chosen[j].distance,
                )
            &&& forall|c: int|
                #![trigger cands[c]]
                0 <= c < cands.len() ==> {
                    ||| s.chosen.contains(cands[c])
                    ||| s.chosen.len() >= m
                    ||| s.pruned.contains(cands[c].label as u32) && exists|i: int|
                        0 <= i < s.chosen.len() && less(
                            metric.between(
                                ar,
                                nodes[cands[c].label as int].vector,
                                nodes[(#[trigger] s.chosen[i]).label as int].vector,
                            ),
                            cands[c].distance,
                        )
                }
            &&& forall|i: int|
                0 <= i < s.chosen.len() ==> out[i] == (#[trigger] s.chosen[i]).label as u32
            &&& forall|i: int|
                #![trigger out[i]]
                s.chosen.len() <= i < out.len() ==> out[i] == s.pruned[i - s.chosen.len()]
        }),
    decreases cands.len(),
{
    if cands.len() > 0 {
        let front = cands.drop_last();
        let c = cands.last();
        law_selection_spreads_neighbors(ar, metric, nodes, front, m);
        crate::link::lemma_selection(ar, metric, nodes, cands, m);
        let was = selection(ar, metric, nodes, front, m);
        let s = selection(ar, metric, nodes, cands, m);
        assert(cands[cands.len() - 1] == c);
        if front.len() > 0 {
            assert(front[0] == cands[0]);
        } else {
            assert(!dominated(ar, metric, nodes, was.chosen, c));
        }
        assert forall|i: int, j: int|
            #![trigger s.chosen[i], s.chosen[j]]
            0 <= i < j < s.chosen.len() implies !less(
            metric.between(
                ar,
                nodes[s.chosen[j].label as int].vector,
                nodes[s.chosen[i].label as int].vector,
            ),
            s.chosen[j].distance,
        ) by {
            assert(s.chosen[i] == was.chosen[i]);
            if j < was.chosen.len() {
                assert(s.chosen[j] == was.chosen[j]);
            } else {
                assert(!less(
                    gap(ar, metric, nodes, c.label as int, was.chosen[i].label as int),
                    c.distance,
                ));
            }
        }
        assert forall|p: int| #![trigger cands[p]] 0 <= p < cands.len() implies {
            ||| s.chosen.contains(cands[p])
            ||| s.chosen.len() >= m
            ||| s.pruned.contains(cands[p].label as u32) && exists|i: int|
                0 <= i < s.chosen.len() && less(
                    metric.between(
                        ar,
                        nodes[cands[p].label as int].vector,
                        nodes[(#[trigger] s.chosen[i]).label as int].vector,
                    ),
                    cands[p].distance,
                )
        } by {
            if p < front.len() {
                assert(front[p] == cands[p]);
                if was.chosen.contains(front[p]) {
                    let q = choose|q: int| 0 <= q < was.chosen.len() && was.chosen[q] == front[p];
                    assert(s.chosen[q] == cands[p]);
                } else if was.chosen.len() < m {
                    let q = choose|q: int|
                        0 <= q < was.pruned.len() && was.pruned[q] == front[p].label as u32;
                    assert(s.pruned[q] == cands[p].label as u32);
                    let i = choose|i: int|
                        0 <= i < was.chosen.len() && less(
                            metric.between(
                                ar,
                                nodes[front[p].label as int].vector,
                                nodes[(#[trigger] was.chosen[i]).label as int].vector,
                            ),
                            front[p].distance,
                        );
                    assert(s.chosen[i] == was.chosen[i]);
                }
            } else if was.chosen.len() < m {
                if dominated(ar, metric, nodes, was.chosen, c) {
                    assert(s.pruned[s.pruned.len() - 1] == c.label as u32);
                    let i = choose|i: int|
                        #![trigger was.chosen[i]]
                        0 <= i < was.chosen.len() && less(
                            gap(ar, metric, nodes, c.label as int, was.chosen[i].label as int),
                            c.distance,
                        );
                    assert(s.chosen[i] == was.chosen[i]);
                } else {
                    assert(s.chosen[s.chosen.len() - 1] == c);
                }
            }
        }
    }
}

/// Whether two candidates stand in a sequence in their order.
pub open spec fn in_turn(cands: Seq<Candidate>, a: u32, b: u32, p: int, q: int) -> bool {
    0 <= p < q < cands.len() && cands[p].label as u32 == a && cands[q].label as u32 == b
}

/// The choice of neighbors keeps the order of the candidates: among those kept
/// for their direction, and among those that were passed over.
pub proof fn law_selection_keeps_the_order(
    ar: Arith,
    metric: DistanceMetric,
    nodes: Seq<NodeView>,
    cands: Seq<Candidate>,
    m: int,
    i: int,
    j: int,
)
    ensures
        ({
            let s = selection(ar, metric, nodes, cands, m);
            &&& 0 <= i < j < s.chosen.len() ==> exists|p: int, q: int| #[trigger]
                in_turn(cands, s.chosen[i].label as u32, s.chosen[j].label as u32, p, q)
            &&& 0 <= i < j < s.pruned.len() ==> exists|p: int, q: int| #[trigger]
                in_turn(cands, s.pruned[i], s.pruned[j], p, q)
        }),
    decreases cands.len(),
{
    if cands.len() > 0 {
        let front = cands.drop_last();
        let last = cands.len() - 1;
        let was = selection(ar, metric, nodes, front, m);
        let s = selection(ar, metric, nodes, cands, m);
        law_selection_keeps_the_order(ar, metric, nodes, front, m, i, j);
        if 0 <= i < j < s.chosen.len() {
            let a = s.chosen[i].label as u32;
            let b = s.chosen[j].label as u32;
            if j < was.chosen.len() {
                let (p, q) = choose|p: int, q: int| #[trigger] in_turn(front, a, b, p, q);
                assert(in_turn(cands, a, b, p, q));
            } else {
                let p = lemma_selection_is_of_candidates(ar, metric, nodes, front, m, i, true);
                assert(in_turn(cands, a, b, p, last));
            }
        }
        if 0 <= i < j < s.pruned.len() {
            let a = s.pruned[i];
            let b = s.pruned[j];
            if j < was.pruned.len() {
                let (p, q) = choose|p: int, q: int| #[trigger] in_turn(front, a, b, p, q);
                assert(in_turn(cands, a, b, p, q));
            } else {
                let p = lemma_selection_is_of_candidates(ar, metric, nodes, front, m, i, false);
                assert(in_turn(cands, a, b, p, last));
            }
        }
    }
}

proof fn lemma_selection_is_of_candidates(
    ar: Arith,
    metric: DistanceMetric,
    nodes: Seq<NodeView>,
    cands: Seq<Candidate>,
    m: int,
    i: int,
    chosen: bool,
) -> (p: int)
    requires
        0 <= i,
        chosen ==> i < selection(ar, metric, nodes, cands, m).chosen.len(),
        !chosen ==> i < selection(ar, metric, nodes, cands, m).pruned.len(),
    ensures
        0 <= p < cands.len(),
        cands[p].label as u32 == if chosen {
            selection(ar, metric, nodes, cands, m).chosen[i].label as u32
        } else {
            selection(ar, metric, nodes, cands, m).pruned[i]
        },
    decreases cands.len(),
{
    let front = cands.drop_last();
    let was = selection(ar, metric, nodes, front, m);
    let old = if chosen {
        was.chosen.len()
    } else {
        was.pruned.len()
    };
    if i < old {
        lemma_selection_is_of_candidates(ar, metric, nodes, front, m, i, chosen)
    } else {
        cands.len() - 1
    }
}

// ---------------------------------------------------------------------------
// Linking
// ---------------------------------------------------------------------------

/// The vectors of the nodes.
pub open spec fn vectors_of(nodes: Seq<NodeView>) -> Seq<Seq<u32>> {
    Seq::new(nodes.len(), |i: int| nodes[i].vector)
}

/// How far apart two vectors are, as a place on the scale of all distances.
pub open spec fn apart(
    ar: Arith,
    metric: DistanceMetric,
    vectors: Seq<Seq<u32>>,
    a: int,
    b: int,
) -> int {
    total_key(metric.between(ar, vectors[a], vectors[b]))
}

/// Whether linking back did to the list of node `i` what it should: nothing if
/// the node was not chosen; if it was, the new node at the end of its list, or,
/// if the list was full, a choice of as many as it may hold, a closest one first.
pub open spec fn backed(
    ar: Arith,
    metric: DistanceMetric,
    vectors: Seq<Seq<u32>>,
    i: int,
    was: Seq<u32>,
    now: Seq<u32>,
    chosen: bool,
    limit: int,
    new_pos: u32,
) -> bool {
    &&& !chosen ==> now == was
    &&& chosen && was.len() < limit ==> now == was.push(new_pos)
    &&& chosen && was.len() >= limit ==> {
        &&& now.len() == limit
        &&& forall|j: int|
            0 <= j < now.len() ==> #[trigger] now[j] == new_pos || was.contains(now[j])
        &&& limit >= 1 ==> apart(ar, metric, vectors, i, now[0] as int) <= apart(
            ar,
            metric,
            vectors,
            i,
            new_pos as int,
        )
        &&& limit >= 1 ==> forall|j: int|
            #![trigger was[j]]
            0 <= j < was.len() ==> apart(ar, metric, vectors, i, now[0] as int) <= apart(
                ar,
                metric,
                vectors,
                i,
                was[j] as int,
            )
    }
}

/// A list chosen anew has a closest node in front.
proof fn lemma_shrunk_first(
    ar: Arith,
    metric: DistanceMetric,
    nodes: Seq<NodeView>,
    node: int,
    layer: int,
    limit: int,
    j: int,
)
    requires
        0 <= node < nodes.len(),
        0 <= layer < nodes[node].neighbors.len(),
        limit >= 1,
        0 <= j < nodes[node].neighbors[layer].len(),
        forall|q: int|
            0 <= q < nodes[node].neighbors[layer].len() ==> (
            #[trigger] nodes[node].neighbors[layer][q]) < nodes.len(),
    ensures
        ({
            let now = shrunk(ar, metric, nodes, node, layer, limit);
            apart(ar, metric, vectors_of(nodes), node, now[0] as int) <= apart(
                ar,
                metric,
                vectors_of(nodes),
                node,
                nodes[node].neighbors[layer][j] as int,
            )
        }),
{
    broadcast use vstd::seq_lib::group_to_multiset_ensures;

    let list = nodes[node].neighbors[layer];
    let raw = neighbor_candidates(ar, metric, nodes, node, list);
    let cands = ranked(raw);
    lemma_ranked(raw);
    law_selection_spreads_neighbors(ar, metric, nodes, cands, limit);
    assert(raw.contains(raw[j]));
    assert(raw.to_multiset().contains(raw[j]));
    assert(cands.contains(raw[j]));
    let p = choose|p: int| 0 <= p < cands.len() && cands[p] == raw[j];
    if p > 0 {
        assert(!before(cands[p], cands[0]));
    }
    assert(cands.contains(cands[0]));
    assert(cands.to_multiset().contains(cands[0]));
    assert(raw.contains(cands[0]));
    let q = choose|q: int| 0 <= q < raw.len() && raw[q] == cands[0];
    assert(list[q] < nodes.len());
}

proof fn lemma_backed_one(
    ar: Arith,
    metric: DistanceMetric,
    nodes: Seq<NodeView>,
    dim: nat,
    node: int,
    layer: int,
    limit: int,
    new_pos: u32,
)
    requires
        graph_wf(nodes, dim),
        limit >= 0,
        0 <= node < nodes.len(),
        0 <= layer < nodes[node].neighbors.len(),
        new_pos < nodes.len(),
        nodes[new_pos as int].reaches(layer),
    ensures
        ({
            let after = back_linked(ar, metric, nodes, node, layer, limit, new_pos);
            &&& backed(
                ar,
                metric,
                vectors_of(nodes),
                node,
                nodes[node].neighbors[layer],
                after[node].neighbors[layer],
                true,
                limit,
                new_pos,
            )
            &&& forall|i: int|
                #![trigger after[i]]
                0 <= i < nodes.len() && i != node ==> after[i] == nodes[i]
        }),
{
    let was = nodes[node].neighbors[layer];
    let list = was.push(new_pos);
    let grown = with_list(nodes, node, layer, list);
    lemma_back_linked(ar, metric, nodes, dim, node, layer, limit, new_pos);
    if list.len() > limit {
        lemma_shrunk(ar, metric, grown, node, layer, limit);
        let raw = neighbor_candidates(ar, metric, grown, node, list);
        lemma_ranked(raw);
        law_selection_fills_its_slots(
            ar,
            metric,
            grown,
            ranked(raw),
            limit,
        );
        let now = shrunk(ar, metric, grown, node, layer, limit);
        assert(vectors_of(grown) =~= vectors_of(nodes));
        assert forall|q: int| 0 <= q < list.len() implies (#[trigger] list[q]) < grown.len() by {
            if q < was.len() {
                assert(nodes[node].neighbors[layer][q] < nodes.len());
            }
        }
        if limit >= 1 {
            lemma_shrunk_first(ar, metric, grown, node, layer, limit, was.len() as int);
            assert forall|j: int| #![trigger was[j]] 0 <= j < was.len() implies apart(
                ar,
                metric,
                vectors_of(nodes),
                node,
                now[0] as int,
            ) <= apart(ar, metric, vectors_of(nodes), node, was[j] as int) by {
                lemma_shrunk_first(ar, metric, grown, node, layer, limit, j);
                assert(list[j] == was[j]);
            }
        }
        assert forall|j: int| 0 <= j < now.len() implies #[trigger] now[j] == new_pos
            || was.contains(now[j]) by {
            assert(list.contains(now[j]));
            let q = choose|q: int| 0 <= q < list.len() && list[q] == now[j];
            if q < was.len() {
                assert(was[q] == now[j]);
            }
        }
    }
}

proof fn lemma_backed_all(
    ar: Arith,
    metric: DistanceMetric,
    nodes: Seq<NodeView>,
    dim: nat,
    list: Seq<u32>,
    layer: int,
    limit: int,
    new_pos: u32,
)
    requires
        graph_wf(nodes, dim),
        limit >= 0,
        0 <= layer,
        list.no_duplicates(),
        forall|j: int|
            0 <= j < list.len() ==> (#[trigger] list[j]) < nodes.len()
                && nodes[list[j] as int].reaches(layer),
        new_pos < nodes.len(),
        nodes[new_pos as int].reaches(layer),
    ensures
        ({
            let after = all_back_linked(ar, metric, nodes, list, layer, limit, new_pos);
            forall|i: int|
                #![trigger after[i]]
                0 <= i < nodes.len() && layer < nodes[i].neighbors.len() ==> backed(
                    ar,
                    metric,
                    vectors_of(nodes),
                    i,
                    nodes[i].neighbors[layer],
                    after[i].neighbors[layer],
                    list.contains(i as u32),
                    limit,
                    new_pos,
                )
        }),
    decreases list.len(),
{
    if list.len() > 0 {
        let front = list.drop_last();
        let last = list.last() as int;
        assert(list[list.len() - 1] == list.last());
        assert forall|j: int| 0 <= j < front.len() implies (#[trigger] front[j]) < nodes.len()
            && nodes[front[j] as int].reaches(layer) by {
            assert(front[j] == list[j]);
        }
        assert(front.no_duplicates()) by {
            assert forall|i: int, j: int|
                0 <= i < front.len() && 0 <= j < front.len() && i != j implies front[i]
                != front[j] by {
                assert(list[i] != list[j]);
            }
        }
        assert(!front.contains(last as u32)) by {
            if front.contains(last as u32) {
                let j = choose|j: int| 0 <= j < front.len() && front[j] == last as u32;
                assert(list[j] == list[list.len() - 1]);
            }
        }
        lemma_backed_all(ar, metric, nodes, dim, front, layer, limit, new_pos);
        lemma_all_back_linked(ar, metric, nodes, dim, front, layer, limit, new_pos);
        let mid = all_back_linked(ar, metric, nodes, front, layer, limit, new_pos);
        let after = all_back_linked(ar, metric, nodes, list, layer, limit, new_pos);
        assert(mid[last].neighbors.len() == nodes[last].neighbors.len());
        assert(mid[new_pos as int].neighbors.len() == nodes[new_pos as int].neighbors.len());
        assert(vectors_of(mid) =~= vectors_of(nodes)) by {
            assert forall|i: int| 0 <= i < nodes.len() implies (#[trigger] mid[i]).vector
                == nodes[i].vector by {}
        }
        lemma_backed_one(ar, metric, mid, dim, last, layer, limit, new_pos);
        assert forall|i: int|
            #![trigger after[i]]
            0 <= i < nodes.len() && layer < nodes[i].neighbors.len() implies backed(
            ar,
            metric,
            vectors_of(nodes),
            i,
            nodes[i].neighbors[layer],
            after[i].neighbors[layer],
            list.contains(i as u32),
            limit,
            new_pos,
        ) by {
            assert(mid[i].neighbors.len() == nodes[i].neighbors.len());
            if i == last {
                assert(list.contains(i as u32));
                assert(mid[i].neighbors[layer] == nodes[i].neighbors[layer]);
            } else {
                assert(after[i] == mid[i]);
                assert(front.contains(i as u32) <==> list.contains(i as u32)) by {
                    if list.contains(i as u32) {
                        let j = choose|j: int| 0 <= j < list.len() && list[j] == i as u32;
                        assert(front[j] == i as u32);
                    }
                    if front.contains(i as u32) {
                        let j = choose|j: int| 0 <= j < front.len() && front[j] == i as u32;
                        assert(list[j] == i as u32);
                    }
                }
            }
        }
    }
}

/// Whether a node was linked on a layer: it took other nodes of the layer as
/// its neighbors, `m` at most and one at least, none of them twice; each of
/// them took it in turn; and no other list changed.
pub open spec fn linked_on(
    ar: Arith,
    metric: DistanceMetric,
    before: Seq<NodeView>,
    after: Seq<NodeView>,
    new_pos: u32,
    layer: int,
    m: int,
) -> bool {
    let mine = after[new_pos as int].neighbors[layer];
    &&& mine.len() <= m
    &&& m >= 1 ==> mine.len() >= 1
    &&& mine.no_duplicates()
    &&& forall|j: int|
        #![trigger mine[j]]
        0 <= j < mine.len() ==> mine[j] != new_pos && mine[j] < before.len() && layer
            < before[mine[j] as int].neighbors.len()
    &&& forall|i: int|
        #![trigger after[i]]
        0 <= i < before.len() && i != new_pos && layer < before[i].neighbors.len() ==> backed(
            ar,
            metric,
            vectors_of(before),
            i,
            before[i].neighbors[layer],
            after[i].neighbors[layer],
            mine.contains(i as u32),
            if layer == 0 {
                m * 2
            } else {
                m
            },
            new_pos,
        )
}

proof fn lemma_layer_linked_on(
    ar: Arith,
    metric: DistanceMetric,
    rules: LinkRules,
    nodes: Seq<NodeView>,
    dim: nat,
    new_pos: u32,
    layer: int,
    ep: u32,
)
    requires
        graph_wf(nodes, dim),
        0 <= layer,
        ep < nodes.len(),
        ep != new_pos,
        nodes[ep as int].reaches(layer),
        new_pos < nodes.len(),
        nodes[new_pos as int].reaches(layer),
        unnamed_to(nodes, new_pos, layer),
    ensures
        linked_on(
            ar,
            metric,
            nodes,
            layer_linked(ar, metric, rules, nodes, new_pos, layer, ep),
            new_pos,
            layer,
            rules.m as int,
        ),
{
    let m = rules.m as int;
    let cands = link_candidates(ar, metric, rules, nodes, new_pos, layer, ep);
    let chosen = selected(ar, metric, nodes, cands, m);
    let limit = list_limit(m, layer);
    lemma_link_candidates(ar, metric, rules, nodes, dim, new_pos, layer, ep);
    lemma_candidates_are_others(ar, metric, rules, nodes, dim, new_pos, layer, ep);
    lemma_layer_linked(ar, metric, rules, nodes, dim, new_pos, layer, ep);
    lemma_selected(ar, metric, nodes, cands, m);
    law_selection_fills_its_slots(ar, metric, nodes, cands, m);
    assert(labels(cands).no_duplicates()) by {
        assert forall|i: int, j: int|
            0 <= i < cands.len() && 0 <= j < cands.len() && i != j implies labels(cands)[i]
            != labels(cands)[j] by {
            if labels(cands)[i] == labels(cands)[j] {
                assert(cands[i].label == cands[j].label);
                assert(cands[i] == cands[j]);
            }
        }
    }
    lemma_selected_distinct(ar, metric, nodes, cands, m);
    lemma_backed_all(ar, metric, nodes, dim, chosen, layer, limit, new_pos);
    lemma_all_back_linked(ar, metric, nodes, dim, chosen, layer, limit, new_pos);
    let mid = all_back_linked(ar, metric, nodes, chosen, layer, limit, new_pos);
    let after = layer_linked(ar, metric, rules, nodes, new_pos, layer, ep);
    assert(mid[new_pos as int].neighbors.len() == nodes[new_pos as int].neighbors.len());
    assert(after[new_pos as int].neighbors[layer] == chosen);
    assert forall|j: int| #![trigger chosen[j]] 0 <= j < chosen.len() implies chosen[j]
        != new_pos by {
        assert(labels(cands).contains(chosen[j]));
        let p = choose|p: int| 0 <= p < labels(cands).len() && labels(cands)[p] == chosen[j];
        assert(cands[p].label < nodes.len());
        assert(cands[p].label != new_pos);
    }
    assert forall|i: int|
        #![trigger after[i]]
        0 <= i < nodes.len() && i != new_pos && layer < nodes[i].neighbors.len() implies backed(
        ar,
        metric,
        vectors_of(nodes),
        i,
        nodes[i].neighbors[layer],
        after[i].neighbors[layer],
        chosen.contains(i as u32),
        limit,
        new_pos,
    ) by {
        assert(after[i] == mid[i]);
    }
}

proof fn lemma_layers_linked_on(
    ar: Arith,
    metric: DistanceMetric,
    rules: LinkRules,
    nodes: Seq<NodeView>,
    dim: nat,
    new_pos: u32,
    top: int,
    ep: u32,
    layer: int,
)
    requires
        graph_wf(nodes, dim),
        -1 <= top,
        ep < nodes.len(),
        ep != new_pos,
        nodes[ep as int].reaches(top),
        new_pos < nodes.len(),
        nodes[new_pos as int].reaches(top),
        unnamed_to(nodes, new_pos, top),
        0 <= layer,
    ensures
        ({
            let after = layers_linked(ar, metric, rules, nodes, new_pos, top, ep);
            &&& layer <= top ==> linked_on(ar, metric, nodes, after, new_pos, layer, rules.m as int)
            &&& layer > top ==> forall|i: int|
                #![trigger after[i]]
                0 <= i < nodes.len() && layer < nodes[i].neighbors.len()
                    ==> after[i].neighbors[layer] == nodes[i].neighbors[layer]
        }),
    decreases top + 1,
{
    if top >= 0 {
        lemma_link_candidates(ar, metric, rules, nodes, dim, new_pos, top, ep);
        lemma_candidates_are_others(ar, metric, rules, nodes, dim, new_pos, top, ep);
        lemma_layer_linked(ar, metric, rules, nodes, dim, new_pos, top, ep);
        lemma_other_layers(ar, metric, rules, nodes, dim, new_pos, top, ep);
        lemma_layer_linked_on(ar, metric, rules, nodes, dim, new_pos, top, ep);
        let cands = link_candidates(ar, metric, rules, nodes, new_pos, top, ep);
        let mid = layer_linked(ar, metric, rules, nodes, new_pos, top, ep);
        let next = cands[0].label as u32;
        let after = layers_linked(ar, metric, rules, nodes, new_pos, top, ep);
        assert(same_but_layer(nodes, mid, top));
        assert(vectors_of(mid) =~= vectors_of(nodes)) by {
            assert forall|i: int| 0 <= i < nodes.len() implies (#[trigger] mid[i]).vector
                == nodes[i].vector by {}
        }
        assert(unnamed_to(mid, new_pos, top - 1)) by {
            assert forall|i: int, l: int, j: int|
                #![trigger mid[i].neighbors[l][j]]
                0 <= i < mid.len() && 0 <= l < mid[i].neighbors.len() && l <= top - 1 && 0 <= j
                    < mid[i].neighbors[l].len() implies mid[i].neighbors[l][j] != new_pos by {
                assert(mid[i].neighbors.len() == nodes[i].neighbors.len());
                assert(mid[i].neighbors[l] == nodes[i].neighbors[l]);
                assert(nodes[i].neighbors[l][j] != new_pos);
            }
        }
        assert(mid[next as int].neighbors.len() == nodes[next as int].neighbors.len());
        assert(mid[new_pos as int].neighbors.len() == nodes[new_pos as int].neighbors.len());
        lemma_layers_linked_on(ar, metric, rules, mid, dim, new_pos, top - 1, next, layer);
        assert(after == layers_linked(ar, metric, rules, mid, new_pos, top - 1, next));
        if layer > top {
            assert forall|i: int|
                #![trigger after[i]]
                0 <= i < nodes.len() && layer < nodes[i].neighbors.len() implies
                after[i].neighbors[layer] == nodes[i].neighbors[layer] by {
                assert(mid[i].neighbors.len() == nodes[i].neighbors.len());
                assert(mid[i].neighbors[layer] == nodes[i].neighbors[layer]);
            }
        } else if layer == top {
            assert(after[new_pos as int].neighbors[layer] == mid[new_pos as int].neighbors[layer]);
            assert forall|i: int|
                #![trigger after[i]]
                0 <= i < nodes.len() && i != new_pos && layer
                    < nodes[i].neighbors.len() implies after[i].neighbors[layer]
                == mid[i].neighbors[layer] by {
                assert(mid[i].neighbors.len() == nodes[i].neighbors.len());
            }
            let m = rules.m as int;
            lemma_linked_on_moves(ar, metric, nodes, mid, nodes, after, new_pos, layer, m);
        } else {
            lemma_layers_linked(ar, metric, rules, mid, dim, new_pos, top - 1, next);
            assert forall|i: int|
                #![trigger nodes[i]]
                0 <= i < nodes.len() implies mid[i].neighbors.len() == nodes[i].neighbors.len()
                && (layer < nodes[i].neighbors.len() ==> mid[i].neighbors[layer]
                == nodes[i].neighbors[layer]) by {
                assert(mid[i].neighbors.len() == nodes[i].neighbors.len());
            }
            let m = rules.m as int;
            lemma_linked_on_moves(ar, metric, mid, after, nodes, after, new_pos, layer, m);
        }
    }
}

/// Linking on a layer is a matter of the lists of that layer alone.
proof fn lemma_linked_on_moves(
    ar: Arith,
    metric: DistanceMetric,
    a: Seq<NodeView>,
    b: Seq<NodeView>,
    c: Seq<NodeView>,
    d: Seq<NodeView>,
    new_pos: u32,
    layer: int,
    m: int,
)
    requires
        linked_on(ar, metric, a, b, new_pos, layer, m),
        a.len() == c.len(),
        vectors_of(a) == vectors_of(c),
        forall|i: int|
            #![trigger c[i]]
            0 <= i < c.len() ==> a[i].neighbors.len() == c[i].neighbors.len() && (layer
                < c[i].neighbors.len() ==> a[i].neighbors[layer] == c[i].neighbors[layer]),
        forall|i: int|
            #![trigger d[i]]
            0 <= i < c.len() && layer < c[i].neighbors.len() ==> d[i].neighbors[layer]
                == b[i].neighbors[layer],
        new_pos < c.len(),
        layer < c[new_pos as int].neighbors.len(),
    ensures
        linked_on(ar, metric, c, d, new_pos, layer, m),
{
    let mine = d[new_pos as int].neighbors[layer];
    assert(mine == b[new_pos as int].neighbors[layer]);
    assert forall|j: int| #![trigger mine[j]] 0 <= j < mine.len() implies mine[j] != new_pos
        && mine[j] < c.len() && layer < c[mine[j] as int].neighbors.len() by {
        assert(c[mine[j] as int].neighbors.len() == a[mine[j] as int].neighbors.len());
    }
    assert forall|i: int|
        #![trigger d[i]]
        0 <= i < c.len() && i != new_pos && layer < c[i].neighbors.len() implies backed(
        ar,
        metric,
        vectors_of(c),
        i,
        c[i].neighbors[layer],
        d[i].neighbors[layer],
        mine.contains(i as u32),
        if layer == 0 {
            m * 2
        } else {
            m
        },
        new_pos,
    ) by {
        assert(a[i].neighbors.len() == c[i].neighbors.len());
        assert(b[i].neighbors[layer] == d[i].neighbors[layer]);
    }
}

// ---------------------------------------------------------------------------
// Storing a vector
// ---------------------------------------------------------------------------

/// Storing a vector adds one node: live, with the id, the vector and the
/// payload, on as many layers as were sampled for it. The other nodes keep
/// theirs and stay on their layers; parameters, metric and dimension stay; the
/// generator goes on by one step. The new node is where searches enter exactly
/// if it is the first or reaches higher than all others.
pub proof fn law_insertion_adds_one_node(
    v: HnswView,
    ar: Arith,
    id: u64,
    vector: Seq<u32>,
    payload: Option<JsonView>,
)
    requires
        v.wf(),
        v.nodes.len() < 0x1_0000_0000,
        vector.len() == v.dim,
    ensures
        ({
            let after = v.inserted(ar, id, vector, payload);
            let n = v.nodes.len() as int;
            let level = after.nodes[n].neighbors.len() - 1;
            &&& after.config == v.config
            &&& after.metric == v.metric
            &&& after.dim == v.dim
            &&& after.rng == (v.rng + 0x9e37_79b9_7f4a_7c15) % 0x1_0000_0000_0000_0000
            &&& after.nodes.len() == n + 1
            &&& after.nodes[n].id == id
            &&& after.nodes[n].vector == vector
            &&& after.nodes[n].payload == payload
            &&& !after.nodes[n].deleted
            &&& level == level_of(ar, v.config.m, scrambled(after.rng))
            &&& forall|i: int|
                #![trigger after.nodes[i]]
                0 <= i < n ==> {
                    &&& after.nodes[i].id == v.nodes[i].id
                    &&& after.nodes[i].vector == v.nodes[i].vector
                    &&& after.nodes[i].payload == v.nodes[i].payload
                    &&& after.nodes[i].deleted == v.nodes[i].deleted
                    &&& after.nodes[i].neighbors.len() == v.nodes[i].neighbors.len()
                }
            &&& v.entry is None ==> after.entry == Some(n as u32) && after.max_layer == level
            &&& v.entry is Some && level > v.max_layer ==> after.entry == Some(n as u32)
                && after.max_layer == level
            &&& v.entry is Some && level <= v.max_layer ==> after.entry == v.entry
                && after.max_layer == v.max_layer
        }),
{
    let level = level_of(ar, v.config.m, scrambled(next_state(v.rng)));
    let new_pos = v.nodes.len() as u32;
    let n = v.nodes.len() as int;
    let fresh = NodeView {
        id,
        vector,
        neighbors: Seq::new((level + 1) as nat, |i: int| seq![]),
        deleted: false,
        payload,
    };
    let grown = v.nodes.push(fresh);
    lemma_pushed_wf(v.nodes, v.dim as nat, fresh);
    assert(grown[n] == fresh);
    let after = v.inserted(ar, id, vector, payload);
    match v.entry {
        None => {},
        Some(entry) => {
            let (ep, top) = lemma_insertion_start(v, ar, id, vector, payload);
            lemma_layers_linked(
                ar,
                v.metric,
                v.rules(),
                grown,
                v.dim as nat,
                new_pos,
                top,
                ep,
            );
            assert(same_points(grown, after.nodes));
            assert forall|i: int| #![trigger after.nodes[i]] 0 <= i < n implies {
                &&& after.nodes[i].id == v.nodes[i].id
                &&& after.nodes[i].vector == v.nodes[i].vector
                &&& after.nodes[i].payload == v.nodes[i].payload
                &&& after.nodes[i].deleted == v.nodes[i].deleted
                &&& after.nodes[i].neighbors.len() == v.nodes[i].neighbors.len()
            } by {
                assert(grown[i] == v.nodes[i]);
            }
            assert(after.nodes[n].id == grown[n].id);
        },
    }
}

/// Where linking starts when a vector is stored.
proof fn lemma_insertion_start(
    v: HnswView,
    ar: Arith,
    id: u64,
    vector: Seq<u32>,
    payload: Option<JsonView>,
) -> (r: (u32, int))
    requires
        v.wf(),
        v.nodes.len() < 0x1_0000_0000,
        vector.len() == v.dim,
        v.entry is Some,
    ensures
        ({
            let level = level_of(ar, v.config.m, scrambled(next_state(v.rng)));
            let fresh = NodeView {
                id,
                vector,
                neighbors: Seq::new((level + 1) as nat, |i: int| seq![]),
                deleted: false,
                payload,
            };
            let grown = v.nodes.push(fresh);
            let new_pos = v.nodes.len() as u32;
            let (ep, top) = r;
            &&& top == if level < v.max_layer {
                level as int
            } else {
                v.max_layer as int
            }
            &&& graph_wf(grown, v.dim as nat)
            &&& ep < v.nodes.len()
            &&& ep == descend(
                grown,
                distances(ar, v.metric, grown, vector),
                v.max_layer as int,
                level + 1,
                v.entry->Some_0,
            )
            &&& grown[ep as int].reaches(top)
            &&& grown[new_pos as int].reaches(top)
            &&& unnamed_to(grown, new_pos, top)
            &&& v.inserted(ar, id, vector, payload).nodes == layers_linked(
                ar,
                v.metric,
                v.rules(),
                grown,
                new_pos,
                top,
                ep,
            )
        }),
{
    let level = level_of(ar, v.config.m, scrambled(next_state(v.rng)));
    let new_pos = v.nodes.len() as u32;
    let n = v.nodes.len() as int;
    let fresh = NodeView {
        id,
        vector,
        neighbors: Seq::new((level + 1) as nat, |i: int| seq![]),
        deleted: false,
        payload,
    };
    let grown = v.nodes.push(fresh);
    let entry = v.entry->Some_0;
    lemma_pushed_wf(v.nodes, v.dim as nat, fresh);
    assert(grown[n] == fresh);
    let dist = distances(ar, v.metric, grown, vector);
    let ep = descend(grown, dist, v.max_layer as int, level + 1, entry);
    let top = if level < v.max_layer {
        level
    } else {
        v.max_layer
    };
    assert(grown[entry as int] == v.nodes[entry as int]);
    assert forall|i: int, l: int, j: int|
        #![trigger grown[i].neighbors[l][j]]
        0 <= i < grown.len() && 0 <= l < grown[i].neighbors.len() && 0 <= j
            < grown[i].neighbors[l].len() implies grown[i].neighbors[l][j] != new_pos by {
        assert(i < n);
        assert(v.nodes[i].neighbors[l][j] < n);
    }
    if level < v.max_layer {
        lemma_descend(grown, v.dim as nat, dist, v.max_layer as int, level + 1, entry);
        lemma_descent_avoids(
            grown,
            v.dim as nat,
            dist,
            v.max_layer as int,
            level + 1,
            entry,
            new_pos,
        );
    }
    (ep, top as int)
}

/// Storing a vector links it both ways: on every layer that it and the graph
/// share it takes neighbors, and they take it; lists of nodes that it did not
/// choose, and all lists of higher layers, stay as they are.
pub proof fn law_insertion_links_both_ways(
    v: HnswView,
    ar: Arith,
    id: u64,
    vector: Seq<u32>,
    payload: Option<JsonView>,
    layer: int,
)
    requires
        v.wf(),
        v.nodes.len() < 0x1_0000_0000,
        vector.len() == v.dim,
        v.entry is Some,
        0 <= layer,
    ensures
        ({
            let after = v.inserted(ar, id, vector, payload);
            let n = v.nodes.len() as int;
            let level = after.nodes[n].neighbors.len() - 1;
            let mine = after.nodes[n].neighbors[layer];
            &&& layer <= level && layer <= v.max_layer ==> {
                &&& mine.len() <= v.config.m
                &&& v.config.m >= 1 ==> mine.len() >= 1
                &&& mine.no_duplicates()
                &&& forall|j: int|
                    #![trigger mine[j]]
                    0 <= j < mine.len() ==> mine[j] < n && layer
                        < v.nodes[mine[j] as int].neighbors.len()
                &&& forall|i: int|
                    #![trigger after.nodes[i]]
                    0 <= i < n && layer < v.nodes[i].neighbors.len() ==> backed(
                        ar,
                        v.metric,
                        vectors_of(after.nodes),
                        i,
                        v.nodes[i].neighbors[layer],
                        after.nodes[i].neighbors[layer],
                        mine.contains(i as u32),
                        if layer == 0 {
                            v.config.m * 2
                        } else {
                            v.config.m as int
                        },
                        n as u32,
                    )
            }
            &&& layer > level || layer > v.max_layer ==> forall|i: int|
                #![trigger after.nodes[i]]
                0 <= i < n && layer < v.nodes[i].neighbors.len()
                    ==> after.nodes[i].neighbors[layer] == v.nodes[i].neighbors[layer]
            &&& layer <= level && layer > v.max_layer ==> mine.len() == 0
        }),
{
    let n = v.nodes.len() as int;
    let new_pos = n as u32;
    let level = level_of(ar, v.config.m, scrambled(next_state(v.rng)));
    let fresh = NodeView {
        id,
        vector,
        neighbors: Seq::new((level + 1) as nat, |i: int| seq![]),
        deleted: false,
        payload,
    };
    let grown = v.nodes.push(fresh);
    assert(grown[n] == fresh);
    let (ep, top) = lemma_insertion_start(v, ar, id, vector, payload);
    law_insertion_adds_one_node(v, ar, id, vector, payload);
    lemma_layers_linked_on(
        ar,
        v.metric,
        v.rules(),
        grown,
        v.dim as nat,
        new_pos,
        top,
        ep,
        layer,
    );
    let after = v.inserted(ar, id, vector, payload);
    let mine = after.nodes[n].neighbors[layer];
    assert(vectors_of(after.nodes) =~= vectors_of(grown)) by {
        assert forall|i: int| 0 <= i <= n implies (#[trigger] after.nodes[i]).vector
            == grown[i].vector by {}
    }
    if layer <= top {
        assert forall|j: int| #![trigger mine[j]] 0 <= j < mine.len() implies mine[j] < n && layer
            < v.nodes[mine[j] as int].neighbors.len() by {
            assert(grown[mine[j] as int] == v.nodes[mine[j] as int]);
        }
        assert forall|i: int|
            #![trigger after.nodes[i]]
            0 <= i < n && layer < v.nodes[i].neighbors.len() implies backed(
            ar,
            v.metric,
            vectors_of(after.nodes),
            i,
            v.nodes[i].neighbors[layer],
            after.nodes[i].neighbors[layer],
            mine.contains(i as u32),
            if layer == 0 {
                v.config.m * 2
            } else {
                v.config.m as int
            },
            new_pos,
        ) by {
            assert(grown[i] == v.nodes[i]);
        }
    } else {
        assert forall|i: int|
            #![trigger after.nodes[i]]
            0 <= i < n && layer < v.nodes[i].neighbors.len() implies after.nodes[i].neighbors[layer]
            == v.nodes[i].neighbors[layer] by {
            assert(grown[i] == v.nodes[i]);
        }
        if layer <= level {
            assert(after.nodes[n].neighbors[layer] == grown[n].neighbors[layer]);
        }
    }
}

/// Whether a node's list on layer 0 is what it should be among few nodes: as
/// full as it may be, with a closest node in front.
pub open spec fn takes_the_closest(
    ar: Arith,
    metric: DistanceMetric,
    nodes: Seq<NodeView>,
    list: Seq<u32>,
    new_pos: u32,
    m: int,
) -> bool {
    &&& list.len() == if m < new_pos {
        m
    } else {
        new_pos as int
    }
    &&& forall|i: int|
        #![trigger nodes[i]]
        0 <= i < new_pos ==> total_key(
            metric.between(
                ar,
                nodes[new_pos as int].vector,
                nodes[list[0] as int].vector,
            ),
        ) <= total_key(metric.between(ar, nodes[new_pos as int].vector, nodes[i].vector))
}

proof fn lemma_others_within_reach(
    t: Terrain,
    nodes: Seq<NodeView>,
    dim: nat,
    new_pos: u32,
    ep: u32,
    i: u32,
)
    requires
        graph_wf(nodes, dim),
        nodes.len() == new_pos + 1,
        unnamed_to(nodes, new_pos, 0),
        joined_up(ground_links(nodes).take(new_pos as int)),
        ep < new_pos,
        i < new_pos,
        t.size() == nodes.len(),
        t.links.len() == nodes.len(),
        forall|a: int|
            #![trigger t.links[a]]
            0 <= a < nodes.len() ==> t.links[a] == nodes[a].neighbors[0],
    ensures
        reachable(t, ep, i as int),
{
    let n = new_pos as int;
    let old_links = ground_links(nodes).take(n);
    assert forall|set: Seq<bool>|
        #![trigger closed_under_links(t, set)]
        closed_under_links(t, set) && set[ep as int] implies set[i as int] by {
        let part = set.take(n);
        assert(link_closed(old_links, part)) by {
            assert forall|a: int, b: int|
                #![trigger old_links[a][b]]
                0 <= a < n && part[a] && 0 <= b
                    < old_links[a].len() implies part[old_links[a][b] as int] by {
                assert(nodes[a].neighbors.len() >= 1);
                assert(t.links[a][b] == old_links[a][b]);
                assert(nodes[a].neighbors[0][b] != new_pos);
                assert(nodes[a].neighbors[0][b] < nodes.len());
                assert(set[a]);
            }
        }
        assert(part[ep as int]);
        assert(part[i as int]);
    }
}

proof fn lemma_all_are_candidates(
    ar: Arith,
    metric: DistanceMetric,
    rules: LinkRules,
    nodes: Seq<NodeView>,
    dim: nat,
    new_pos: u32,
    ep: u32,
)
    requires
        graph_wf(nodes, dim),
        nodes.len() == new_pos + 1,
        unnamed_to(nodes, new_pos, 0),
        joined_up(ground_links(nodes).take(new_pos as int)),
        ep < new_pos,
        new_pos < rules.ef_construction,
    ensures
        ({
            let cands = link_candidates(ar, metric, rules, nodes, new_pos, 0, ep);
            let t = open_terrain(ar, metric, nodes, 0, nodes[new_pos as int].vector);
            &&& cands.len() == new_pos
            &&& forall|i: u32| i < new_pos ==> #[trigger] cands.contains(t.candidate(i))
        }),
{
    let n = new_pos as int;
    let cands = link_candidates(ar, metric, rules, nodes, new_pos, 0, ep);
    let t = open_terrain(ar, metric, nodes, 0, nodes[n].vector);
    assert(nodes[ep as int].neighbors.len() >= 1);
    lemma_link_candidates(ar, metric, rules, nodes, dim, new_pos, 0, ep);
    lemma_candidates_are_others(ar, metric, rules, nodes, dim, new_pos, 0, ep);
    let ints = cands.map_values(|c: Candidate| c.label as int);
    let all = vstd::set_lib::set_int_range(0, n);
    vstd::set_lib::lemma_int_range(0, n);
    assert forall|i: int| 0 <= i < cands.len() implies (#[trigger] cands[i]).label < n by {
        assert(cands[i].label != new_pos);
        assert(cands[i].label < nodes.len());
    }
    assert(ints.no_duplicates()) by {
        assert forall|i: int, j: int|
            0 <= i < ints.len() && 0 <= j < ints.len() && i != j implies ints[i] != ints[j] by {
            if ints[i] == ints[j] {
                assert(cands[i] == cands[j]);
            }
        }
    }
    ints.unique_seq_to_set();
    assert(ints.to_set().subset_of(all)) by {
        assert forall|x: int| ints.to_set().contains(x) implies all.contains(x) by {
            let p = choose|p: int| 0 <= p < ints.len() && ints[p] == x;
            assert(cands[p].label == x);
        }
    }
    vstd::set_lib::lemma_len_subset(ints.to_set(), all);
    assert forall|i: u32| i < n implies #[trigger] cands.contains(t.candidate(i)) by {
        lemma_others_within_reach(t, nodes, dim, new_pos, ep, i);
        law_beam_does_not_starve(t, ep, rules.ef_construction as int, i);
    }
    assert(all.subset_of(ints.to_set())) by {
        assert forall|x: int| all.contains(x) implies ints.to_set().contains(x) by {
            assert(cands.contains(t.candidate(x as u32)));
            let p = choose|p: int| 0 <= p < cands.len() && cands[p] == t.candidate(x as u32);
            assert(ints[p] == x);
        }
    }
    vstd::set_lib::lemma_len_subset(all, ints.to_set());
}

proof fn lemma_own_list(
    ar: Arith,
    metric: DistanceMetric,
    rules: LinkRules,
    nodes: Seq<NodeView>,
    dim: nat,
    new_pos: u32,
    layer: int,
    ep: u32,
)
    requires
        graph_wf(nodes, dim),
        0 <= layer,
        new_pos < nodes.len(),
        nodes[new_pos as int].reaches(layer),
        ep < nodes.len(),
        nodes[ep as int].reaches(layer),
        rules.m >= 1,
    ensures
        ({
            let cands = link_candidates(ar, metric, rules, nodes, new_pos, layer, ep);
            let list = layer_linked(ar, metric, rules, nodes, new_pos, layer, ep)[
                new_pos as int
            ].neighbors[layer];
            &&& cands.len() >= 1
            &&& list[0] == cands[0].label as u32
            &&& list.len() == if rules.m < cands.len() {
                rules.m as int
            } else {
                cands.len() as int
            }
        }),
{
    let n = new_pos as int;
    let m = rules.m as int;
    let cands = link_candidates(ar, metric, rules, nodes, new_pos, layer, ep);
    let chosen = selected(ar, metric, nodes, cands, m);
    lemma_link_candidates(ar, metric, rules, nodes, dim, new_pos, layer, ep);
    lemma_layer_linked(ar, metric, rules, nodes, dim, new_pos, layer, ep);
    lemma_selected(ar, metric, nodes, cands, m);
    law_selection_fills_its_slots(ar, metric, nodes, cands, m);
    assert(chosen[0] == cands[0].label as u32) by {
        law_selection_spreads_neighbors(ar, metric, nodes, cands, m);
    }
    lemma_all_back_linked(ar, metric, nodes, dim, chosen, layer, list_limit(m, layer), new_pos);
    let mid = all_back_linked(ar, metric, nodes, chosen, layer, list_limit(m, layer), new_pos);
    assert(mid[n].neighbors.len() == nodes[n].neighbors.len());
    assert(layer_linked(ar, metric, rules, nodes, new_pos, layer, ep)[n].neighbors[layer] == chosen);
}

proof fn lemma_ground_candidates(
    ar: Arith,
    metric: DistanceMetric,
    rules: LinkRules,
    nodes: Seq<NodeView>,
    dim: nat,
    new_pos: u32,
    ep: u32,
)
    requires
        graph_wf(nodes, dim),
        nodes.len() == new_pos + 1,
        unnamed_to(nodes, new_pos, 0),
        joined_up(ground_links(nodes).take(new_pos as int)),
        ep < new_pos,
        rules.m >= 1,
        new_pos < rules.ef_construction,
    ensures
        takes_the_closest(
            ar,
            metric,
            nodes,
            layer_linked(ar, metric, rules, nodes, new_pos, 0, ep)[new_pos as int].neighbors[0],
            new_pos,
            rules.m as int,
        ),
{
    let n = new_pos as int;
    let cands = link_candidates(ar, metric, rules, nodes, new_pos, 0, ep);
    let t = open_terrain(ar, metric, nodes, 0, nodes[n].vector);
    assert(nodes[ep as int].neighbors.len() >= 1);
    assert(nodes[n].neighbors.len() >= 1);
    lemma_own_list(ar, metric, rules, nodes, dim, new_pos, 0, ep);
    lemma_link_candidates(ar, metric, rules, nodes, dim, new_pos, 0, ep);
    lemma_all_are_candidates(ar, metric, rules, nodes, dim, new_pos, ep);
    let list = layer_linked(ar, metric, rules, nodes, new_pos, 0, ep)[n].neighbors[0];
    assert(cands[0].label < nodes.len());
    assert forall|i: int|
        #![trigger nodes[i]]
        0 <= i < new_pos implies total_key(t.dist[list[0] as int]) <= total_key(t.dist[i]) by {
        assert(cands.contains(t.candidate(i as u32)));
        let p = choose|p: int| 0 <= p < cands.len() && cands[p] == t.candidate(i as u32);
        if p > 0 {
            assert(!before(cands[p], cands[0]));
        }
    }
    assert(takes_the_closest(ar, metric, nodes, list, new_pos, rules.m as int));
}

proof fn lemma_ground_is_taken(
    ar: Arith,
    metric: DistanceMetric,
    rules: LinkRules,
    nodes: Seq<NodeView>,
    dim: nat,
    new_pos: u32,
    layer: int,
    ep: u32,
)
    requires
        graph_wf(nodes, dim),
        nodes.len() == new_pos + 1,
        unnamed_to(nodes, new_pos, layer),
        joined_up(ground_links(nodes).take(new_pos as int)),
        0 <= layer,
        ep < new_pos,
        nodes[ep as int].reaches(layer),
        nodes[new_pos as int].reaches(layer),
        rules.m >= 1,
        new_pos < rules.ef_construction,
    ensures
        takes_the_closest(
            ar,
            metric,
            nodes,
            layers_linked(
                ar,
                metric,
                rules,
                nodes,
                new_pos,
                layer,
                ep,
            )[new_pos as int].neighbors[0],
            new_pos,
            rules.m as int,
        ),
    decreases layer,
{
    let cands = link_candidates(ar, metric, rules, nodes, new_pos, layer, ep);
    let mid = layer_linked(ar, metric, rules, nodes, new_pos, layer, ep);
    let next = cands[0].label as u32;
    lemma_link_candidates(ar, metric, rules, nodes, dim, new_pos, layer, ep);
    lemma_candidates_are_others(ar, metric, rules, nodes, dim, new_pos, layer, ep);
    lemma_layer_linked(ar, metric, rules, nodes, dim, new_pos, layer, ep);
    if layer > 0 {
        lemma_other_layers(ar, metric, rules, nodes, dim, new_pos, layer, ep);
        assert(ground_links(mid) =~= ground_links(nodes)) by {
            assert forall|i: int| 0 <= i < nodes.len() implies mid[i].neighbors[0]
                == nodes[i].neighbors[0] by {
                assert(nodes[i].neighbors.len() >= 1);
            }
        }
        assert forall|i: int, l: int, j: int|
            #![trigger mid[i].neighbors[l][j]]
            0 <= i < mid.len() && 0 <= l < mid[i].neighbors.len() && l <= layer - 1 && 0 <= j
                < mid[i].neighbors[l].len() implies mid[i].neighbors[l][j] != new_pos by {
            assert(mid[i].neighbors.len() == nodes[i].neighbors.len());
            assert(mid[i].neighbors[l] == nodes[i].neighbors[l]);
            assert(nodes[i].neighbors[l][j] != new_pos);
        }
        assert(mid[next as int].neighbors.len() == nodes[next as int].neighbors.len());
        assert(mid[new_pos as int].neighbors.len() == nodes[new_pos as int].neighbors.len());
        lemma_ground_is_taken(ar, metric, rules, mid, dim, new_pos, layer - 1, next);
        let list = layers_linked(ar, metric, rules, nodes, new_pos, layer, ep)[
            new_pos as int
        ].neighbors[0];
        assert(list.len() >= 1);
        lemma_layers_linked(ar, metric, rules, mid, dim, new_pos, layer - 1, next);
        lemma_linked_in_range(ar, metric, rules, mid, dim, new_pos, layer - 1, next);
        assert forall|i: int| 0 <= i < nodes.len() implies (#[trigger] nodes[i]).vector
            == mid[i].vector by {}
        assert(takes_the_closest(ar, metric, nodes, list, new_pos, rules.m as int)) by {
            assert forall|i: int| #![trigger nodes[i]] 0 <= i < new_pos implies total_key(
                metric.between(
                    ar,
                    nodes[new_pos as int].vector,
                    nodes[list[0] as int].vector,
                ),
            ) <= total_key(metric.between(ar, nodes[new_pos as int].vector, nodes[i].vector)) by {
                assert(mid[i].vector == nodes[i].vector);
                assert(mid[list[0] as int].vector == nodes[list[0] as int].vector);
            }
        }
    } else {
        lemma_ground_candidates(ar, metric, rules, nodes, dim, new_pos, ep);
        assert(layers_linked(ar, metric, rules, mid, new_pos, -1, next) == mid);
    }
}

proof fn lemma_linked_in_range(
    ar: Arith,
    metric: DistanceMetric,
    rules: LinkRules,
    nodes: Seq<NodeView>,
    dim: nat,
    new_pos: u32,
    top: int,
    ep: u32,
)
    requires
        graph_wf(nodes, dim),
        0 <= top,
        ep < nodes.len(),
        ep != new_pos,
        nodes[ep as int].reaches(top),
        new_pos < nodes.len(),
        nodes[new_pos as int].reaches(top),
        unnamed_to(nodes, new_pos, top),
    ensures
        ({
            let list = layers_linked(ar, metric, rules, nodes, new_pos, top, ep)[
                new_pos as int
            ].neighbors[0];
            list.len() >= 1 ==> list[0] < nodes.len()
        }),
{
    lemma_layers_linked_on(ar, metric, rules, nodes, dim, new_pos, top, ep, 0);
}

/// As long as an index is well linked and holds fewer vectors than its beam for
/// insertion is wide, a vector that is stored becomes a neighbor of as many
/// others as it may, of the closest one first.
pub proof fn law_stored_vector_is_next_to_its_closest(
    v: HnswView,
    ar: Arith,
    id: u64,
    vector: Seq<u32>,
    payload: Option<JsonView>,
)
    requires
        v.wf(),
        v.nodes.len() < 0x1_0000_0000,
        vector.len() == v.dim,
        well_linked(v),
        v.config.m >= 1,
        0 < v.nodes.len() < v.config.ef_construction,
    ensures
        ({
            let n = v.nodes.len() as int;
            let mine = v.inserted(ar, id, vector, payload).nodes[n].neighbors[0];
            &&& mine.len() == if v.config.m < n {
                v.config.m as int
            } else {
                n
            }
            &&& mine[0] < n
            &&& forall|i: int|
                #![trigger v.nodes[i]]
                0 <= i < n ==> total_key(
                    v.metric.between(ar, vector, v.nodes[mine[0] as int].vector),
                ) <= total_key(v.metric.between(ar, vector, v.nodes[i].vector))
        }),
{
    let n = v.nodes.len() as int;
    let new_pos = n as u32;
    let level = level_of(ar, v.config.m, scrambled(next_state(v.rng)));
    let fresh = NodeView {
        id,
        vector,
        neighbors: Seq::new((level + 1) as nat, |i: int| seq![]),
        deleted: false,
        payload,
    };
    let grown = v.nodes.push(fresh);
    assert(grown[n] == fresh);
    let (ep, top) = lemma_insertion_start(v, ar, id, vector, payload);
    assert(ground_links(grown).take(n) =~= ground_links(v.nodes));
    lemma_ground_is_taken(
        ar,
        v.metric,
        v.rules(),
        grown,
        v.dim as nat,
        new_pos,
        top,
        ep,
    );
    law_insertion_adds_one_node(v, ar, id, vector, payload);
    law_insertion_links_both_ways(v, ar, id, vector, payload, 0);
    let mine = v.inserted(ar, id, vector, payload).nodes[n].neighbors[0];
    assert(mine[0] < n);
    assert forall|i: int|
        #![trigger v.nodes[i]]
        0 <= i < n implies total_key(
        v.metric.between(ar, vector, v.nodes[mine[0] as int].vector),
    ) <= total_key(v.metric.between(ar, vector, v.nodes[i].vector)) by {
        assert(grown[i] == v.nodes[i]);
        assert(grown[mine[0] as int] == v.nodes[mine[0] as int]);
    }
}

/// The candidates of a node are no farther than where their search began.
proof fn lemma_first_candidate(
    ar: Arith,
    metric: DistanceMetric,
    rules: LinkRules,
    nodes: Seq<NodeView>,
    dim: nat,
    new_pos: u32,
    layer: int,
    ep: u32,
)
    requires
        graph_wf(nodes, dim),
        0 <= layer,
        ep < nodes.len(),
        nodes[ep as int].reaches(layer),
        rules.ef_construction >= 1,
        new_pos < nodes.len(),
        all_numbers(ar, metric, nodes, nodes[new_pos as int].vector),
    ensures
        ({
            let cands = link_candidates(ar, metric, rules, nodes, new_pos, layer, ep);
            let at = nodes[new_pos as int].vector;
            &&& cands.len() >= 1
            &&& cands[0].label < nodes.len()
            &&& !less(
                metric.between(ar, at, nodes[ep as int].vector),
                metric.between(ar, at, nodes[cands[0].label as int].vector),
            )
        }),
{
    let t = open_terrain(ar, metric, nodes, layer, nodes[new_pos as int].vector);
    let ef = rules.ef_construction as int;
    let cands = link_candidates(ar, metric, rules, nodes, new_pos, layer, ep);
    lemma_link_candidates(ar, metric, rules, nodes, dim, new_pos, layer, ep);
    lemma_beam_start(t, ep);
    lemma_visited_grows(t, beam_start(t, ep), ef, ep as int);
    let c = t.candidate(ep);
    assert(cands[0].label < nodes.len());
    let near = t.dist[cands[0].label as int];
    if cands.contains(c) {
        let p = choose|p: int| 0 <= p < cands.len() && cands[p] == c;
        if p > 0 {
            assert(!before(cands[p], cands[0]));
            lemma_total_order_refines_less(t.dist[ep as int], near);
        }
    } else {
        law_beam_keeps_the_closest(t, ep, ef, ep);
        let last = cands.last();
        assert(cands[cands.len() - 1] == last);
        assert(last.label < nodes.len());
        assert(!is_nan(metric.between(
            ar,
            nodes[new_pos as int].vector,
            nodes[last.label as int].vector,
        )));
        if cands.len() > 1 {
            assert(!before(cands[cands.len() - 1], cands[0]));
            lemma_total_order_refines_less(last.distance, near);
        }
    }
}

/// Whether the distances from a vector to those of the nodes are all numbers.
pub open spec fn all_numbers(
    ar: Arith,
    metric: DistanceMetric,
    nodes: Seq<NodeView>,
    vector: Seq<u32>,
) -> bool {
    forall|i: int|
        #![trigger nodes[i]]
        0 <= i < nodes.len() ==> !is_nan(metric.between(ar, vector, nodes[i].vector))
}

/// Whether the first neighbor of a node on a layer is no farther than another
/// node.
pub open spec fn first_no_farther(
    ar: Arith,
    metric: DistanceMetric,
    vectors: Seq<Seq<u32>>,
    vector: Seq<u32>,
    list: Seq<u32>,
    other: u32,
) -> bool {
    &&& list.len() >= 1
    &&& list[0] < vectors.len()
    &&& !less(
        metric.between(ar, vector, vectors[other as int]),
        metric.between(ar, vector, vectors[list[0] as int]),
    )
}

proof fn lemma_first_neighbors(
    ar: Arith,
    metric: DistanceMetric,
    rules: LinkRules,
    nodes: Seq<NodeView>,
    dim: nat,
    new_pos: u32,
    top: int,
    ep: u32,
    layer: int,
)
    requires
        graph_wf(nodes, dim),
        0 <= layer <= top,
        ep < nodes.len(),
        ep != new_pos,
        nodes[ep as int].reaches(top),
        new_pos < nodes.len(),
        nodes[new_pos as int].reaches(top),
        unnamed_to(nodes, new_pos, top),
        rules.m >= 1,
        rules.ef_construction >= 1,
        all_numbers(ar, metric, nodes, nodes[new_pos as int].vector),
    ensures
        ({
            let lists = layers_linked(ar, metric, rules, nodes, new_pos, top, ep)[
                new_pos as int
            ].neighbors;
            first_no_farther(
                ar,
                metric,
                vectors_of(nodes),
                nodes[new_pos as int].vector,
                lists[layer],
                if layer == top {
                    ep
                } else {
                    lists[layer + 1][0]
                },
            )
        }),
    decreases top,
{
    let n = new_pos as int;
    let cands = link_candidates(ar, metric, rules, nodes, new_pos, top, ep);
    let mid = layer_linked(ar, metric, rules, nodes, new_pos, top, ep);
    let next = cands[0].label as u32;
    lemma_link_candidates(ar, metric, rules, nodes, dim, new_pos, top, ep);
    lemma_candidates_are_others(ar, metric, rules, nodes, dim, new_pos, top, ep);
    lemma_layer_linked(ar, metric, rules, nodes, dim, new_pos, top, ep);
    lemma_other_layers(ar, metric, rules, nodes, dim, new_pos, top, ep);
    lemma_own_list(ar, metric, rules, nodes, dim, new_pos, top, ep);
    lemma_first_candidate(ar, metric, rules, nodes, dim, new_pos, top, ep);
    assert(same_but_layer(nodes, mid, top));
    assert(vectors_of(mid) =~= vectors_of(nodes)) by {
        assert forall|i: int| 0 <= i < nodes.len() implies (#[trigger] mid[i]).vector
            == nodes[i].vector by {}
    }
    assert(unnamed_to(mid, new_pos, top - 1)) by {
        assert forall|i: int, l: int, j: int|
            #![trigger mid[i].neighbors[l][j]]
            0 <= i < mid.len() && 0 <= l < mid[i].neighbors.len() && l <= top - 1 && 0 <= j
                < mid[i].neighbors[l].len() implies mid[i].neighbors[l][j] != new_pos by {
            assert(mid[i].neighbors.len() == nodes[i].neighbors.len());
            assert(mid[i].neighbors[l] == nodes[i].neighbors[l]);
            assert(nodes[i].neighbors[l][j] != new_pos);
        }
    }
    assert(mid[next as int].neighbors.len() == nodes[next as int].neighbors.len());
    assert(mid[n].neighbors.len() == nodes[n].neighbors.len());
    let after = layers_linked(ar, metric, rules, nodes, new_pos, top, ep);
    assert(after == layers_linked(ar, metric, rules, mid, new_pos, top - 1, next));
    lemma_layers_linked_on(ar, metric, rules, mid, dim, new_pos, top - 1, next, top);
    assert(after[n].neighbors[top] == mid[n].neighbors[top]);
    assert(after[n].neighbors[top][0] == next);
    if layer < top {
        assert(mid[n].vector == nodes[n].vector);
        assert(all_numbers(ar, metric, mid, mid[n].vector)) by {
            assert forall|i: int| #![trigger mid[i]] 0 <= i < mid.len() implies !is_nan(
                metric.between(ar, mid[n].vector, mid[i].vector),
            ) by {
                assert(mid[i].vector == nodes[i].vector);
            }
        }
        lemma_first_neighbors(ar, metric, rules, mid, dim, new_pos, top - 1, next, layer);
    } else {
        assert(vectors_of(nodes)[next as int] == nodes[next as int].vector);
        assert(vectors_of(nodes)[ep as int] == nodes[ep as int].vector);
    }
}

/// A vector that is stored gets closer to its place layer by layer: it goes
/// down from the entry as a search does; on the highest layer that it shares
/// its first neighbor is no farther than where that descent ended, and on every
/// layer below no farther than its first neighbor on the layer above.
pub proof fn law_stored_vector_gets_closer_downward(
    v: HnswView,
    ar: Arith,
    id: u64,
    vector: Seq<u32>,
    payload: Option<JsonView>,
    layer: int,
)
    requires
        v.wf(),
        v.nodes.len() < 0x1_0000_0000,
        vector.len() == v.dim,
        v.entry is Some,
        v.config.m >= 1,
        v.config.ef_construction >= 1,
        all_numbers(ar, v.metric, v.nodes, vector),
        !is_nan(v.metric.between(ar, vector, vector)),
        0 <= layer <= v.max_layer,
    ensures
        ({
            let lists = v.inserted(ar, id, vector, payload).nodes[
                v.nodes.len() as int
            ].neighbors;
            let level = lists.len() - 1;
            let vectors = vectors_of(v.nodes);
            let dist = Seq::new(
                v.nodes.len(),
                |i: int| v.metric.between(ar, vector, v.nodes[i].vector),
            );
            &&& layer < level && layer < v.max_layer ==> first_no_farther(
                ar,
                v.metric,
                vectors,
                vector,
                lists[layer],
                lists[layer + 1][0],
            )
            &&& layer == v.max_layer && layer <= level ==> first_no_farther(
                ar,
                v.metric,
                vectors,
                vector,
                lists[layer],
                v.entry->Some_0,
            )
            &&& layer == level && layer < v.max_layer ==> exists|path: Seq<(int, u32)>| #[trigger]
                path_of_descent(
                    v.nodes,
                    dist,
                    path,
                    v.max_layer as int,
                    level + 1,
                    v.entry->Some_0,
                ) && first_no_farther(
                    ar,
                    v.metric,
                    vectors,
                    vector,
                    lists[layer],
                    path.last().1,
                )
        }),
{
    let n = v.nodes.len() as int;
    let new_pos = n as u32;
    let level = level_of(ar, v.config.m, scrambled(next_state(v.rng)));
    let fresh = NodeView {
        id,
        vector,
        neighbors: Seq::new((level + 1) as nat, |i: int| seq![]),
        deleted: false,
        payload,
    };
    let grown = v.nodes.push(fresh);
    assert(grown[n] == fresh);
    let (ep, top) = lemma_insertion_start(v, ar, id, vector, payload);
    law_insertion_adds_one_node(v, ar, id, vector, payload);
    let after = v.inserted(ar, id, vector, payload);
    assert(all_numbers(ar, v.metric, grown, vector)) by {
        assert forall|i: int| #![trigger grown[i]] 0 <= i < grown.len() implies !is_nan(
            v.metric.between(ar, vector, grown[i].vector),
        ) by {
            if i < n {
                assert(grown[i] == v.nodes[i]);
            }
        }
    }
    if layer <= top {
        lemma_first_neighbors(
            ar,
            v.metric,
            v.rules(),
            grown,
            v.dim as nat,
            new_pos,
            top,
            ep,
            layer,
        );
        law_insertion_links_both_ways(v, ar, id, vector, payload, layer);
        let list = after.nodes[n].neighbors[layer];
        assert(list[0] < n);
        assert(vectors_of(grown)[list[0] as int] == vectors_of(v.nodes)[list[0] as int]);
        assert(vectors_of(grown)[ep as int] == vectors_of(v.nodes)[ep as int]);
        if layer < top {
            law_insertion_links_both_ways(v, ar, id, vector, payload, layer + 1);
            let above = after.nodes[n].neighbors[layer + 1];
            assert(above[0] < n);
            assert(vectors_of(grown)[above[0] as int] == vectors_of(v.nodes)[above[0] as int]);
        } else if layer == level && layer < v.max_layer {
            lemma_path_without_new_node(v, ar, vector, fresh, level as int);
        }
    }
}

proof fn lemma_path_without_new_node(
    v: HnswView,
    ar: Arith,
    vector: Seq<u32>,
    fresh: NodeView,
    level: int,
) -> (path: Seq<(int, u32)>)
    requires
        v.wf(),
        v.entry is Some,
        fresh.vector.len() == v.dim,
        fresh.neighbors.len() == level + 1,
        0 <= level < v.max_layer,
        graph_wf(v.nodes.push(fresh), v.dim as nat),
    ensures
        path_of_descent(
            v.nodes,
            Seq::new(v.nodes.len(), |i: int| v.metric.between(ar, vector, v.nodes[i].vector)),
            path,
            v.max_layer as int,
            level + 1,
            v.entry->Some_0,
        ),
        path.last().1 == descend(
            v.nodes.push(fresh),
            distances(ar, v.metric, v.nodes.push(fresh), vector),
            v.max_layer as int,
            level + 1,
            v.entry->Some_0,
        ),
{
    let grown = v.nodes.push(fresh);
    let n = v.nodes.len() as int;
    let far = distances(ar, v.metric, grown, vector);
    let dist = Seq::new(v.nodes.len(), |i: int| v.metric.between(ar, vector, v.nodes[i].vector));
    let entry = v.entry->Some_0;
    assert(grown[entry as int] == v.nodes[entry as int]);
    let path = lemma_descent_path(
        grown,
        v.dim as nat,
        far,
        v.max_layer as int,
        level + 1,
        entry,
    );
    assert forall|i: int| #![trigger path[i]] 0 <= i < path.len() implies path[i].1 < n
        && grown[path[i].1 as int] == v.nodes[path[i].1 as int] && dist[path[i].1 as int]
        == far[path[i].1 as int] by {
        assert(path[i].0 >= level + 1);
        if path[i].1 == n {
            assert(grown[n] == fresh);
        }
    }
    assert forall|i: int, j: int|
        #![trigger v.nodes[i].neighbors[j]]
        0 <= i < n && 0 <= j < v.nodes[i].neighbors.len() implies forall|q: int|
        0 <= q < v.nodes[i].neighbors[j].len() ==> dist[(
        #[trigger] v.nodes[i].neighbors[j][q]) as int] == far[v.nodes[i].neighbors[j][q] as int] by {
        assert forall|q: int| 0 <= q < v.nodes[i].neighbors[j].len() implies dist[(
        #[trigger] v.nodes[i].neighbors[j][q]) as int] == far[v.nodes[i].neighbors[j][q] as int] by {
            let x = v.nodes[i].neighbors[j][q] as int;
            assert(x < n);
            assert(grown[x] == v.nodes[x]);
        }
    }
    assert forall|i: int| #![trigger path[i]] 0 <= i < path.len() - 1 implies passes_on(
        v.nodes,
        dist,
        path[i],
        path[i + 1],
    ) by {
        assert(passes_on(grown, far, path[i], path[i + 1]));
        assert(path[i + 1].1 < n);
        let list = v.nodes[path[i].1 as int].neighbors[path[i].0];
        assert(list == grown[path[i].1 as int].neighbors[path[i].0]);
        assert forall|q: int| 0 <= q < list.len() implies dist[(#[trigger] list[q]) as int]
            == far[list[q] as int] by {
            assert(v.nodes[path[i].1 as int].neighbors[path[i].0][q] == list[q]);
        }
    }
    let end = path.last();
    assert(path[path.len() - 1] == end);
    assert(no_neighbor_closer(v.nodes, dist, end)) by {
        let list = v.nodes[end.1 as int].neighbors[end.0];
        assert(list == grown[end.1 as int].neighbors[end.0]);
        assert forall|q: int| 0 <= q < list.len() implies !less(
            dist[#[trigger] list[q] as int],
            dist[end.1 as int],
        ) by {
            assert(v.nodes[end.1 as int].neighbors[end.0][q] == list[q]);
        }
    }
    path
}

/// Whatever an index holds, a vector that is stored chooses among no more
/// others than its beam for insertion is wide.
pub proof fn law_link_candidates_are_bounded(
    ar: Arith,
    metric: DistanceMetric,
    rules: LinkRules,
    nodes: Seq<NodeView>,
    dim: nat,
    new_pos: u32,
    layer: int,
    ep: u32,
)
    requires
        graph_wf(nodes, dim),
        0 <= layer,
        ep < nodes.len(),
        nodes[ep as int].reaches(layer),
        rules.ef_construction >= 1,
    ensures
        1 <= link_candidates(ar, metric, rules, nodes, new_pos, layer, ep).len()
            <= rules.ef_construction,
{
    let t = open_terrain(ar, metric, nodes, layer, nodes[new_pos as int].vector);
    lemma_link_candidates(ar, metric, rules, nodes, dim, new_pos, layer, ep);
    crate::beam_laws::law_beam_is_bounded(t, ep, rules.ef_construction as int);
}

// ---------------------------------------------------------------------------
// An index that looks at every vector
// ---------------------------------------------------------------------------

/// An index that looks at every vector keeps them in the order of their
/// arrival; when one goes, the last one takes its place.
pub proof fn law_flat_order(v: FlatView, e: EntryView, at: int)
    requires
        0 <= at < v.entries.len(),
    ensures
        v.added(e).entries.len() == v.entries.len() + 1,
        v.added(e).entries[v.entries.len() as int] == e,
        forall|i: int|
            0 <= i < v.entries.len() ==> #[trigger] v.added(e).entries[i] == v.entries[i],
        v.removed_at(at).entries.len() == v.entries.len() - 1,
        forall|i: int|
            #![trigger v.removed_at(at).entries[i]]
            0 <= i < v.entries.len() - 1 && i != at ==> v.removed_at(at).entries[i] == v.entries[i],
        at < v.entries.len() - 1 ==> v.removed_at(at).entries[at] == v.entries[v.entries.len()
            - 1],
        v.added(e).dim == v.dim,
        v.added(e).metric == v.metric,
        v.removed_at(at).dim == v.dim,
        v.removed_at(at).metric == v.metric,
{
}

} // verus!
