//! What linking promises of the graph.
use crate::candidate::Candidate;
use crate::distance::DistanceMetric;
use crate::float::Arith;
use crate::graph::{graph_wf, NodeView};
use crate::hnsw::HnswView;
use crate::json::JsonView;
use crate::link::{
    all_back_linked, back_linked, layer_linked, layers_linked, lemma_all_back_linked,
    lemma_back_linked, lemma_layer_linked, lemma_link_candidates, lemma_selected, lemma_shrunk,
    link_candidates, list_limit, selected, selection, shrunk, with_list, LinkRules,
};
use crate::graph::{descend, distances, lemma_descend};
use crate::rng::{level_of, next_state, scrambled};
use vstd::prelude::*;

verus! {

/// Whether no neighbor list is longer than its layer allows: `m` entries, and
/// twice as many on layer 0.
pub open spec fn degrees_bounded(nodes: Seq<NodeView>, m: int) -> bool {
    forall|i: int, layer: int|
        #![trigger nodes[i].neighbors[layer]]
        0 <= i < nodes.len() && 0 <= layer < nodes[i].neighbors.len()
            ==> nodes[i].neighbors[layer].len() <= list_limit(m, layer)
}

proof fn lemma_degrees_with_list(
    nodes: Seq<NodeView>,
    m: int,
    node: int,
    layer: int,
    list: Seq<u32>,
)
    requires
        0 <= node < nodes.len(),
        0 <= layer < nodes[node].neighbors.len(),
        forall|i: int, l: int|
            #![trigger nodes[i].neighbors[l]]
            0 <= i < nodes.len() && 0 <= l < nodes[i].neighbors.len() && !(i == node && l == layer)
                ==> nodes[i].neighbors[l].len() <= list_limit(m, l),
        list.len() <= list_limit(m, layer),
    ensures
        degrees_bounded(with_list(nodes, node, layer, list), m),
{
    let after = with_list(nodes, node, layer, list);
    assert forall|i: int, l: int|
        #![trigger after[i].neighbors[l]]
        0 <= i < after.len() && 0 <= l
            < after[i].neighbors.len() implies after[i].neighbors[l].len() <= list_limit(m, l) by {
        if !(i == node && l == layer) {
            assert(after[i].neighbors[l] == nodes[i].neighbors[l]);
        }
    }
}

proof fn lemma_degrees_back_linked(
    ar: Arith,
    metric: DistanceMetric,
    nodes: Seq<NodeView>,
    dim: nat,
    m: int,
    node: int,
    layer: int,
    new_pos: u32,
)
    requires
        graph_wf(nodes, dim),
        m >= 0,
        degrees_bounded(nodes, m),
        0 <= node < nodes.len(),
        0 <= layer < nodes[node].neighbors.len(),
        new_pos < nodes.len(),
        nodes[new_pos as int].reaches(layer),
    ensures
        degrees_bounded(
            back_linked(ar, metric, nodes, node, layer, list_limit(m, layer), new_pos),
            m,
        ),
{
    let limit = list_limit(m, layer);
    let list = nodes[node].neighbors[layer].push(new_pos);
    let grown = with_list(nodes, node, layer, list);
    lemma_back_linked(ar, metric, nodes, dim, node, layer, limit, new_pos);
    if list.len() > limit {
        lemma_shrunk(ar, metric, grown, node, layer, limit);
        assert forall|i: int, l: int|
            #![trigger grown[i].neighbors[l]]
            0 <= i < grown.len() && 0 <= l < grown[i].neighbors.len() && !(i == node && l
                == layer) implies grown[i].neighbors[l].len() <= list_limit(m, l) by {
            assert(grown[i].neighbors[l] == nodes[i].neighbors[l]);
        }
        lemma_degrees_with_list(
            grown,
            m,
            node,
            layer,
            shrunk(ar, metric, grown, node, layer, limit),
        );
    } else {
        lemma_degrees_with_list(nodes, m, node, layer, list);
    }
}

proof fn lemma_degrees_all_back_linked(
    ar: Arith,
    metric: DistanceMetric,
    nodes: Seq<NodeView>,
    dim: nat,
    m: int,
    list: Seq<u32>,
    layer: int,
    new_pos: u32,
)
    requires
        graph_wf(nodes, dim),
        m >= 0,
        degrees_bounded(nodes, m),
        0 <= layer,
        forall|j: int|
            0 <= j < list.len() ==> (#[trigger] list[j]) < nodes.len()
                && nodes[list[j] as int].reaches(layer),
        new_pos < nodes.len(),
        nodes[new_pos as int].reaches(layer),
    ensures
        degrees_bounded(
            all_back_linked(ar, metric, nodes, list, layer, list_limit(m, layer), new_pos),
            m,
        ),
    decreases list.len(),
{
    if list.len() > 0 {
        let limit = list_limit(m, layer);
        let front = list.drop_last();
        assert forall|j: int| 0 <= j < front.len() implies (#[trigger] front[j]) < nodes.len()
            && nodes[front[j] as int].reaches(layer) by {
            assert(front[j] == list[j]);
        }
        lemma_degrees_all_back_linked(ar, metric, nodes, dim, m, front, layer, new_pos);
        lemma_all_back_linked(ar, metric, nodes, dim, front, layer, limit, new_pos);
        let mid = all_back_linked(ar, metric, nodes, front, layer, limit, new_pos);
        assert(list[list.len() - 1] == list.last());
        assert(mid[list.last() as int].neighbors.len()
            == nodes[list.last() as int].neighbors.len());
        assert(mid[new_pos as int].neighbors.len() == nodes[new_pos as int].neighbors.len());
        lemma_degrees_back_linked(
            ar,
            metric,
            mid,
            dim,
            m,
            list.last() as int,
            layer,
            new_pos,
        );
    }
}

proof fn lemma_degrees_layer_linked(
    ar: Arith,
    metric: DistanceMetric,
    rules: LinkRules,
    nodes: Seq<NodeView>,
    dim: nat,
    new_pos: u32,
    layer: int,
    ep: u32,
)
    requires
        graph_wf(nodes, dim),
        degrees_bounded(nodes, rules.m as int),
        0 <= layer,
        ep < nodes.len(),
        nodes[ep as int].reaches(layer),
        new_pos < nodes.len(),
        nodes[new_pos as int].reaches(layer),
    ensures
        degrees_bounded(
            layer_linked(ar, metric, rules, nodes, new_pos, layer, ep),
            rules.m as int,
        ),
{
    let m = rules.m as int;
    let cands = link_candidates(ar, metric, rules, nodes, new_pos, layer, ep);
    let chosen = selected(ar, metric, nodes, cands, m);
    let limit = list_limit(m, layer);
    lemma_layer_linked(ar, metric, rules, nodes, dim, new_pos, layer, ep);
    lemma_selected(ar, metric, nodes, cands, m);
    lemma_degrees_all_back_linked(ar, metric, nodes, dim, m, chosen, layer, new_pos);
    lemma_all_back_linked(ar, metric, nodes, dim, chosen, layer, limit, new_pos);
    let mid = all_back_linked(ar, metric, nodes, chosen, layer, limit, new_pos);
    assert(mid[new_pos as int].neighbors.len() == nodes[new_pos as int].neighbors.len());
    lemma_degrees_with_list(mid, m, new_pos as int, layer, chosen);
}

proof fn lemma_degrees_layers_linked(
    ar: Arith,
    metric: DistanceMetric,
    rules: LinkRules,
    nodes: Seq<NodeView>,
    dim: nat,
    new_pos: u32,
    layer: int,
    ep: u32,
)
    requires
        graph_wf(nodes, dim),
        degrees_bounded(nodes, rules.m as int),
        -1 <= layer,
        ep < nodes.len(),
        nodes[ep as int].reaches(layer),
        new_pos < nodes.len(),
        nodes[new_pos as int].reaches(layer),
    ensures
        degrees_bounded(
            layers_linked(ar, metric, rules, nodes, new_pos, layer, ep),
            rules.m as int,
        ),
    decreases layer + 1,
{
    if layer >= 0 {
        lemma_link_candidates(ar, metric, rules, nodes, dim, new_pos, layer, ep);
        lemma_layer_linked(ar, metric, rules, nodes, dim, new_pos, layer, ep);
        lemma_degrees_layer_linked(ar, metric, rules, nodes, dim, new_pos, layer, ep);
        let cands = link_candidates(ar, metric, rules, nodes, new_pos, layer, ep);
        let mid = layer_linked(ar, metric, rules, nodes, new_pos, layer, ep);
        let next = cands[0].label as u32;
        assert(mid[next as int].neighbors.len() == nodes[next as int].neighbors.len());
        assert(mid[new_pos as int].neighbors.len() == nodes[new_pos as int].neighbors.len());
        lemma_degrees_layers_linked(ar, metric, rules, mid, dim, new_pos, layer - 1, next);
    }
}

/// Storing a vector keeps the neighbor lists as short as they have to be: at
/// most `m` entries on layers from 1 up and at most twice as many on layer 0.
pub proof fn law_insertion_keeps_degrees_bounded(
    v: HnswView,
    ar: Arith,
    id: u64,
    vector: Seq<u32>,
    payload: Option<JsonView>,
)
    requires
        v.wf(),
        v.nodes.len() < 0x1_0000_0000,
        vector.len() == v.dim,
        degrees_bounded(v.nodes, v.config.m as int),
    ensures
        degrees_bounded(v.inserted(ar, id, vector, payload).nodes, v.config.m as int),
{
    let m = v.config.m as int;
    let level = level_of(ar, v.config.m, scrambled(next_state(v.rng)));
    let new_pos = v.nodes.len() as u32;
    let n = v.nodes.len() as int;
    let fresh = NodeView {
        id,
        vector,
        neighbors: Seq::new((level + 1) as nat, |i: int| seq![]),
        deleted: false,
        payload,
    };
    let grown = v.nodes.push(fresh);
    crate::hnsw::lemma_pushed_wf(v.nodes, v.dim as nat, fresh);
    assert(grown[n] == fresh);
    assert(degrees_bounded(grown, m)) by {
        assert forall|i: int, l: int|
            #![trigger grown[i].neighbors[l]]
            0 <= i < grown.len() && 0 <= l
                < grown[i].neighbors.len() implies grown[i].neighbors[l].len() <= list_limit(
            m,
            l,
        ) by {
            if i < n {
                assert(grown[i] == v.nodes[i]);
                assert(v.nodes[i].neighbors[l].len() <= list_limit(m, l));
            }
        }
    }
    match v.entry {
        None => {},
        Some(entry) => {
            let dist = distances(ar, v.metric, grown, vector);
            let ep = descend(grown, dist, v.max_layer as int, level + 1, entry);
            let top = if level < v.max_layer {
                level
            } else {
                v.max_layer
            };
            assert(grown[entry as int] == v.nodes[entry as int]);
            if level < v.max_layer {
                lemma_descend(grown, v.dim as nat, dist, v.max_layer as int, level + 1, entry);
            }
            lemma_degrees_layers_linked(
                ar,
                v.metric,
                v.rules(),
                grown,
                v.dim as nat,
                new_pos,
                top as int,
                ep,
            );
        },
    }
}

/// Marking a vector as removed keeps the neighbor lists as they are.
pub proof fn law_removal_keeps_degrees_bounded(v: HnswView, at: int)
    requires
        0 <= at < v.nodes.len(),
        degrees_bounded(v.nodes, v.config.m as int),
    ensures
        degrees_bounded(v.retired(at).nodes, v.config.m as int),
{
    let after = v.retired(at).nodes;
    assert forall|i: int, l: int|
        #![trigger after[i].neighbors[l]]
        0 <= i < after.len() && 0 <= l
            < after[i].neighbors.len() implies after[i].neighbors[l].len() <= list_limit(
        v.config.m as int,
        l,
    ) by {
        assert(after[i].neighbors[l] == v.nodes[i].neighbors[l]);
    }
}

/// The choice of neighbors uses its slots: it takes `m` of the candidates, or
/// all of them if there are no more.
pub proof fn law_selection_fills_its_slots(
    ar: Arith,
    metric: DistanceMetric,
    nodes: Seq<NodeView>,
    cands: Seq<Candidate>,
    m: int,
)
    requires
        m >= 0,
    ensures
        selected(ar, metric, nodes, cands, m).len() == if cands.len() < m {
            cands.len() as int
        } else {
            m
        },
{
    lemma_selection_counts(ar, metric, nodes, cands, m);
}

proof fn lemma_selection_counts(
    ar: Arith,
    metric: DistanceMetric,
    nodes: Seq<NodeView>,
    cands: Seq<Candidate>,
    m: int,
)
    requires
        m >= 0,
    ensures
        ({
            let s = selection(ar, metric, nodes, cands, m);
            &&& s.chosen.len() <= m
            &&& s.chosen.len() + s.pruned.len() <= cands.len()
            &&& s.chosen.len() < m ==> s.chosen.len() + s.pruned.len() == cands.len()
        }),
    decreases cands.len(),
{
    if cands.len() > 0 {
        lemma_selection_counts(ar, metric, nodes, cands.drop_last(), m);
    }
}

} // verus!
