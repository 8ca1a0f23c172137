//! What every HNSW graph keeps that was built by storing and removing.
use crate::candidate::{lemma_ranked, ranked};
use crate::connect_laws::{
    lemma_candidates_are_others, lemma_descent_avoids, lemma_other_layers, lemma_selected_distinct,
    same_but_layer, unnamed_to,
};
use crate::distance::DistanceMetric;
use crate::float::Arith;
use crate::graph::{descend, distances, graph_wf, lemma_descend, NodeView};
use crate::hnsw::{lemma_pushed_wf, HnswView};
use crate::json::JsonView;
use crate::link::{
    all_back_linked, back_linked, labels, layer_linked, layers_linked, lemma_all_back_linked,
    lemma_back_linked, lemma_layer_linked, lemma_layers_linked, lemma_link_candidates,
    lemma_selected, lemma_shrunk, link_candidates, list_limit, neighbor_candidates, same_points,
    selected, shrunk, with_list, LinkRules,
};
use crate::records::lemma_rearranged;
use crate::rng::{level_of, next_state, scrambled};
use vstd::prelude::*;

verus! {

/// Whether a neighbor list names no node twice and not its own.
pub open spec fn simple_list(list: Seq<u32>, own: int) -> bool {
    &&& list.no_duplicates()
    &&& !list.contains(own as u32)
}

/// Whether, on every layer, no neighbor list names a node twice or its own.
pub open spec fn lists_simple(nodes: Seq<NodeView>) -> bool {
    forall|i: int, layer: int|
        #![trigger nodes[i].neighbors[layer]]
        0 <= i < nodes.len() && 0 <= layer < nodes[i].neighbors.len() ==> simple_list(
            nodes[i].neighbors[layer],
            i,
        )
}

/// Whether an index that holds nodes has an entry node, which reaches up to the
/// highest layer and not beyond, and no node reaches higher.
pub open spec fn topped(v: HnswView) -> bool {
    &&& v.entry is Some <==> v.nodes.len() > 0
    &&& v.entry matches Some(e) ==> e < v.nodes.len() && v.nodes[e as int].neighbors.len()
        == v.max_layer + 1
    &&& forall|i: int|
        0 <= i < v.nodes.len() ==> (#[trigger] v.nodes[i]).neighbors.len() <= v.max_layer + 1
}

/// Whether a graph is as storing and removing leave it.
pub open spec fn tidy(v: HnswView) -> bool {
    &&& lists_simple(v.nodes)
    &&& topped(v)
}

/// A list that names no node twice is no longer than the number of nodes.
pub proof fn lemma_list_fits(list: Seq<u32>, n: nat)
    requires
        list.no_duplicates(),
        forall|j: int| 0 <= j < list.len() ==> (#[trigger] list[j]) < n,
    ensures
        list.len() <= n,
{
    let places = list.map_values(|x: u32| x as int);
    assert(places.no_duplicates()) by {
        assert forall|i: int, j: int|
            0 <= i < places.len() && 0 <= j < places.len() && i != j implies places[i]
            != places[j] by {
            assert(list[i] != list[j]);
        }
    }
    places.unique_seq_to_set();
    let all = vstd::set_lib::set_int_range(0, n as int);
    vstd::set_lib::lemma_int_range(0, n as int);
    assert(places.to_set().subset_of(all)) by {
        assert forall|x: int| places.to_set().contains(x) implies all.contains(x) by {
            let j = choose|j: int| 0 <= j < places.len() && places[j] == x;
            assert(list[j] < n);
        }
    }
    vstd::set_lib::lemma_len_subset(places.to_set(), all);
}

proof fn lemma_simple_with_list(nodes: Seq<NodeView>, node: int, layer: int, list: Seq<u32>)
    requires
        0 <= node < nodes.len(),
        0 <= layer < nodes[node].neighbors.len(),
        forall|i: int, l: int|
            #![trigger nodes[i].neighbors[l]]
            0 <= i < nodes.len() && 0 <= l < nodes[i].neighbors.len() && !(i == node && l == layer)
                ==> simple_list(nodes[i].neighbors[l], i),
        simple_list(list, node),
    ensures
        lists_simple(with_list(nodes, node, layer, list)),
{
    let after = with_list(nodes, node, layer, list);
    assert forall|i: int, l: int|
        #![trigger after[i].neighbors[l]]
        0 <= i < after.len() && 0 <= l < after[i].neighbors.len() implies simple_list(
        after[i].neighbors[l],
        i,
    ) by {
        if !(i == node && l == layer) {
            assert(after[i].neighbors[l] == nodes[i].neighbors[l]);
        }
    }
}

/// A list that is chosen anew from a simple one is simple.
proof fn lemma_simple_shrunk(
    ar: Arith,
    metric: DistanceMetric,
    nodes: Seq<NodeView>,
    node: int,
    layer: int,
    m_max: int,
)
    requires
        m_max >= 0,
        0 <= node < nodes.len(),
        0 <= layer < nodes[node].neighbors.len(),
        simple_list(nodes[node].neighbors[layer], node),
    ensures
        simple_list(shrunk(ar, metric, nodes, node, layer, m_max), node),
{
    let list = nodes[node].neighbors[layer];
    let raw = neighbor_candidates(ar, metric, nodes, node, list);
    let cands = ranked(raw);
    let out = shrunk(ar, metric, nodes, node, layer, m_max);
    lemma_ranked(raw);
    lemma_shrunk(ar, metric, nodes, node, layer, m_max);
    assert(raw.no_duplicates()) by {
        assert forall|i: int, j: int|
            0 <= i < raw.len() && 0 <= j < raw.len() && i != j implies raw[i] != raw[j] by {
            assert(list[i] != list[j]);
        }
    }
    lemma_rearranged(raw, cands);
    assert(labels(cands).no_duplicates()) by {
        assert forall|i: int, j: int|
            0 <= i < cands.len() && 0 <= j < cands.len() && i != j implies labels(cands)[i]
            != labels(cands)[j] by {
            assert(cands.contains(cands[i]) && cands.contains(cands[j]));
            assert(raw.contains(cands[i]) && raw.contains(cands[j]));
            let p = choose|p: int| 0 <= p < raw.len() && raw[p] == cands[i];
            let q = choose|q: int| 0 <= q < raw.len() && raw[q] == cands[j];
            assert(cands[i].label == list[p] as u64 && cands[j].label == list[q] as u64);
            if labels(cands)[i] == labels(cands)[j] {
                assert(list[p] == list[q]);
                assert(p == q);
                assert(cands[i] == cands[j]);
            }
        }
    }
    lemma_selected_distinct(ar, metric, nodes, cands, m_max);
    if out.contains(node as u32) {
        let j = choose|j: int| 0 <= j < out.len() && out[j] == node as u32;
        assert(list.contains(out[j]));
    }
}

proof fn lemma_simple_back_linked(
    ar: Arith,
    metric: DistanceMetric,
    nodes: Seq<NodeView>,
    dim: nat,
    node: int,
    layer: int,
    m_max: int,
    new_pos: u32,
)
    requires
        graph_wf(nodes, dim),
        m_max >= 0,
        lists_simple(nodes),
        0 <= node < nodes.len(),
        0 <= layer < nodes[node].neighbors.len(),
        new_pos < nodes.len(),
        node != new_pos,
        nodes[new_pos as int].reaches(layer),
        !nodes[node].neighbors[layer].contains(new_pos),
    ensures
        lists_simple(back_linked(ar, metric, nodes, node, layer, m_max, new_pos)),
        forall|i: int|
            #![trigger back_linked(ar, metric, nodes, node, layer, m_max, new_pos)[i]]
            0 <= i < nodes.len() && i != node ==> back_linked(
                ar,
                metric,
                nodes,
                node,
                layer,
                m_max,
                new_pos,
            )[i] == nodes[i],
{
    let was = nodes[node].neighbors[layer];
    let list = was.push(new_pos);
    let grown = with_list(nodes, node, layer, list);
    assert(simple_list(was, node));
    assert(simple_list(list, node)) by {
        assert forall|i: int, j: int|
            0 <= i < list.len() && 0 <= j < list.len() && i != j implies list[i] != list[j] by {
            if i < was.len() && j < was.len() {
                assert(was[i] != was[j]);
            } else if i < was.len() {
                assert(was.contains(was[i]));
            } else {
                assert(was.contains(was[j]));
            }
        }
        if list.contains(node as u32) {
            let j = choose|j: int| 0 <= j < list.len() && list[j] == node as u32;
            if j < was.len() {
                assert(was[j] == node as u32);
            }
        }
    }
    lemma_back_linked(ar, metric, nodes, dim, node, layer, m_max, new_pos);
    lemma_simple_with_list(nodes, node, layer, list);
    if list.len() > m_max {
        lemma_simple_shrunk(ar, metric, grown, node, layer, m_max);
        lemma_simple_with_list(
            grown,
            node,
            layer,
            shrunk(ar, metric, grown, node, layer, m_max),
        );
    }
}

proof fn lemma_simple_all_back_linked(
    ar: Arith,
    metric: DistanceMetric,
    nodes: Seq<NodeView>,
    dim: nat,
    list: Seq<u32>,
    layer: int,
    m_max: int,
    new_pos: u32,
)
    requires
        graph_wf(nodes, dim),
        m_max >= 0,
        lists_simple(nodes),
        0 <= layer,
        simple_list(list, new_pos as int),
        forall|j: int|
            0 <= j < list.len() ==> (#[trigger] list[j]) < nodes.len()
                && nodes[list[j] as int].reaches(layer),
        new_pos < nodes.len(),
        nodes[new_pos as int].reaches(layer),
        unnamed_to(nodes, new_pos, layer),
    ensures
        lists_simple(all_back_linked(ar, metric, nodes, list, layer, m_max, new_pos)),
        forall|i: int|
            #![trigger all_back_linked(ar, metric, nodes, list, layer, m_max, new_pos)[i]]
            0 <= i < nodes.len() && !list.contains(i as u32) ==> all_back_linked(
                ar,
                metric,
                nodes,
                list,
                layer,
                m_max,
                new_pos,
            )[i] == nodes[i],
    decreases list.len(),
{
    if list.len() > 0 {
        let front = list.drop_last();
        let last = list.last() as int;
        assert(list[list.len() - 1] == list.last());
        assert forall|j: int| 0 <= j < front.len() implies (#[trigger] front[j]) < nodes.len()
            && nodes[front[j] as int].reaches(layer) by {
            assert(front[j] == list[j]);
        }
        assert(simple_list(front, new_pos as int)) by {
            assert forall|i: int, j: int|
                0 <= i < front.len() && 0 <= j < front.len() && i != j implies front[i]
                != front[j] by {
                assert(list[i] != list[j]);
            }
            if front.contains(new_pos) {
                let j = choose|j: int| 0 <= j < front.len() && front[j] == new_pos;
                assert(list[j] == new_pos);
            }
        }
        assert(!front.contains(last as u32)) by {
            if front.contains(last as u32) {
                let j = choose|j: int| 0 <= j < front.len() && front[j] == last as u32;
                assert(list[j] == list[list.len() - 1]);
            }
        }
        lemma_simple_all_back_linked(ar, metric, nodes, dim, front, layer, m_max, new_pos);
        lemma_all_back_linked(ar, metric, nodes, dim, front, layer, m_max, new_pos);
        let mid = all_back_linked(ar, metric, nodes, front, layer, m_max, new_pos);
        assert(mid[last] == nodes[last]);
        assert(mid[new_pos as int].neighbors.len() == nodes[new_pos as int].neighbors.len());
        assert(last != new_pos) by {
            if last == new_pos {
                assert(list.contains(new_pos));
            }
        }
        assert(!mid[last].neighbors[layer].contains(new_pos)) by {
            let l = nodes[last].neighbors[layer];
            if l.contains(new_pos) {
                let j = choose|j: int| 0 <= j < l.len() && l[j] == new_pos;
                assert(nodes[last].neighbors[layer][j] == new_pos);
            }
        }
        lemma_simple_back_linked(ar, metric, mid, dim, last, layer, m_max, new_pos);
        let after = all_back_linked(ar, metric, nodes, list, layer, m_max, new_pos);
        assert forall|i: int|
            #![trigger after[i]]
            0 <= i < nodes.len() && !list.contains(i as u32) implies after[i] == nodes[i] by {
            if front.contains(i as u32) {
                let j = choose|j: int| 0 <= j < front.len() && front[j] == i as u32;
                assert(list[j] == i as u32);
            }
            assert(list.contains(list[list.len() - 1]));
            assert(i != last);
            assert(after[i] == mid[i]);
        }
    }
}

proof fn lemma_simple_layer_linked(
    ar: Arith,
    metric: DistanceMetric,
    rules: LinkRules,
    nodes: Seq<NodeView>,
    dim: nat,
    new_pos: u32,
    layer: int,
    ep: u32,
)
    requires
        graph_wf(nodes, dim),
        lists_simple(nodes),
        0 <= layer,
        ep < nodes.len(),
        ep != new_pos,
        nodes[ep as int].reaches(layer),
        new_pos < nodes.len(),
        nodes[new_pos as int].reaches(layer),
        unnamed_to(nodes, new_pos, layer),
    ensures
        lists_simple(layer_linked(ar, metric, rules, nodes, new_pos, layer, ep)),
{
    let m = rules.m as int;
    let cands = link_candidates(ar, metric, rules, nodes, new_pos, layer, ep);
    let chosen = selected(ar, metric, nodes, cands, m);
    let limit = list_limit(m, layer);
    lemma_link_candidates(ar, metric, rules, nodes, dim, new_pos, layer, ep);
    lemma_candidates_are_others(ar, metric, rules, nodes, dim, new_pos, layer, ep);
    lemma_layer_linked(ar, metric, rules, nodes, dim, new_pos, layer, ep);
    lemma_selected(ar, metric, nodes, cands, m);
    assert(labels(cands).no_duplicates()) by {
        assert forall|i: int, j: int|
            0 <= i < cands.len() && 0 <= j < cands.len() && i != j implies labels(cands)[i]
            != labels(cands)[j] by {
            if labels(cands)[i] == labels(cands)[j] {
                assert(cands[i].label == cands[j].label);
                assert(cands[i].distance == cands[j].distance);
                assert(cands[i] == cands[j]);
            }
        }
    }
    lemma_selected_distinct(ar, metric, nodes, cands, m);
    assert(simple_list(chosen, new_pos as int)) by {
        if chosen.contains(new_pos) {
            let j = choose|j: int| 0 <= j < chosen.len() && chosen[j] == new_pos;
            assert(labels(cands).contains(chosen[j]));
            let p = choose|p: int| 0 <= p < labels(cands).len() && labels(cands)[p] == new_pos;
            assert(cands[p].label < nodes.len());
            assert(cands[p].label == new_pos);
        }
    }
    lemma_simple_all_back_linked(ar, metric, nodes, dim, chosen, layer, limit, new_pos);
    lemma_all_back_linked(ar, metric, nodes, dim, chosen, layer, limit, new_pos);
    let mid = all_back_linked(ar, metric, nodes, chosen, layer, limit, new_pos);
    assert(mid[new_pos as int].neighbors.len() == nodes[new_pos as int].neighbors.len());
    lemma_simple_with_list(mid, new_pos as int, layer, chosen);
}

proof fn lemma_simple_layers_linked(
    ar: Arith,
    metric: DistanceMetric,
    rules: LinkRules,
    nodes: Seq<NodeView>,
    dim: nat,
    new_pos: u32,
    layer: int,
    ep: u32,
)
    requires
        graph_wf(nodes, dim),
        lists_simple(nodes),
        -1 <= layer,
        ep < nodes.len(),
        ep != new_pos,
        nodes[ep as int].reaches(layer),
        new_pos < nodes.len(),
        nodes[new_pos as int].reaches(layer),
        unnamed_to(nodes, new_pos, layer),
    ensures
        lists_simple(layers_linked(ar, metric, rules, nodes, new_pos, layer, ep)),
    decreases layer + 1,
{
    if layer >= 0 {
        lemma_link_candidates(ar, metric, rules, nodes, dim, new_pos, layer, ep);
        lemma_candidates_are_others(ar, metric, rules, nodes, dim, new_pos, layer, ep);
        lemma_layer_linked(ar, metric, rules, nodes, dim, new_pos, layer, ep);
        lemma_other_layers(ar, metric, rules, nodes, dim, new_pos, layer, ep);
        lemma_simple_layer_linked(ar, metric, rules, nodes, dim, new_pos, layer, ep);
        let cands = link_candidates(ar, metric, rules, nodes, new_pos, layer, ep);
        let mid = layer_linked(ar, metric, rules, nodes, new_pos, layer, ep);
        let next = cands[0].label as u32;
        assert(same_but_layer(nodes, mid, layer));
        assert(unnamed_to(mid, new_pos, layer - 1)) by {
            assert forall|i: int, l: int, j: int|
                #![trigger mid[i].neighbors[l][j]]
                0 <= i < mid.len() && 0 <= l < mid[i].neighbors.len() && l <= layer - 1 && 0 <= j
                    < mid[i].neighbors[l].len() implies mid[i].neighbors[l][j] != new_pos by {
                assert(mid[i].neighbors.len() == nodes[i].neighbors.len());
                assert(mid[i].neighbors[l] == nodes[i].neighbors[l]);
                assert(nodes[i].neighbors[l][j] != new_pos);
            }
        }
        assert(mid[next as int].neighbors.len() == nodes[next as int].neighbors.len());
        assert(mid[new_pos as int].neighbors.len() == nodes[new_pos as int].neighbors.len());
        lemma_simple_layers_linked(ar, metric, rules, mid, dim, new_pos, layer - 1, next);
    }
}

/// An index that holds nothing has a tidy graph.
pub proof fn law_empty_index_is_tidy(v: HnswView)
    requires
        v.nodes.len() == 0,
        v.entry is None,
    ensures
        tidy(v),
{
}

/// Storing a vector keeps the graph tidy: on every layer lists name no node
/// twice and not their own, the entry node reaches the highest layer exactly,
/// and no node reaches higher.
pub proof fn law_insertion_keeps_tidy(
    v: HnswView,
    ar: Arith,
    id: u64,
    vector: Seq<u32>,
    payload: Option<JsonView>,
)
    requires
        v.wf(),
        v.nodes.len() < 0x1_0000_0000,
        vector.len() == v.dim,
        tidy(v),
    ensures
        tidy(v.inserted(ar, id, vector, payload)),
{
    let level = level_of(ar, v.config.m, scrambled(next_state(v.rng)));
    let new_pos = v.nodes.len() as u32;
    let n = v.nodes.len() as int;
    let fresh = NodeView {
        id,
        vector,
        neighbors: Seq::new((level + 1) as nat, |i: int| seq![]),
        deleted: false,
        payload,
    };
    let grown = v.nodes.push(fresh);
    lemma_pushed_wf(v.nodes, v.dim as nat, fresh);
    assert(grown[n] == fresh);
    assert(lists_simple(grown)) by {
        assert forall|i: int, l: int|
            #![trigger grown[i].neighbors[l]]
            0 <= i < grown.len() && 0 <= l < grown[i].neighbors.len() implies simple_list(
            grown[i].neighbors[l],
            i,
        ) by {
            if i < n {
                assert(grown[i] == v.nodes[i]);
                assert(simple_list(v.nodes[i].neighbors[l], i));
            }
        }
    }
    let after = v.inserted(ar, id, vector, payload);
    match v.entry {
        None => {},
        Some(entry) => {
            let dist = distances(ar, v.metric, grown, vector);
            let ep = descend(grown, dist, v.max_layer as int, level + 1, entry);
            let top = if level < v.max_layer {
                level
            } else {
                v.max_layer
            };
            assert(grown[entry as int] == v.nodes[entry as int]);
            assert forall|i: int, l: int, j: int|
                #![trigger grown[i].neighbors[l][j]]
                0 <= i < grown.len() && 0 <= l < grown[i].neighbors.len() && 0 <= j
                    < grown[i].neighbors[l].len() implies grown[i].neighbors[l][j] != new_pos by {
                assert(i < n);
                assert(v.nodes[i].neighbors[l][j] < n);
            }
            if level < v.max_layer {
                lemma_descend(grown, v.dim as nat, dist, v.max_layer as int, level + 1, entry);
                lemma_descent_avoids(
                    grown,
                    v.dim as nat,
                    dist,
                    v.max_layer as int,
                    level + 1,
                    entry,
                    new_pos,
                );
            }
            lemma_simple_layers_linked(
                ar,
                v.metric,
                v.rules(),
                grown,
                v.dim as nat,
                new_pos,
                top as int,
                ep,
            );
            lemma_layers_linked(
                ar,
                v.metric,
                v.rules(),
                grown,
                v.dim as nat,
                new_pos,
                top as int,
                ep,
            );
            assert(same_points(grown, after.nodes));
            assert forall|i: int| 0 <= i < after.nodes.len() implies (
            #[trigger] after.nodes[i]).neighbors.len() <= after.max_layer + 1 by {
                assert(after.nodes[i].neighbors.len() == grown[i].neighbors.len());
                if i < n {
                    assert(grown[i] == v.nodes[i]);
                }
            }
            assert(after.nodes[entry as int].neighbors.len()
                == grown[entry as int].neighbors.len());
            assert(after.nodes[n].neighbors.len() == grown[n].neighbors.len());
        },
    }
}

/// Marking a vector as removed keeps the graph tidy.
pub proof fn law_removal_keeps_tidy(v: HnswView, at: int)
    requires
        0 <= at < v.nodes.len(),
        tidy(v),
    ensures
        tidy(v.retired(at)),
{
    let after = v.retired(at).nodes;
    assert forall|i: int, l: int|
        #![trigger after[i].neighbors[l]]
        0 <= i < after.len() && 0 <= l < after[i].neighbors.len() implies simple_list(
        after[i].neighbors[l],
        i,
    ) by {
        assert(after[i].neighbors[l] == v.nodes[i].neighbors[l]);
    }
    assert forall|i: int| 0 <= i < after.len() implies (#[trigger] after[i]).neighbors.len()
        <= v.max_layer + 1 by {
        assert(after[i].neighbors == v.nodes[i].neighbors);
    }
}

} // verus!
