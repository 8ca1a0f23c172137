//! A small graph is connected, so that searches of it are exact.
use crate::beam::{
    advanced, beam_run, beam_search, beam_start, beam_wf, lemma_beam_start, lemma_beam_turn,
    lemma_visit_all, seen, settled, steps_left, visit, visit_all, Beam, Terrain,
};
use crate::beam_laws::closed_under_links;
use crate::candidate::Candidate;
use crate::distance::DistanceMetric;
use crate::float::Arith;
use crate::graph::{descend, distances, graph_wf, lemma_descend, NodeView};
use crate::hnsw::{lemma_pushed_wf, HnswView};
use crate::hnsw_laws::{
    agrees, all_within_reach, law_wide_beam_is_exact, ties_agree, wanted, within_reach,
};
use crate::json::JsonView;
use crate::link::{
    all_back_linked, labels, layer_linked, layers_linked, lemma_all_back_linked, lemma_layer_linked,
    lemma_link_candidates, lemma_selected, lemma_selection, link_candidates, list_limit,
    open_terrain, same_points, selected, selection, with_list, LinkRules,
};
use crate::link_laws::law_selection_fills_its_slots;
use crate::payload::FilterView;
use crate::records::{exact_hits, matches_of};
use crate::rng::{level_of, next_state, scrambled};
use vstd::prelude::*;

verus! {

/// The neighbor lists of layer 0.
pub open spec fn ground_links(nodes: Seq<NodeView>) -> Seq<Seq<u32>> {
    Seq::new(nodes.len(), |i: int| nodes[i].neighbors[0])
}

/// Whether a set of nodes holds, with each of its nodes, all neighbors.
pub open spec fn link_closed(links: Seq<Seq<u32>>, set: Seq<bool>) -> bool {
    &&& set.len() == links.len()
    &&& forall|i: int, j: int|
        #![trigger links[i][j]]
        0 <= i < links.len() && set[i] && 0 <= j < links[i].len() ==> set[links[i][j] as int]
}

/// Whether a walk can get from every node to every other.
pub open spec fn joined_up(links: Seq<Seq<u32>>) -> bool {
    forall|set: Seq<bool>, i: int, j: int|
        #![trigger link_closed(links, set), set[i], set[j]]
        link_closed(links, set) && 0 <= i < links.len() && 0 <= j < links.len() && set[i] ==> set[j]
}

/// Whether no list names a node twice or its own node.
pub open spec fn simple_lists(links: Seq<Seq<u32>>) -> bool {
    forall|i: int|
        #![trigger links[i]]
        0 <= i < links.len() ==> {
            &&& links[i].no_duplicates()
            &&& !links[i].contains(i as u32)
            &&& forall|j: int| 0 <= j < links[i].len() ==> (#[trigger] links[i][j]) < links.len()
        }
}

/// A list of nodes other than one that names none twice is shorter than their
/// number.
pub(crate) proof fn lemma_short_list(list: Seq<u32>, n: int, own: int)
    requires
        0 <= own < n <= 0x1_0000_0000,
        list.no_duplicates(),
        !list.contains(own as u32),
        forall|j: int| 0 <= j < list.len() ==> (#[trigger] list[j]) < n,
    ensures
        list.len() < n,
{
    let wide = list.map_values(|x: u32| x as int);
    assert(wide.no_duplicates()) by {
        assert forall|i: int, j: int|
            0 <= i < wide.len() && 0 <= j < wide.len() && i != j implies wide[i] != wide[j] by {
            assert(list[i] != list[j]);
        }
    }
    wide.unique_seq_to_set();
    vstd::set_lib::lemma_int_range(0, n);
    let others = vstd::set_lib::set_int_range(0, n).remove(own);
    assert(wide.to_set().subset_of(others)) by {
        assert forall|x: int| wide.to_set().contains(x) implies others.contains(x) by {
            let j = choose|j: int| 0 <= j < wide.len() && wide[j] == x;
            assert(list[j] < n);
            if x == own {
                assert(list[j] == own as u32);
            }
        }
    }
    vstd::set_lib::lemma_len_subset(wide.to_set(), others);
}

// ---------------------------------------------------------------------------
// Where a beam can get to
// ---------------------------------------------------------------------------

spec fn inside(b: Beam, set: Seq<bool>) -> bool {
    forall|i: int| 0 <= i < set.len() && #[trigger] b.visited[i] ==> set[i]
}

proof fn lemma_inside_visits(t: Terrain, b: Beam, ef: int, list: Seq<u32>, set: Seq<bool>)
    requires
        t.wf(),
        beam_wf(t, b),
        set.len() == t.size(),
        inside(b, set),
        forall|j: int| #![trigger list[j]] 0 <= j < list.len() ==> t.holds(list[j]),
        forall|j: int| #![trigger list[j]] 0 <= j < list.len() ==> set[list[j] as int],
    ensures
        inside(visit_all(t, b, ef, list), set),
    decreases list.len(),
{
    if list.len() > 0 {
        let front = list.drop_last();
        assert forall|j: int| #![trigger front[j]] 0 <= j < front.len() implies t.holds(front[j])
            && set[front[j] as int] by {
            assert(list[j] == front[j]);
        }
        lemma_inside_visits(t, b, ef, front, set);
        lemma_visit_all(t, b, ef, front);
        assert(list[list.len() - 1] == list.last());
        let mid = visit_all(t, b, ef, front);
        let after = visit(t, mid, ef, list.last());
        assert forall|i: int| 0 <= i < set.len() && #[trigger] after.visited[i] implies set[i] by {
            if i != list.last() {
                assert(mid.visited[i]);
            }
        }
    }
}

/// A beam stays in every set of nodes that holds its start and, with each
/// node, all neighbors.
proof fn lemma_inside_run(t: Terrain, b: Beam, ef: int, set: Seq<bool>)
    requires
        t.wf(),
        beam_wf(t, b),
        closed_under_links(t, set),
        inside(b, set),
    ensures
        inside(beam_run(t, b, ef), set),
    decreases steps_left(b),
{
    if b.frontier.len() > 0 {
        lemma_beam_turn(t, b, ef);
        let c = b.frontier[0];
        if !settled(b, ef, c) {
            let list = t.links[c.label as int];
            assert(b.visited[c.label as int]);
            assert(set[c.label as int]);
            assert forall|j: int| #![trigger list[j]] 0 <= j < list.len() implies set[list[j] as int] by {
                assert(t.links[c.label as int][j] == list[j]);
            }
            let start = advanced(b);
            assert(inside(start, set)) by {
                assert forall|i: int| 0 <= i < set.len() && #[trigger] start.visited[i] implies set[i] by {
                    assert(b.visited[i]);
                }
            }
            lemma_inside_visits(t, start, ef, list, set);
            lemma_inside_run(t, visit_all(t, start, ef, list), ef, set);
        }
    }
}

/// Whether no list of a layer, or of one below, names a node.
pub open(crate) spec fn unnamed_to(nodes: Seq<NodeView>, node: u32, layer: int) -> bool {
    forall|i: int, l: int, j: int|
        #![trigger nodes[i].neighbors[l][j]]
        0 <= i < nodes.len() && 0 <= l < nodes[i].neighbors.len() && l <= layer && 0 <= j
            < nodes[i].neighbors[l].len() ==> nodes[i].neighbors[l][j] != node
}

/// The candidates for linking a node that no list names do not hold the node.
pub(crate) proof fn lemma_candidates_are_others(
    ar: Arith,
    metric: DistanceMetric,
    rules: LinkRules,
    nodes: Seq<NodeView>,
    dim: nat,
    new_pos: u32,
    layer: int,
    ep: u32,
)
    requires
        graph_wf(nodes, dim),
        0 <= layer,
        ep < nodes.len(),
        nodes[ep as int].reaches(layer),
        ep != new_pos,
        new_pos < nodes.len(),
        unnamed_to(nodes, new_pos, layer),
    ensures
        ({
            let cands = link_candidates(ar, metric, rules, nodes, new_pos, layer, ep);
            forall|i: int| 0 <= i < cands.len() ==> (#[trigger] cands[i]).label != new_pos
        }),
{
    let t = open_terrain(ar, metric, nodes, layer, nodes[new_pos as int].vector);
    let ef = rules.ef_construction as int;
    let cands = link_candidates(ar, metric, rules, nodes, new_pos, layer, ep);
    let end = beam_search(t, ep, ef);
    lemma_link_candidates(ar, metric, rules, nodes, dim, new_pos, layer, ep);
    lemma_beam_start(t, ep);
    let others = Seq::new(t.size(), |i: int| i != new_pos);
    assert(closed_under_links(t, others)) by {
        assert forall|i: int, j: int|
            #![trigger t.links[i][j]]
            0 <= i < t.size() && others[i] && 0 <= j
                < t.links[i].len() implies others[t.links[i][j] as int] by {
            assert(nodes[i].neighbors[layer][j] == t.links[i][j]);
        }
    }
    lemma_inside_run(t, beam_start(t, ep), ef, others);
    assert forall|i: int| 0 <= i < cands.len() implies (#[trigger] cands[i]).label != new_pos by {
        assert(end.best.contains(cands[i]));
        assert(seen(t, end.visited, cands[i]));
        assert(others[cands[i].label as int]);
    }
}

// ---------------------------------------------------------------------------
// What linking leaves alone
// ---------------------------------------------------------------------------

/// Whether two graphs agree on every list but those of one layer.
pub open(crate) spec fn same_but_layer(a: Seq<NodeView>, b: Seq<NodeView>, layer: int) -> bool {
    &&& same_points(a, b)
    &&& forall|i: int, l: int|
        #![trigger b[i].neighbors[l]]
        0 <= i < a.len() && 0 <= l < a[i].neighbors.len() && l != layer ==> b[i].neighbors[l]
            == a[i].neighbors[l]
}

proof fn lemma_other_layers_back(
    ar: Arith,
    metric: DistanceMetric,
    nodes: Seq<NodeView>,
    dim: nat,
    list: Seq<u32>,
    layer: int,
    m_max: int,
    new_pos: u32,
)
    requires
        graph_wf(nodes, dim),
        m_max >= 0,
        0 <= layer,
        forall|j: int|
            0 <= j < list.len() ==> (#[trigger] list[j]) < nodes.len()
                && nodes[list[j] as int].reaches(layer),
        new_pos < nodes.len(),
        nodes[new_pos as int].reaches(layer),
    ensures
        same_but_layer(
            nodes,
            all_back_linked(ar, metric, nodes, list, layer, m_max, new_pos),
            layer,
        ),
    decreases list.len(),
{
    if list.len() > 0 {
        let front = list.drop_last();
        assert forall|j: int| 0 <= j < front.len() implies (#[trigger] front[j]) < nodes.len()
            && nodes[front[j] as int].reaches(layer) by {
            assert(front[j] == list[j]);
        }
        lemma_other_layers_back(ar, metric, nodes, dim, front, layer, m_max, new_pos);
        lemma_all_back_linked(ar, metric, nodes, dim, front, layer, m_max, new_pos);
        lemma_all_back_linked(ar, metric, nodes, dim, list, layer, m_max, new_pos);
        let mid = all_back_linked(ar, metric, nodes, front, layer, m_max, new_pos);
        let last = list.last() as int;
        assert(list[list.len() - 1] == list.last());
        assert(mid[last].neighbors.len() == nodes[last].neighbors.len());
        let after = all_back_linked(ar, metric, nodes, list, layer, m_max, new_pos);
        assert forall|i: int, l: int|
            #![trigger after[i].neighbors[l]]
            0 <= i < nodes.len() && 0 <= l < nodes[i].neighbors.len() && l
                != layer implies after[i].neighbors[l] == nodes[i].neighbors[l] by {
            assert(mid[i].neighbors[l] == nodes[i].neighbors[l]);
            assert(mid[i].neighbors.len() == nodes[i].neighbors.len());
        }
    }
}

pub(crate) proof fn lemma_other_layers(
    ar: Arith,
    metric: DistanceMetric,
    rules: LinkRules,
    nodes: Seq<NodeView>,
    dim: nat,
    new_pos: u32,
    layer: int,
    ep: u32,
)
    requires
        graph_wf(nodes, dim),
        0 <= layer,
        ep < nodes.len(),
        nodes[ep as int].reaches(layer),
        new_pos < nodes.len(),
        nodes[new_pos as int].reaches(layer),
    ensures
        same_but_layer(
            nodes,
            layer_linked(ar, metric, rules, nodes, new_pos, layer, ep),
            layer,
        ),
{
    let cands = link_candidates(ar, metric, rules, nodes, new_pos, layer, ep);
    let chosen = selected(ar, metric, nodes, cands, rules.m as int);
    let limit = list_limit(rules.m as int, layer);
    lemma_layer_linked(ar, metric, rules, nodes, dim, new_pos, layer, ep);
    lemma_other_layers_back(ar, metric, nodes, dim, chosen, layer, limit, new_pos);
    let mid = all_back_linked(ar, metric, nodes, chosen, layer, limit, new_pos);
    let after = layer_linked(ar, metric, rules, nodes, new_pos, layer, ep);
    assert forall|i: int, l: int|
        #![trigger after[i].neighbors[l]]
        0 <= i < nodes.len() && 0 <= l < nodes[i].neighbors.len() && l
            != layer implies after[i].neighbors[l] == nodes[i].neighbors[l] by {
        assert(mid[i].neighbors[l] == nodes[i].neighbors[l]);
    }
}

// ---------------------------------------------------------------------------
// Layer 0
// ---------------------------------------------------------------------------

proof fn lemma_selection_distinct(
    ar: Arith,
    metric: DistanceMetric,
    nodes: Seq<NodeView>,
    cands: Seq<Candidate>,
    m: int,
)
    requires
        m >= 0,
        labels(cands).no_duplicates(),
    ensures
        ({
            let s = selection(ar, metric, nodes, cands, m);
            let all = labels(s.chosen) + s.pruned;
            &&& all.no_duplicates()
            &&& forall|i: int| 0 <= i < all.len() ==> labels(cands).contains(#[trigger] all[i])
        }),
    decreases cands.len(),
{
    if cands.len() > 0 {
        let front = cands.drop_last();
        let last = cands.last().label as u32;
        assert(labels(front) =~= labels(cands).drop_last());
        assert(labels(cands)[cands.len() - 1] == last);
        lemma_selection_distinct(ar, metric, nodes, front, m);
        let before = selection(ar, metric, nodes, front, m);
        let after = selection(ar, metric, nodes, cands, m);
        let was = labels(before.chosen) + before.pruned;
        let now = labels(after.chosen) + after.pruned;
        assert forall|i: int| 0 <= i < was.len() implies labels(cands).contains(#[trigger] was[i])
            && was[i] != last by {
            assert(labels(front).contains(was[i]));
            let j = choose|j: int| 0 <= j < labels(front).len() && labels(front)[j] == was[i];
            assert(labels(cands)[j] == was[i]);
        }
        if after.chosen.len() > before.chosen.len() {
            let p = before.chosen.len() as int;
            assert(labels(after.chosen) =~= labels(before.chosen).push(last));
            assert forall|i: int, j: int|
                0 <= i < now.len() && 0 <= j < now.len() && i != j implies now[i] != now[j] by {
                if i == p {
                    assert(now[j] == was[if j < p {
                        j
                    } else {
                        j - 1
                    }]);
                } else if j == p {
                    assert(now[i] == was[if i < p {
                        i
                    } else {
                        i - 1
                    }]);
                } else {
                    assert(now[i] == was[if i < p {
                        i
                    } else {
                        i - 1
                    }]);
                    assert(now[j] == was[if j < p {
                        j
                    } else {
                        j - 1
                    }]);
                }
            }
            assert forall|i: int| 0 <= i < now.len() implies labels(cands).contains(
                #[trigger] now[i],
            ) by {
                if i == p {
                } else {
                    assert(now[i] == was[if i < p {
                        i
                    } else {
                        i - 1
                    }]);
                }
            }
        } else if after.pruned.len() > before.pruned.len() {
            assert(now =~= was.push(last));
            assert forall|i: int, j: int|
                0 <= i < now.len() && 0 <= j < now.len() && i != j implies now[i] != now[j] by {
                if i < was.len() {
                    assert(now[i] == was[i]);
                }
                if j < was.len() {
                    assert(now[j] == was[j]);
                }
            }
        }
    }
}

/// The neighbors chosen among distinct candidates are distinct.
pub(crate) proof fn lemma_selected_distinct(
    ar: Arith,
    metric: DistanceMetric,
    nodes: Seq<NodeView>,
    cands: Seq<Candidate>,
    m: int,
)
    requires
        m >= 0,
        labels(cands).no_duplicates(),
    ensures
        selected(ar, metric, nodes, cands, m).no_duplicates(),
{
    lemma_selection_distinct(ar, metric, nodes, cands, m);
    lemma_selection(ar, metric, nodes, cands, m);
    let s = selection(ar, metric, nodes, cands, m);
    let all = labels(s.chosen) + s.pruned;
    let out = selected(ar, metric, nodes, cands, m);
    assert forall|i: int, j: int| 0 <= i < out.len() && 0 <= j < out.len() && i != j implies out[i]
        != out[j] by {
        assert(out[i] == all[i] && out[j] == all[j]);
    }
}

/// Linking back on layer 0, where there is room in the lists: each node of the
/// list gets the new node at the end of its own list.
proof fn lemma_ground_back(
    ar: Arith,
    metric: DistanceMetric,
    nodes: Seq<NodeView>,
    dim: nat,
    list: Seq<u32>,
    m_max: int,
    new_pos: u32,
)
    requires
        graph_wf(nodes, dim),
        m_max >= 0,
        list.no_duplicates(),
        forall|j: int|
            0 <= j < list.len() ==> (#[trigger] list[j]) < nodes.len()
                && nodes[list[j] as int].neighbors[0].len() < m_max,
        new_pos < nodes.len(),
    ensures
        ({
            let after = all_back_linked(ar, metric, nodes, list, 0, m_max, new_pos);
            &&& after.len() == nodes.len()
            &&& forall|i: int|
                #![trigger after[i].neighbors[0]]
                0 <= i < nodes.len() ==> after[i].neighbors[0] == if list.contains(i as u32) {
                    nodes[i].neighbors[0].push(new_pos)
                } else {
                    nodes[i].neighbors[0]
                }
        }),
    decreases list.len(),
{
    let after = all_back_linked(ar, metric, nodes, list, 0, m_max, new_pos);
    if list.len() > 0 {
        let front = list.drop_last();
        let last = list.last();
        assert(list[list.len() - 1] == last);
        assert forall|j: int| 0 <= j < front.len() implies (#[trigger] front[j]) < nodes.len()
            && nodes[front[j] as int].neighbors[0].len() < m_max && nodes[front[j] as int].reaches(
            0,
        ) by {
            assert(front[j] == list[j]);
            assert(nodes[front[j] as int].neighbors.len() >= 1);
        }
        assert(nodes[new_pos as int].neighbors.len() >= 1);
        lemma_ground_back(ar, metric, nodes, dim, front, m_max, new_pos);
        lemma_all_back_linked(ar, metric, nodes, dim, front, 0, m_max, new_pos);
        let mid = all_back_linked(ar, metric, nodes, front, 0, m_max, new_pos);
        assert(!front.contains(last)) by {
            if front.contains(last) {
                let j = choose|j: int| 0 <= j < front.len() && front[j] == last;
                assert(list[j] == last);
            }
        }
        assert(mid[last as int].neighbors[0] == nodes[last as int].neighbors[0]);
        assert(mid[last as int].neighbors.len() >= 1);
        let grown = with_list(mid, last as int, 0, mid[last as int].neighbors[0].push(new_pos));
        assert(after == grown);
        assert forall|i: int|
            #![trigger after[i].neighbors[0]]
            0 <= i < nodes.len() implies after[i].neighbors[0] == if list.contains(i as u32) {
            nodes[i].neighbors[0].push(new_pos)
        } else {
            nodes[i].neighbors[0]
        } by {
            assert(mid[i].neighbors.len() >= 1);
            if i == last {
                assert(list.contains(i as u32));
            } else {
                assert(after[i].neighbors[0] == mid[i].neighbors[0]);
                if list.contains(i as u32) {
                    let j = choose|j: int| 0 <= j < list.len() && list[j] == i as u32;
                    assert(front[j] == i as u32);
                }
                if front.contains(i as u32) {
                    let j = choose|j: int| 0 <= j < front.len() && front[j] == i as u32;
                    assert(list[j] == i as u32);
                }
            }
        }
    }
}

/// A node that names, and is named by, a node of a connected graph is
/// connected to all of it.
proof fn lemma_join(old_links: Seq<Seq<u32>>, links: Seq<Seq<u32>>, chosen: Seq<u32>)
    requires
        links.len() == old_links.len() + 1,
        links.len() <= 0x1_0000_0000,
        old_links.len() > 0,
        joined_up(old_links),
        chosen.len() > 0,
        forall|j: int| 0 <= j < chosen.len() ==> (#[trigger] chosen[j]) < old_links.len(),
        forall|i: int, j: int|
            #![trigger old_links[i][j]]
            0 <= i < old_links.len() && 0 <= j < old_links[i].len() ==> old_links[i][j]
                < old_links.len(),
        links[old_links.len() as int] == chosen,
        forall|i: int|
            #![trigger links[i]]
            0 <= i < old_links.len() ==> links[i] == if chosen.contains(i as u32) {
                old_links[i].push(old_links.len() as u32)
            } else {
                old_links[i]
            },
    ensures
        joined_up(links),
{
    let n = old_links.len() as int;
    assert forall|set: Seq<bool>, i: int, j: int|
        #![trigger link_closed(links, set), set[i], set[j]]
        link_closed(links, set) && 0 <= i < links.len() && 0 <= j < links.len()
            && set[i] implies set[j] by {
        let part = set.take(n);
        assert(link_closed(old_links, part)) by {
            assert forall|a: int, b: int|
                #![trigger old_links[a][b]]
                0 <= a < n && part[a] && 0 <= b
                    < old_links[a].len() implies part[old_links[a][b] as int] by {
                assert(links[a][b] == old_links[a][b]);
                assert(set[a]);
            }
        }
        let c = chosen[0] as int;
        assert(chosen.contains(c as u32));
        assert(set[c]) by {
            if i == n {
                assert(links[n][0] == chosen[0]);
            } else {
                assert(part[i]);
                assert(part[c]);
            }
        }
        if j == n {
            let at = old_links[c].len() as int;
            assert(links[c] == old_links[c].push(n as u32));
            assert(links[c][at] == n as u32);
        } else {
            assert(part[c]);
            assert(part[j]);
        }
    }
}

/// What holds of a graph whose last node is still to be linked on a layer and
/// below, while the others are connected.
spec fn ready_to_join(nodes: Seq<NodeView>, dim: nat, new_pos: u32, layer: int) -> bool {
    let old_links = ground_links(nodes).take(new_pos as int);
    &&& graph_wf(nodes, dim)
    &&& nodes.len() == new_pos + 1
    &&& new_pos > 0
    &&& unnamed_to(nodes, new_pos, layer)
    &&& unnamed_to(nodes, new_pos, 0)
    &&& simple_lists(old_links)
    &&& joined_up(old_links)
}

/// Linking the last node on a layer and below connects it, as long as no list
/// of layer 0 is full.
proof fn lemma_layers_join(
    ar: Arith,
    metric: DistanceMetric,
    rules: LinkRules,
    nodes: Seq<NodeView>,
    dim: nat,
    new_pos: u32,
    layer: int,
    ep: u32,
)
    requires
        ready_to_join(nodes, dim, new_pos, layer),
        0 <= layer,
        ep < new_pos,
        nodes[ep as int].reaches(layer),
        nodes[new_pos as int].reaches(layer),
        rules.m >= 1,
        new_pos <= 2 * rules.m,
    ensures
        ({
            let after = ground_links(
                layers_linked(ar, metric, rules, nodes, new_pos, layer, ep),
            );
            &&& after.len() == new_pos + 1
            &&& simple_lists(after)
            &&& joined_up(after)
        }),
    decreases layer,
{
    let m = rules.m as int;
    let cands = link_candidates(ar, metric, rules, nodes, new_pos, layer, ep);
    let mid = layer_linked(ar, metric, rules, nodes, new_pos, layer, ep);
    let next = cands[0].label as u32;
    lemma_link_candidates(ar, metric, rules, nodes, dim, new_pos, layer, ep);
    lemma_candidates_are_others(ar, metric, rules, nodes, dim, new_pos, layer, ep);
    lemma_layer_linked(ar, metric, rules, nodes, dim, new_pos, layer, ep);
    if layer > 0 {
        lemma_other_layers(ar, metric, rules, nodes, dim, new_pos, layer, ep);
        assert(ground_links(mid) =~= ground_links(nodes)) by {
            assert forall|i: int| 0 <= i < nodes.len() implies mid[i].neighbors[0]
                == nodes[i].neighbors[0] by {
                assert(nodes[i].neighbors.len() >= 1);
            }
        }
        assert forall|i: int, l: int, j: int|
            #![trigger mid[i].neighbors[l][j]]
            0 <= i < mid.len() && 0 <= l < mid[i].neighbors.len() && l <= layer - 1 && 0 <= j
                < mid[i].neighbors[l].len() implies mid[i].neighbors[l][j] != new_pos by {
            assert(mid[i].neighbors.len() == nodes[i].neighbors.len());
            assert(mid[i].neighbors[l] == nodes[i].neighbors[l]);
            assert(nodes[i].neighbors[l][j] != new_pos);
        }
        assert(mid[next as int].neighbors.len() == nodes[next as int].neighbors.len());
        assert(mid[new_pos as int].neighbors.len() == nodes[new_pos as int].neighbors.len());
        lemma_layers_join(ar, metric, rules, mid, dim, new_pos, layer - 1, next);
    } else {
        lemma_ground_joins(ar, metric, rules, nodes, dim, new_pos, ep);
        assert(layers_linked(ar, metric, rules, mid, new_pos, -1, next) == mid);
    }
}

proof fn lemma_ground_joins(
    ar: Arith,
    metric: DistanceMetric,
    rules: LinkRules,
    nodes: Seq<NodeView>,
    dim: nat,
    new_pos: u32,
    ep: u32,
)
    requires
        ready_to_join(nodes, dim, new_pos, 0),
        ep < new_pos,
        rules.m >= 1,
        new_pos <= 2 * rules.m,
    ensures
        ({
            let after = ground_links(layer_linked(ar, metric, rules, nodes, new_pos, 0, ep));
            &&& after.len() == new_pos + 1
            &&& simple_lists(after)
            &&& joined_up(after)
        }),
{
    let m = rules.m as int;
    let n = new_pos as int;
    let old_links = ground_links(nodes).take(n);
    let cands = link_candidates(ar, metric, rules, nodes, new_pos, 0, ep);
    let chosen = selected(ar, metric, nodes, cands, m);
    assert(nodes[ep as int].neighbors.len() >= 1);
    assert(nodes[n].neighbors.len() >= 1);
    lemma_link_candidates(ar, metric, rules, nodes, dim, new_pos, 0, ep);
    lemma_candidates_are_others(ar, metric, rules, nodes, dim, new_pos, 0, ep);
    lemma_layer_linked(ar, metric, rules, nodes, dim, new_pos, 0, ep);
    lemma_selected(ar, metric, nodes, cands, m);
    law_selection_fills_its_slots(ar, metric, nodes, cands, m);
    assert(labels(cands).no_duplicates()) by {
        assert forall|i: int, j: int|
            0 <= i < cands.len() && 0 <= j < cands.len() && i != j implies labels(cands)[i]
            != labels(cands)[j] by {
            assert(cands[i].label < nodes.len() && cands[j].label < nodes.len());
            assert(cands[i] != cands[j]);
        }
    }
    lemma_selected_distinct(ar, metric, nodes, cands, m);
    assert forall|j: int| 0 <= j < chosen.len() implies (#[trigger] chosen[j]) < n
        && nodes[chosen[j] as int].neighbors[0].len() < 2 * m by {
        assert(labels(cands).contains(chosen[j]));
        let p = choose|p: int| 0 <= p < labels(cands).len() && labels(cands)[p] == chosen[j];
        assert(cands[p].label != new_pos);
        assert(cands[p].label < nodes.len());
        let c = chosen[j] as int;
        assert(old_links[c] == nodes[c].neighbors[0]);
        lemma_short_list(old_links[c], n, c);
    }
    lemma_ground_back(ar, metric, nodes, dim, chosen, 2 * m, new_pos);
    let mid = all_back_linked(ar, metric, nodes, chosen, 0, 2 * m, new_pos);
    lemma_all_back_linked(ar, metric, nodes, dim, chosen, 0, 2 * m, new_pos);
    let after = layer_linked(ar, metric, rules, nodes, new_pos, 0, ep);
    let links = ground_links(after);
    assert(list_limit(m, 0) == 2 * m);
    assert(mid[n].neighbors.len() >= 1);
    assert(links[n] == chosen);
    assert forall|i: int| #![trigger links[i]] 0 <= i < n implies links[i] == if chosen.contains(
        i as u32,
    ) {
        old_links[i].push(new_pos)
    } else {
        old_links[i]
    } by {
        assert(after[i] == mid[i]);
        assert(mid[i].neighbors[0] == if chosen.contains(i as u32) {
            nodes[i].neighbors[0].push(new_pos)
        } else {
            nodes[i].neighbors[0]
        });
        assert(old_links[i] == nodes[i].neighbors[0]);
    }
    assert forall|i: int, j: int|
        #![trigger old_links[i][j]]
        0 <= i < old_links.len() && 0 <= j < old_links[i].len() implies old_links[i][j]
        < old_links.len() by {
        let list = old_links[i];
        assert(list[j] < old_links.len());
    }
    lemma_join(old_links, links, chosen);
    assert forall|i: int| #![trigger links[i]] 0 <= i < links.len() implies {
        &&& links[i].no_duplicates()
        &&& !links[i].contains(i as u32)
        &&& forall|j: int| 0 <= j < links[i].len() ==> (#[trigger] links[i][j]) < links.len()
    } by {
        if i == n {
            if links[i].contains(i as u32) {
                let j = choose|j: int| 0 <= j < chosen.len() && chosen[j] == i as u32;
                assert(chosen[j] < n);
            }
        } else {
            let list = old_links[i];
            assert(list.no_duplicates());
            if chosen.contains(i as u32) {
                assert forall|a: int, b: int|
                    0 <= a < links[i].len() && 0 <= b < links[i].len() && a
                        != b implies links[i][a] != links[i][b] by {
                    if a < list.len() {
                        assert(list[a] < n);
                    }
                    if b < list.len() {
                        assert(list[b] < n);
                    }
                }
                if links[i].contains(i as u32) {
                    let j = choose|j: int| 0 <= j < links[i].len() && links[i][j] == i as u32;
                    assert(list[j] == i as u32);
                }
            }
        }
    }
}

/// Whether the graph of layer 0 is connected by lists that name no node twice.
pub open spec fn well_linked(v: HnswView) -> bool {
    &&& simple_lists(ground_links(v.nodes))
    &&& joined_up(ground_links(v.nodes))
    &&& v.nodes.len() > 0 ==> v.entry is Some
}

/// An index that holds nothing is well linked.
pub proof fn law_empty_index_is_well_linked(v: HnswView)
    requires
        v.nodes.len() == 0,
    ensures
        well_linked(v),
{
}

/// An index stays well linked as long as no neighbor list of layer 0 can be
/// full: up to twice `m` nodes before the vector is stored.
pub proof fn law_small_index_stays_well_linked(
    v: HnswView,
    ar: Arith,
    id: u64,
    vector: Seq<u32>,
    payload: Option<JsonView>,
)
    requires
        v.wf(),
        v.nodes.len() < 0x1_0000_0000,
        vector.len() == v.dim,
        well_linked(v),
        v.config.m >= 1,
        v.nodes.len() <= 2 * v.config.m,
    ensures
        well_linked(v.inserted(ar, id, vector, payload)),
{
    let level = level_of(ar, v.config.m, scrambled(next_state(v.rng)));
    let new_pos = v.nodes.len() as u32;
    let n = v.nodes.len() as int;
    let fresh = NodeView {
        id,
        vector,
        neighbors: Seq::new((level + 1) as nat, |i: int| seq![]),
        deleted: false,
        payload,
    };
    let grown = v.nodes.push(fresh);
    lemma_pushed_wf(v.nodes, v.dim as nat, fresh);
    assert(grown[n] == fresh);
    let after = v.inserted(ar, id, vector, payload);
    match v.entry {
        None => {
            let links = ground_links(after.nodes);
            assert(links.len() == 1);
            assert(links[0] =~= seq![]);
            assert forall|set: Seq<bool>, i: int, j: int|
                #![trigger link_closed(links, set), set[i], set[j]]
                link_closed(links, set) && 0 <= i < links.len() && 0 <= j < links.len()
                    && set[i] implies set[j] by {}
        },
        Some(entry) => {
            let dist = distances(ar, v.metric, grown, vector);
            let ep = descend(grown, dist, v.max_layer as int, level + 1, entry);
            let top = if level < v.max_layer {
                level
            } else {
                v.max_layer
            };
            assert(grown[entry as int] == v.nodes[entry as int]);
            assert(ground_links(grown).take(n) =~= ground_links(v.nodes));
            assert forall|i: int, l: int, j: int|
                #![trigger grown[i].neighbors[l][j]]
                0 <= i < grown.len() && 0 <= l < grown[i].neighbors.len() && 0 <= j
                    < grown[i].neighbors[l].len() implies grown[i].neighbors[l][j] != new_pos by {
                assert(i < n);
                assert(v.nodes[i].neighbors[l][j] < n);
            }
            if level < v.max_layer {
                lemma_descend(grown, v.dim as nat, dist, v.max_layer as int, level + 1, entry);
                lemma_descent_avoids(
                    grown,
                    v.dim as nat,
                    dist,
                    v.max_layer as int,
                    level + 1,
                    entry,
                    new_pos,
                );
            }
            lemma_layers_join(
                ar,
                v.metric,
                v.rules(),
                grown,
                v.dim as nat,
                new_pos,
                top as int,
                ep,
            );
        },
    }
}

/// A descent does not end on a node that no list names, unless it starts
/// there.
pub(crate) proof fn lemma_descent_avoids(
    nodes: Seq<NodeView>,
    dim: nat,
    dist: Seq<u32>,
    top: int,
    bottom: int,
    ep: u32,
    node: u32,
)
    requires
        graph_wf(nodes, dim),
        dist.len() == nodes.len(),
        0 <= bottom <= top + 1,
        ep < nodes.len(),
        nodes[ep as int].reaches(top),
        ep != node,
        unnamed_to(nodes, node, top),
    ensures
        descend(nodes, dist, top, bottom, ep) != node,
    decreases top - bottom + 1,
{
    if top >= bottom {
        let t = crate::graph::layer_terrain(nodes, top, dist, crate::graph::everyone(nodes));
        crate::graph::lemma_layer_terrain(
            nodes,
            dim,
            top,
            dist,
            crate::graph::everyone(nodes),
        );
        crate::beam::lemma_climb(t, ep);
        lemma_climb_avoids(t, ep, node);
        let next = crate::beam::climb(t, ep);
        assert(t.on[next as int]);
        lemma_descent_avoids(nodes, dim, dist, top - 1, bottom, next, node);
    }
}

proof fn lemma_climb_avoids(t: Terrain, from: u32, node: u32)
    requires
        t.wf(),
        t.holds(from),
        from != node,
        forall|i: int, j: int|
            #![trigger t.links[i][j]]
            0 <= i < t.size() && 0 <= j < t.links[i].len() ==> t.links[i][j] != node,
    ensures
        crate::beam::climb(t, from) != node,
    decreases crate::float::value_key(t.dist[from as int]) + 0x8000_0000,
{
    let list = t.links[from as int];
    let next = crate::beam::closest_of(t, from, list);
    crate::beam::lemma_closest_of(t, from, list);
    if next != from {
        let j = choose|j: int| 0 <= j < list.len() && list[j] == next;
        assert(t.links[from as int][j] == next);
        lemma_climb_avoids(t, next, node);
    }
}

/// Marking a vector as removed keeps the index well linked.
pub proof fn law_removal_keeps_well_linked(v: HnswView, at: int)
    requires
        0 <= at < v.nodes.len(),
        well_linked(v),
    ensures
        well_linked(v.retired(at)),
{
    assert(ground_links(v.retired(at).nodes) =~= ground_links(v.nodes));
}

/// A well linked index is exact with a beam at least as wide as the number of
/// vectors wanted: the search agrees with looking at every vector.
pub proof fn law_well_linked_index_is_exact(
    v: HnswView,
    ar: Arith,
    query: Seq<u32>,
    k: usize,
    ef: usize,
    filter: Option<FilterView>,
)
    requires
        v.wf(),
        well_linked(v),
        matches_of(v.points(), v.metric, ar, query, filter).len() <= k || matches_of(
            v.points(),
            v.metric,
            ar,
            query,
            filter,
        ).len() <= ef,
    ensures
        agrees(
            v.found(ar, query, k, ef, filter),
            exact_hits(v.points(), v.metric, ar, query, k as int, filter),
        ),
        ties_agree(v, ar, query, filter) ==> v.found(ar, query, k, ef, filter) == exact_hits(
            v.points(),
            v.metric,
            ar,
            query,
            k as int,
            filter,
        ),
{
    if v.nodes.len() == 0 {
        assert(v.points() =~= seq![]);
        crate::hnsw_laws::law_nothing_live_nothing_found(v, ar, query, k, ef, filter);
        assert(v.found(ar, query, k, ef, filter) =~= exact_hits(
            v.points(),
            v.metric,
            ar,
            query,
            k as int,
            filter,
        ));
    } else {
        lemma_well_linked_reach(v, ar, query, filter);
        law_wide_beam_is_exact(v, ar, query, k, ef, filter);
    }
}

/// In a well linked index a search can get everywhere.
proof fn lemma_well_linked_reach(
    v: HnswView,
    ar: Arith,
    query: Seq<u32>,
    filter: Option<FilterView>,
)
    requires
        v.wf(),
        well_linked(v),
        v.nodes.len() > 0,
    ensures
        all_within_reach(v, ar, query, filter),
{
    let t = v.ground(ar, query, filter);
    let ep = v.landing(ar, query);
    let links = ground_links(v.nodes);
    crate::hnsw::lemma_search_beam(v, ar, query, 0, 0, filter);
    assert(t.links =~= links) by {
        assert forall|i: int| 0 <= i < v.nodes.len() implies t.links[i] == links[i] by {
            assert(v.nodes[i].neighbors.len() >= 1);
        }
    }
    assert forall|n: u32|
        #![trigger v.nodes[n as int]]
        wanted(v, filter, n as int) implies within_reach(v, ar, query, filter, n as int) by {
        assert forall|set: Seq<bool>|
            #![trigger closed_under_links(t, set)]
            closed_under_links(t, set) && set[ep as int] implies set[n as int] by {
            assert(link_closed(links, set));
        }
    }
}

} // verus!
