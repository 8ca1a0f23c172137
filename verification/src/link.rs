//! Linking a new node into the graph: choosing neighbors and keeping their
//! lists short.
use crate::beam::{
    advanced, beam_run, beam_search, beam_start, beam_wf, lemma_beam_run, lemma_beam_start,
    lemma_beam_turn, lemma_kept, lemma_visit_all, seen, settled, steps_left, visit_all, Beam,
    Terrain,
};
use crate::candidate::{ascending, first, lemma_ranked, rank, ranked, Candidate};
use crate::distance::DistanceMetric;
use crate::float::{arith_of, is_arithmetic, is_less, less, Arith, FloatOp};
use crate::graph::{
    distances, everyone, graph_wf, layer_terrain, lemma_layer_terrain, lists_view, nodes_view,
    search_layer, Admission, Node, NodeView,
};
use vstd::prelude::*;

verus! {

/// How far apart two nodes are.
pub open spec fn gap(
    ar: Arith,
    metric: DistanceMetric,
    nodes: Seq<NodeView>,
    a: int,
    b: int,
) -> u32 {
    metric.between(ar, nodes[a].vector, nodes[b].vector)
}

/// Whether a candidate is closer to some node already chosen than to the
/// target.
pub open spec fn dominated(
    ar: Arith,
    metric: DistanceMetric,
    nodes: Seq<NodeView>,
    chosen: Seq<Candidate>,
    c: Candidate,
) -> bool {
    exists|i: int|
        #![trigger chosen[i]]
        0 <= i < chosen.len() && less(
            gap(ar, metric, nodes, c.label as int, chosen[i].label as int),
            c.distance,
        )
}

/// The candidates sorted into those kept for their direction and those passed
/// over, as far as the slots last.
#[verifier::ext_equal]
pub struct Selection {
    pub chosen: Seq<Candidate>,
    pub pruned: Seq<u32>,
}

/// Walks the candidates in order and keeps each one that is not dominated,
/// until `m` are kept.
pub open spec fn selection(
    ar: Arith,
    metric: DistanceMetric,
    nodes: Seq<NodeView>,
    cands: Seq<Candidate>,
    m: int,
) -> Selection
    decreases cands.len(),
{
    if cands.len() == 0 {
        Selection { chosen: seq![], pruned: seq![] }
    } else {
        let s = selection(ar, metric, nodes, cands.drop_last(), m);
        let c = cands.last();
        if s.chosen.len() >= m {
            s
        } else if dominated(ar, metric, nodes, s.chosen, c) {
            Selection { pruned: s.pruned.push(c.label as u32), ..s }
        } else {
            Selection { chosen: s.chosen.push(c), ..s }
        }
    }
}

/// The labels of candidates as places of nodes.
pub open spec fn labels(cands: Seq<Candidate>) -> Seq<u32> {
    cands.map_values(|c: Candidate| c.label as u32)
}

/// The neighbors chosen among the candidates: those kept, and then, as far as
/// slots are left, those passed over.
pub open spec fn selected(
    ar: Arith,
    metric: DistanceMetric,
    nodes: Seq<NodeView>,
    cands: Seq<Candidate>,
    m: int,
) -> Seq<u32> {
    let s = selection(ar, metric, nodes, cands, m);
    labels(s.chosen) + first(s.pruned, m - s.chosen.len())
}

/// Whether every candidate is a node.
pub open spec fn are_nodes(cands: Seq<Candidate>, count: nat) -> bool {
    forall|i: int| 0 <= i < cands.len() ==> (#[trigger] cands[i]).label < count
}

/// A selection takes its nodes from the candidates.
pub proof fn lemma_selection(
    ar: Arith,
    metric: DistanceMetric,
    nodes: Seq<NodeView>,
    cands: Seq<Candidate>,
    m: int,
)
    requires
        m >= 0,
    ensures
        selection(ar, metric, nodes, cands, m).chosen.len() <= m,
        forall|i: int|
            0 <= i < selection(ar, metric, nodes, cands, m).chosen.len() ==> cands.contains(
                #[trigger] selection(ar, metric, nodes, cands, m).chosen[i],
            ),
        forall|i: int|
            0 <= i < selection(ar, metric, nodes, cands, m).pruned.len() ==> labels(cands).contains(
                #[trigger] selection(ar, metric, nodes, cands, m).pruned[i],
            ),
    decreases cands.len(),
{
    if cands.len() > 0 {
        let front = cands.drop_last();
        lemma_selection(ar, metric, nodes, front, m);
        let s = selection(ar, metric, nodes, front, m);
        let after = selection(ar, metric, nodes, cands, m);
        assert(cands[cands.len() - 1] == cands.last());
        assert(labels(cands)[cands.len() - 1] == cands.last().label as u32);
        assert forall|i: int| 0 <= i < after.chosen.len() implies cands.contains(
            #[trigger] after.chosen[i],
        ) by {
            if i < s.chosen.len() {
                assert(front.contains(s.chosen[i]));
                let j = choose|j: int| 0 <= j < front.len() && front[j] == s.chosen[i];
                assert(cands[j] == s.chosen[i]);
            }
        }
        assert forall|i: int| 0 <= i < after.pruned.len() implies labels(cands).contains(
            #[trigger] after.pruned[i],
        ) by {
            if i < s.pruned.len() {
                assert(labels(front).contains(s.pruned[i]));
                let j = choose|j: int| 0 <= j < labels(front).len() && labels(front)[j]
                    == s.pruned[i];
                assert(labels(cands)[j] == s.pruned[i]);
            }
        }
    }
}

/// The neighbors chosen are candidates, and no more than `m`.
pub proof fn lemma_selected(
    ar: Arith,
    metric: DistanceMetric,
    nodes: Seq<NodeView>,
    cands: Seq<Candidate>,
    m: int,
)
    requires
        m >= 0,
    ensures
        selected(ar, metric, nodes, cands, m).len() <= m,
        forall|i: int|
            0 <= i < selected(ar, metric, nodes, cands, m).len() ==> labels(cands).contains(
                #[trigger] selected(ar, metric, nodes, cands, m)[i],
            ),
{
    lemma_selection(ar, metric, nodes, cands, m);
    let s = selection(ar, metric, nodes, cands, m);
    let out = selected(ar, metric, nodes, cands, m);
    assert forall|i: int| 0 <= i < out.len() implies labels(cands).contains(#[trigger] out[i]) by {
        if i < s.chosen.len() {
            assert(cands.contains(s.chosen[i]));
            let j = choose|j: int| 0 <= j < cands.len() && cands[j] == s.chosen[i];
            assert(labels(cands)[j] == out[i]);
        } else {
            assert(out[i] == s.pruned[i - s.chosen.len()]);
        }
    }
}

fn is_dominated<F: Fn(FloatOp, u64, u64) -> u64>(
    nodes: &Vec<Node>,
    metric: DistanceMetric,
    fpu: &F,
    chosen: &Vec<Candidate>,
    c: Candidate,
    Ghost(dim): Ghost<nat>,
) -> (r: bool)
    requires
        is_arithmetic(*fpu),
        graph_wf(nodes_view(nodes@), dim),
        c.label < nodes@.len(),
        are_nodes(chosen@, nodes@.len()),
    ensures
        r == dominated(arith_of(*fpu), metric, nodes_view(nodes@), chosen@, c),
{
    let ghost all = nodes_view(nodes@);
    let mut i: usize = 0;
    while i < chosen.len()
        invariant
            is_arithmetic(*fpu),
            all == nodes_view(nodes@),
            graph_wf(all, dim),
            c.label < nodes@.len(),
            are_nodes(chosen@, nodes@.len()),
            i <= chosen@.len(),
            forall|j: int|
                #![trigger chosen@[j]]
                0 <= j < i ==> !less(
                    gap(arith_of(*fpu), metric, all, c.label as int, chosen@[j].label as int),
                    c.distance,
                ),
        decreases chosen@.len() - i,
    {
        assert(all[c.label as int].vector.len() == dim);
        assert(all[chosen@[i as int].label as int].vector.len() == dim);
        let d: u32 = metric.measure(
            fpu,
            nodes[c.label as usize].vector.as_slice(),
            nodes[chosen[i].label as usize].vector.as_slice(),
        );
        if is_less(d, c.distance) {
            return true;
        }
        i = i + 1;
    }
    false
}

/// Chooses up to `m` neighbors among candidates that stand closest first.
///
/// A candidate is kept only if it is closer to the target than to every
/// neighbor already kept, so that the edges spread over directions; the
/// candidates passed over fill the slots that are left.
pub(crate) fn select_neighbors<F: Fn(FloatOp, u64, u64) -> u64>(
    nodes: &Vec<Node>,
    metric: DistanceMetric,
    fpu: &F,
    cands: &Vec<Candidate>,
    m: usize,
    Ghost(dim): Ghost<nat>,
) -> (r: Vec<u32>)
    requires
        is_arithmetic(*fpu),
        graph_wf(nodes_view(nodes@), dim),
        are_nodes(cands@, nodes@.len()),
    ensures
        r@ == selected(arith_of(*fpu), metric, nodes_view(nodes@), cands@, m as int),
{
    let ghost ar = arith_of(*fpu);
    let ghost all = nodes_view(nodes@);
    let mut chosen: Vec<Candidate> = Vec::new();
    let mut pruned: Vec<u32> = Vec::new();
    let mut i: usize = 0;
    assert(cands@.take(0) =~= Seq::<Candidate>::empty());
    while i < cands.len() && chosen.len() < m
        invariant
            is_arithmetic(*fpu),
            ar == arith_of(*fpu),
            all == nodes_view(nodes@),
            graph_wf(all, dim),
            are_nodes(cands@, nodes@.len()),
            are_nodes(chosen@, nodes@.len()),
            i <= cands@.len(),
            chosen@.len() <= m,
            chosen@ == selection(ar, metric, all, cands@.take(i as int), m as int).chosen,
            pruned@ == selection(ar, metric, all, cands@.take(i as int), m as int).pruned,
        decreases cands@.len() - i,
    {
        let c = cands[i];
        assert(cands@.take(i as int + 1).drop_last() =~= cands@.take(i as int));
        if is_dominated(nodes, metric, fpu, &chosen, c, Ghost(dim)) {
            pruned.push(c.label as u32);
        } else {
            chosen.push(c);
        }
        i = i + 1;
    }
    proof {
        lemma_selection_stops(ar, metric, all, cands@, m as int, i as int);
    }
    let mut out: Vec<u32> = Vec::new();
    let mut j: usize = 0;
    while j < chosen.len()
        invariant
            j <= chosen@.len(),
            out@ == labels(chosen@.take(j as int)),
        decreases chosen@.len() - j,
    {
        out.push(chosen[j].label as u32);
        assert(labels(chosen@.take(j as int + 1)) =~= labels(chosen@.take(j as int)).push(
            chosen@[j as int].label as u32,
        ));
        j = j + 1;
    }
    assert(chosen@.take(j as int) =~= chosen@);
    let ghost head = out@;
    let mut p: usize = 0;
    assert(out@ =~= head + pruned@.take(0));
    while p < pruned.len() && out.len() < m
        invariant
            p <= pruned@.len(),
            head.len() <= m,
            head.len() + p <= m || p == 0,
            out@ == head + pruned@.take(p as int),
        decreases pruned@.len() - p,
    {
        out.push(pruned[p]);
        assert(out@ =~= head + pruned@.take(p as int + 1));
        p = p + 1;
    }
    assert(pruned@.take(p as int) =~= first(pruned@, m - head.len()));
    out
}

/// Once the slots are taken, the rest of the candidates changes nothing.
proof fn lemma_selection_stops(
    ar: Arith,
    metric: DistanceMetric,
    nodes: Seq<NodeView>,
    cands: Seq<Candidate>,
    m: int,
    i: int,
)
    requires
        0 <= i <= cands.len(),
        i == cands.len() || selection(ar, metric, nodes, cands.take(i), m).chosen.len() >= m,
    ensures
        selection(ar, metric, nodes, cands, m) == selection(ar, metric, nodes, cands.take(i), m),
    decreases cands.len() - i,
{
    if i == cands.len() {
        assert(cands.take(i) =~= cands);
    } else {
        assert(cands.take(i + 1).drop_last() =~= cands.take(i));
        lemma_selection_stops(ar, metric, nodes, cands, m, i + 1);
    }
}

// ---------------------------------------------------------------------------
// Neighbor lists
// ---------------------------------------------------------------------------

/// The nodes with one neighbor list replaced.
pub open spec fn with_list(
    nodes: Seq<NodeView>,
    node: int,
    layer: int,
    list: Seq<u32>,
) -> Seq<NodeView> {
    nodes.update(
        node,
        NodeView { neighbors: nodes[node].neighbors.update(layer, list), ..nodes[node] },
    )
}

/// A node's neighbors on a layer as candidates, at their distance from it.
pub open spec fn neighbor_candidates(
    ar: Arith,
    metric: DistanceMetric,
    nodes: Seq<NodeView>,
    node: int,
    list: Seq<u32>,
) -> Seq<Candidate> {
    list.map_values(
        |nb: u32|
            Candidate { distance: gap(ar, metric, nodes, node, nb as int), label: nb as u64 },
    )
}

/// A node's neighbor list on a layer, chosen anew with at most `m_max` entries.
pub open spec fn shrunk(
    ar: Arith,
    metric: DistanceMetric,
    nodes: Seq<NodeView>,
    node: int,
    layer: int,
    m_max: int,
) -> Seq<u32> {
    selected(
        ar,
        metric,
        nodes,
        ranked(neighbor_candidates(ar, metric, nodes, node, nodes[node].neighbors[layer])),
        m_max,
    )
}

/// The nodes after `node` got `new_pos` as a neighbor: at the end of its list,
/// which is chosen anew if it has grown too long.
pub open spec fn back_linked(
    ar: Arith,
    metric: DistanceMetric,
    nodes: Seq<NodeView>,
    node: int,
    layer: int,
    m_max: int,
    new_pos: u32,
) -> Seq<NodeView> {
    let grown = with_list(nodes, node, layer, nodes[node].neighbors[layer].push(new_pos));
    if grown[node].neighbors[layer].len() > m_max {
        with_list(grown, node, layer, shrunk(ar, metric, grown, node, layer, m_max))
    } else {
        grown
    }
}

/// The same for every node of a list, in order.
pub open spec fn all_back_linked(
    ar: Arith,
    metric: DistanceMetric,
    nodes: Seq<NodeView>,
    list: Seq<u32>,
    layer: int,
    m_max: int,
    new_pos: u32,
) -> Seq<NodeView>
    decreases list.len(),
{
    if list.len() == 0 {
        nodes
    } else {
        back_linked(
            ar,
            metric,
            all_back_linked(ar, metric, nodes, list.drop_last(), layer, m_max, new_pos),
            list.last() as int,
            layer,
            m_max,
            new_pos,
        )
    }
}

/// Whether two graphs have the same nodes on the same layers, whatever the
/// edges.
pub open spec fn same_points(a: Seq<NodeView>, b: Seq<NodeView>) -> bool {
    &&& a.len() == b.len()
    &&& forall|i: int|
        #![trigger a[i]]
        #![trigger b[i]]
        0 <= i < a.len() ==> {
            &&& a[i].id == b[i].id
            &&& a[i].vector == b[i].vector
            &&& a[i].deleted == b[i].deleted
            &&& a[i].payload == b[i].payload
            &&& a[i].neighbors.len() == b[i].neighbors.len()
        }
}

/// Replacing a list by one of nodes of the layer keeps the graph well formed.
pub proof fn lemma_with_list(
    nodes: Seq<NodeView>,
    dim: nat,
    node: int,
    layer: int,
    list: Seq<u32>,
)
    requires
        graph_wf(nodes, dim),
        0 <= node < nodes.len(),
        0 <= layer < nodes[node].neighbors.len(),
        forall|j: int|
            0 <= j < list.len() ==> (#[trigger] list[j]) < nodes.len()
                && nodes[list[j] as int].reaches(layer),
    ensures
        graph_wf(with_list(nodes, node, layer, list), dim),
        same_points(nodes, with_list(nodes, node, layer, list)),
        with_list(nodes, node, layer, list)[node].neighbors[layer] == list,
{
    let after = with_list(nodes, node, layer, list);
    assert forall|i: int, l: int, j: int|
        #![trigger after[i].neighbors[l][j]]
        0 <= i < after.len() && 0 <= l < after[i].neighbors.len() && 0 <= j
            < after[i].neighbors[l].len() implies after[i].neighbors[l][j] < after.len()
        && after[after[i].neighbors[l][j] as int].reaches(l) by {
        if i == node && l == layer {
            assert(after[i].neighbors[l][j] == list[j]);
        } else {
            assert(after[i].neighbors[l][j] == nodes[i].neighbors[l][j]);
        }
    }
}

/// The neighbors chosen anew are among the old ones.
pub proof fn lemma_shrunk(
    ar: Arith,
    metric: DistanceMetric,
    nodes: Seq<NodeView>,
    node: int,
    layer: int,
    m_max: int,
)
    requires
        m_max >= 0,
        0 <= node < nodes.len(),
        0 <= layer < nodes[node].neighbors.len(),
    ensures
        shrunk(ar, metric, nodes, node, layer, m_max).len() <= m_max,
        forall|j: int|
            0 <= j < shrunk(ar, metric, nodes, node, layer, m_max).len()
                ==> nodes[node].neighbors[layer].contains(
                #[trigger] shrunk(ar, metric, nodes, node, layer, m_max)[j],
            ),
{
    let list = nodes[node].neighbors[layer];
    let raw = neighbor_candidates(ar, metric, nodes, node, list);
    let cands = ranked(raw);
    lemma_ranked(raw);
    lemma_selected(ar, metric, nodes, cands, m_max);
    let out = shrunk(ar, metric, nodes, node, layer, m_max);
    assert forall|j: int| 0 <= j < out.len() implies list.contains(#[trigger] out[j]) by {
        broadcast use vstd::seq_lib::group_to_multiset_ensures;

        assert(labels(cands).contains(out[j]));
        let p = choose|p: int| 0 <= p < labels(cands).len() && labels(cands)[p] == out[j];
        assert(cands.contains(cands[p]));
        assert(raw.to_multiset().count(cands[p]) > 0);
        let q = choose|q: int| 0 <= q < raw.len() && raw[q] == cands[p];
        assert(list[q] == out[j]);
    }
}

/// Linking back keeps the graph well formed and changes no node but its edges.
pub proof fn lemma_back_linked(
    ar: Arith,
    metric: DistanceMetric,
    nodes: Seq<NodeView>,
    dim: nat,
    node: int,
    layer: int,
    m_max: int,
    new_pos: u32,
)
    requires
        graph_wf(nodes, dim),
        m_max >= 0,
        0 <= node < nodes.len(),
        0 <= layer < nodes[node].neighbors.len(),
        new_pos < nodes.len(),
        nodes[new_pos as int].reaches(layer),
    ensures
        ({
            let list = nodes[node].neighbors[layer].push(new_pos);
            let grown = with_list(nodes, node, layer, list);
            &&& graph_wf(grown, dim)
            &&& same_points(nodes, grown)
            &&& grown[node].neighbors[layer] == list
        }),
        graph_wf(back_linked(ar, metric, nodes, node, layer, m_max, new_pos), dim),
        same_points(nodes, back_linked(ar, metric, nodes, node, layer, m_max, new_pos)),
{
    let list = nodes[node].neighbors[layer].push(new_pos);
    assert forall|j: int| 0 <= j < list.len() implies (#[trigger] list[j]) < nodes.len()
        && nodes[list[j] as int].reaches(layer) by {
        if j < nodes[node].neighbors[layer].len() {
            assert(list[j] == nodes[node].neighbors[layer][j]);
        }
    }
    lemma_with_list(nodes, dim, node, layer, list);
    let grown = with_list(nodes, node, layer, list);
    if list.len() > m_max {
        lemma_shrunk(ar, metric, grown, node, layer, m_max);
        let short = shrunk(ar, metric, grown, node, layer, m_max);
        assert forall|j: int| 0 <= j < short.len() implies (#[trigger] short[j]) < grown.len()
            && grown[short[j] as int].reaches(layer) by {
            assert(list.contains(short[j]));
        }
        lemma_with_list(grown, dim, node, layer, short);
    }
}

/// The same for a list of nodes.
pub proof fn lemma_all_back_linked(
    ar: Arith,
    metric: DistanceMetric,
    nodes: Seq<NodeView>,
    dim: nat,
    list: Seq<u32>,
    layer: int,
    m_max: int,
    new_pos: u32,
)
    requires
        graph_wf(nodes, dim),
        m_max >= 0,
        0 <= layer,
        forall|j: int|
            0 <= j < list.len() ==> (#[trigger] list[j]) < nodes.len()
                && nodes[list[j] as int].reaches(layer),
        new_pos < nodes.len(),
        nodes[new_pos as int].reaches(layer),
    ensures
        graph_wf(all_back_linked(ar, metric, nodes, list, layer, m_max, new_pos), dim),
        same_points(nodes, all_back_linked(ar, metric, nodes, list, layer, m_max, new_pos)),
    decreases list.len(),
{
    if list.len() > 0 {
        let front = list.drop_last();
        assert forall|j: int| 0 <= j < front.len() implies (#[trigger] front[j]) < nodes.len()
            && nodes[front[j] as int].reaches(layer) by {
            assert(front[j] == list[j]);
        }
        lemma_all_back_linked(ar, metric, nodes, dim, front, layer, m_max, new_pos);
        let mid = all_back_linked(ar, metric, nodes, front, layer, m_max, new_pos);
        assert(list[list.len() - 1] == list.last());
        lemma_back_linked(ar, metric, mid, dim, list.last() as int, layer, m_max, new_pos);
    }
}

/// Replaces a neighbor list.
fn set_list(nodes: &mut Vec<Node>, node: usize, layer: usize, list: Vec<u32>)
    requires
        node < old(nodes)@.len(),
        layer < old(nodes)@[node as int].neighbors@.len(),
    ensures
        nodes_view(final(nodes)@) == with_list(
            nodes_view(old(nodes)@),
            node as int,
            layer as int,
            list@,
        ),
{
    let ghost was = nodes@;
    let ghost lists = nodes@[node as int].neighbors@;
    nodes[node].neighbors.set(layer, list);
    assert(lists_view(lists.update(layer as int, list)) =~= lists_view(lists).update(
        layer as int,
        list@,
    ));
    assert(nodes_view(nodes@) =~= with_list(nodes_view(was), node as int, layer as int, list@));
}

/// Puts a neighbor at the end of a list.
fn push_link(nodes: &mut Vec<Node>, node: usize, layer: usize, nb: u32)
    requires
        node < old(nodes)@.len(),
        layer < old(nodes)@[node as int].neighbors@.len(),
    ensures
        nodes_view(final(nodes)@) == with_list(
            nodes_view(old(nodes)@),
            node as int,
            layer as int,
            nodes_view(old(nodes)@)[node as int].neighbors[layer as int].push(nb),
        ),
{
    let ghost was = nodes@;
    let ghost lists = nodes@[node as int].neighbors@;
    nodes[node].neighbors[layer].push(nb);
    let ghost lists_now = nodes@[node as int].neighbors@;
    assert(lists_view(lists_now) =~= lists_view(lists).update(
        layer as int,
        lists_view(lists)[layer as int].push(nb),
    ));
    assert(nodes_view(nodes@) =~= with_list(
        nodes_view(was),
        node as int,
        layer as int,
        nodes_view(was)[node as int].neighbors[layer as int].push(nb),
    ));
}

/// Chooses a node's neighbors on a layer anew, at most `m_max` of them.
pub(crate) fn shrink_neighbors<F: Fn(FloatOp, u64, u64) -> u64>(
    nodes: &Vec<Node>,
    metric: DistanceMetric,
    fpu: &F,
    node: u32,
    layer: usize,
    m_max: usize,
    Ghost(dim): Ghost<nat>,
) -> (r: Vec<u32>)
    requires
        is_arithmetic(*fpu),
        graph_wf(nodes_view(nodes@), dim),
        node < nodes@.len(),
        nodes_view(nodes@)[node as int].reaches(layer as int),
    ensures
        r@ == shrunk(
            arith_of(*fpu),
            metric,
            nodes_view(nodes@),
            node as int,
            layer as int,
            m_max as int,
        ),
{
    let ghost ar = arith_of(*fpu);
    let ghost all = nodes_view(nodes@);
    let ghost list = all[node as int].neighbors[layer as int];
    let ghost raw = neighbor_candidates(ar, metric, all, node as int, list);
    let base = nodes[node as usize].vector.as_slice();
    let len: usize = nodes[node as usize].neighbors[layer].len();
    let mut cands: Vec<Candidate> = Vec::new();
    let mut i: usize = 0;
    assert(raw.take(0) =~= Seq::<Candidate>::empty());
    while i < len
        invariant
            is_arithmetic(*fpu),
            ar == arith_of(*fpu),
            all == nodes_view(nodes@),
            graph_wf(all, dim),
            node < nodes@.len(),
            all[node as int].reaches(layer as int),
            list == all[node as int].neighbors[layer as int],
            raw == neighbor_candidates(ar, metric, all, node as int, list),
            base@ == all[node as int].vector,
            len == list.len(),
            i <= len,
            cands@ == raw.take(i as int),
        decreases len - i,
    {
        let nb: u32 = nodes[node as usize].neighbors[layer][i];
        assert(nb == all[node as int].neighbors[layer as int][i as int]);
        assert(all[node as int].vector.len() == dim && all[nb as int].vector.len() == dim);
        let distance: u32 = metric.measure(fpu, base, nodes[nb as usize].vector.as_slice());
        cands.push(Candidate { distance, label: nb as u64 });
        assert(raw.take(i as int + 1) =~= raw.take(i as int).push(raw[i as int]));
        i = i + 1;
    }
    assert(cands@ =~= raw);
    let sorted = rank(&cands);
    proof {
        lemma_ranked(raw);
        assert forall|p: int| 0 <= p < sorted@.len() implies (#[trigger] sorted@[p]).label
            < nodes@.len() by {
            broadcast use vstd::seq_lib::group_to_multiset_ensures;

            assert(sorted@.contains(sorted@[p]));
            assert(raw.to_multiset().count(sorted@[p]) > 0);
            let q = choose|q: int| 0 <= q < raw.len() && raw[q] == sorted@[p];
            assert(raw[q].label == all[node as int].neighbors[layer as int][q]);
        }
    }
    select_neighbors(nodes, metric, fpu, &sorted, m_max, Ghost(dim))
}

/// Gives every chosen node the new node as a neighbor.
fn link_back<F: Fn(FloatOp, u64, u64) -> u64>(
    nodes: &mut Vec<Node>,
    metric: DistanceMetric,
    fpu: &F,
    chosen: &Vec<u32>,
    layer: usize,
    m_max: usize,
    new_pos: u32,
    Ghost(dim): Ghost<nat>,
)
    requires
        is_arithmetic(*fpu),
        graph_wf(nodes_view(old(nodes)@), dim),
        forall|j: int|
            0 <= j < chosen@.len() ==> (#[trigger] chosen@[j]) < old(nodes)@.len() && nodes_view(
                old(nodes)@,
            )[chosen@[j] as int].reaches(layer as int),
        new_pos < old(nodes)@.len(),
        nodes_view(old(nodes)@)[new_pos as int].reaches(layer as int),
    ensures
        nodes_view(final(nodes)@) == all_back_linked(
            arith_of(*fpu),
            metric,
            nodes_view(old(nodes)@),
            chosen@,
            layer as int,
            m_max as int,
            new_pos,
        ),
        graph_wf(nodes_view(final(nodes)@), dim),
        same_points(nodes_view(old(nodes)@), nodes_view(final(nodes)@)),
{
    let ghost ar = arith_of(*fpu);
    let ghost first_view = nodes_view(nodes@);
    let mut i: usize = 0;
    assert(chosen@.take(0) =~= Seq::<u32>::empty());
    while i < chosen.len()
        invariant
            is_arithmetic(*fpu),
            ar == arith_of(*fpu),
            graph_wf(first_view, dim),
            forall|j: int|
                0 <= j < chosen@.len() ==> (#[trigger] chosen@[j]) < first_view.len()
                    && first_view[chosen@[j] as int].reaches(layer as int),
            new_pos < first_view.len(),
            first_view[new_pos as int].reaches(layer as int),
            i <= chosen@.len(),
            nodes_view(nodes@) == all_back_linked(
                ar,
                metric,
                first_view,
                chosen@.take(i as int),
                layer as int,
                m_max as int,
                new_pos,
            ),
            graph_wf(nodes_view(nodes@), dim),
            same_points(first_view, nodes_view(nodes@)),
        decreases chosen@.len() - i,
    {
        let nb: u32 = chosen[i];
        let ghost now = nodes_view(nodes@);
        assert(first_view[nb as int].neighbors.len() == now[nb as int].neighbors.len());
        proof {
            assert(now[new_pos as int].neighbors.len()
                == first_view[new_pos as int].neighbors.len());
            lemma_back_linked(
                ar,
                metric,
                now,
                dim,
                nb as int,
                layer as int,
                m_max as int,
                new_pos,
            );
            assert(chosen@.take(i as int + 1).drop_last() =~= chosen@.take(i as int));
        }
        push_link(nodes, nb as usize, layer, new_pos);
        let ghost grown = nodes_view(nodes@);
        assert(grown[nb as int].neighbors[layer as int].len()
            == nodes@[nb as int].neighbors@[layer as int]@.len());
        if nodes[nb as usize].neighbors[layer].len() > m_max {
            let short = shrink_neighbors(nodes, metric, fpu, nb, layer, m_max, Ghost(dim));
            set_list(nodes, nb as usize, layer, short);
        }
        i = i + 1;
    }
    assert(chosen@.take(i as int) =~= chosen@);
}

// ---------------------------------------------------------------------------
// Insertion
// ---------------------------------------------------------------------------

/// The parameters that linking goes by.
pub struct LinkRules {
    /// How many neighbors a new node gets on a layer. A list may grow to that
    /// length too, on layer 0 to twice that length.
    pub m: usize,
    /// The width of the beam that looks for them.
    pub ef_construction: usize,
}

/// How long a neighbor list may be on a layer.
pub open spec fn list_limit(m: int, layer: int) -> int {
    if layer == 0 {
        m * 2
    } else {
        m
    }
}

/// What a query sees of a layer when everything may be returned.
pub open spec fn open_terrain(
    ar: Arith,
    metric: DistanceMetric,
    nodes: Seq<NodeView>,
    layer: int,
    query: Seq<u32>,
) -> Terrain {
    layer_terrain(nodes, layer, distances(ar, metric, nodes, query), everyone(nodes))
}

/// The closest nodes that a beam finds for a node on a layer.
pub open spec fn link_candidates(
    ar: Arith,
    metric: DistanceMetric,
    rules: LinkRules,
    nodes: Seq<NodeView>,
    new_pos: u32,
    layer: int,
    ep: u32,
) -> Seq<Candidate> {
    beam_search(
        open_terrain(ar, metric, nodes, layer, nodes[new_pos as int].vector),
        ep,
        rules.ef_construction as int,
    ).best
}

/// The nodes after `new_pos` was linked on one layer: its neighbors chosen
/// among the candidates, and itself a neighbor of each of them.
pub open spec fn layer_linked(
    ar: Arith,
    metric: DistanceMetric,
    rules: LinkRules,
    nodes: Seq<NodeView>,
    new_pos: u32,
    layer: int,
    ep: u32,
) -> Seq<NodeView> {
    let cands = link_candidates(ar, metric, rules, nodes, new_pos, layer, ep);
    let chosen = selected(ar, metric, nodes, cands, rules.m as int);
    with_list(
        all_back_linked(
            ar,
            metric,
            nodes,
            chosen,
            layer,
            list_limit(rules.m as int, layer),
            new_pos,
        ),
        new_pos as int,
        layer,
        chosen,
    )
}

/// The nodes after `new_pos` was linked on `layer` and on every layer below;
/// each layer starts from the closest node found on the one above.
pub open spec fn layers_linked(
    ar: Arith,
    metric: DistanceMetric,
    rules: LinkRules,
    nodes: Seq<NodeView>,
    new_pos: u32,
    layer: int,
    ep: u32,
) -> Seq<NodeView>
    decreases layer + 1,
{
    if layer < 0 {
        nodes
    } else {
        let cands = link_candidates(ar, metric, rules, nodes, new_pos, layer, ep);
        layers_linked(
            ar,
            metric,
            rules,
            layer_linked(ar, metric, rules, nodes, new_pos, layer, ep),
            new_pos,
            layer - 1,
            cands[0].label as u32,
        )
    }
}

/// A beam never loses results in number.
pub proof fn lemma_beam_grows(t: Terrain, b: Beam, ef: int)
    requires
        t.wf(),
        beam_wf(t, b),
    ensures
        beam_run(t, b, ef).best.len() >= b.best.len(),
    decreases steps_left(b),
{
    if b.frontier.len() > 0 {
        lemma_beam_turn(t, b, ef);
        if !settled(b, ef, b.frontier[0]) {
            let list = t.links[b.frontier[0].label as int];
            lemma_visits_grow(t, advanced(b), ef, list);
            lemma_beam_grows(t, visit_all(t, advanced(b), ef, list), ef);
        }
    }
}

proof fn lemma_visits_grow(t: Terrain, b: Beam, ef: int, list: Seq<u32>)
    requires
        t.wf(),
        beam_wf(t, b),
        forall|j: int| #![trigger list[j]] 0 <= j < list.len() ==> t.holds(list[j]),
    ensures
        visit_all(t, b, ef, list).best.len() >= b.best.len(),
    decreases list.len(),
{
    if list.len() > 0 {
        let front = list.drop_last();
        assert forall|j: int| #![trigger front[j]] 0 <= j < front.len() implies t.holds(
            front[j],
        ) by {
            assert(front[j] == list[j]);
        }
        lemma_visits_grow(t, b, ef, front);
        lemma_visit_all(t, b, ef, front);
        let mid = visit_all(t, b, ef, front);
        lemma_kept(mid.best, t.candidate(list.last()), ef);
    }
}

/// The candidates for linking: at least one, all on the layer, all at their
/// distance, and none twice.
pub proof fn lemma_link_candidates(
    ar: Arith,
    metric: DistanceMetric,
    rules: LinkRules,
    nodes: Seq<NodeView>,
    dim: nat,
    new_pos: u32,
    layer: int,
    ep: u32,
)
    requires
        graph_wf(nodes, dim),
        0 <= layer,
        ep < nodes.len(),
        nodes[ep as int].reaches(layer),
    ensures
        ({
            let t = open_terrain(ar, metric, nodes, layer, nodes[new_pos as int].vector);
            let cands = link_candidates(ar, metric, rules, nodes, new_pos, layer, ep);
            &&& t.wf()
            &&& beam_wf(t, beam_search(t, ep, rules.ef_construction as int))
            &&& cands.len() >= 1
            &&& are_nodes(cands, nodes.len())
            &&& forall|i: int|
                0 <= i < cands.len() ==> nodes[(#[trigger] cands[i]).label as int].reaches(layer)
                    && cands[i].distance == t.dist[cands[i].label as int]
            &&& cands.no_duplicates()
            &&& ascending(cands)
        }),
{
    let query = nodes[new_pos as int].vector;
    let dist = distances(ar, metric, nodes, query);
    let t = open_terrain(ar, metric, nodes, layer, query);
    lemma_layer_terrain(nodes, dim, layer, dist, everyone(nodes));
    lemma_beam_start(t, ep);
    let ef = rules.ef_construction as int;
    lemma_beam_run(t, beam_start(t, ep), ef);
    lemma_beam_grows(t, beam_start(t, ep), ef);
    let cands = link_candidates(ar, metric, rules, nodes, new_pos, layer, ep);
    let end = beam_search(t, ep, ef);
    assert forall|i: int| 0 <= i < cands.len() implies (#[trigger] cands[i]).label < nodes.len()
        && nodes[cands[i].label as int].reaches(layer) && cands[i].distance
        == t.dist[cands[i].label as int] by {
        assert(end.best.contains(cands[i]));
        assert(seen(t, end.visited, cands[i]));
    }
}

/// Linking on a layer keeps the graph well formed and changes no node but its
/// edges.
pub proof fn lemma_layer_linked(
    ar: Arith,
    metric: DistanceMetric,
    rules: LinkRules,
    nodes: Seq<NodeView>,
    dim: nat,
    new_pos: u32,
    layer: int,
    ep: u32,
)
    requires
        graph_wf(nodes, dim),
        0 <= layer,
        ep < nodes.len(),
        nodes[ep as int].reaches(layer),
        new_pos < nodes.len(),
        nodes[new_pos as int].reaches(layer),
    ensures
        ({
            let cands = link_candidates(ar, metric, rules, nodes, new_pos, layer, ep);
            let chosen = selected(ar, metric, nodes, cands, rules.m as int);
            &&& forall|j: int|
                0 <= j < chosen.len() ==> (#[trigger] chosen[j]) < nodes.len()
                    && nodes[chosen[j] as int].reaches(layer)
        }),
        graph_wf(layer_linked(ar, metric, rules, nodes, new_pos, layer, ep), dim),
        same_points(nodes, layer_linked(ar, metric, rules, nodes, new_pos, layer, ep)),
{
    lemma_link_candidates(ar, metric, rules, nodes, dim, new_pos, layer, ep);
    let cands = link_candidates(ar, metric, rules, nodes, new_pos, layer, ep);
    let chosen = selected(ar, metric, nodes, cands, rules.m as int);
    lemma_selected(ar, metric, nodes, cands, rules.m as int);
    assert forall|j: int| 0 <= j < chosen.len() implies (#[trigger] chosen[j]) < nodes.len()
        && nodes[chosen[j] as int].reaches(layer) by {
        assert(labels(cands).contains(chosen[j]));
        let p = choose|p: int| 0 <= p < labels(cands).len() && labels(cands)[p] == chosen[j];
        assert(cands[p].label < nodes.len());
    }
    let limit = list_limit(rules.m as int, layer);
    lemma_all_back_linked(ar, metric, nodes, dim, chosen, layer, limit, new_pos);
    let mid = all_back_linked(ar, metric, nodes, chosen, layer, limit, new_pos);
    assert(mid[new_pos as int].neighbors.len() == nodes[new_pos as int].neighbors.len());
    assert forall|j: int| 0 <= j < chosen.len() implies (#[trigger] chosen[j]) < mid.len()
        && mid[chosen[j] as int].reaches(layer) by {
        assert(mid[chosen[j] as int].neighbors.len() == nodes[chosen[j] as int].neighbors.len());
    }
    lemma_with_list(mid, dim, new_pos as int, layer, chosen);
}

/// Two graphs that share their points with a third share them.
pub proof fn lemma_same_points_chain(a: Seq<NodeView>, b: Seq<NodeView>, c: Seq<NodeView>)
    requires
        same_points(a, b),
        same_points(b, c),
    ensures
        same_points(a, c),
{
    assert forall|i: int|
        #![trigger a[i]]
        #![trigger c[i]]
        0 <= i < a.len() implies a[i].id == c[i].id && a[i].vector == c[i].vector && a[i].deleted
        == c[i].deleted && a[i].payload == c[i].payload && a[i].neighbors.len()
        == c[i].neighbors.len() by {
        assert(b[i].id == a[i].id);
    }
}

/// Linking on all layers keeps the graph well formed and changes no node but
/// its edges.
pub proof fn lemma_layers_linked(
    ar: Arith,
    metric: DistanceMetric,
    rules: LinkRules,
    nodes: Seq<NodeView>,
    dim: nat,
    new_pos: u32,
    layer: int,
    ep: u32,
)
    requires
        graph_wf(nodes, dim),
        -1 <= layer,
        ep < nodes.len(),
        nodes[ep as int].reaches(layer),
        new_pos < nodes.len(),
        nodes[new_pos as int].reaches(layer),
    ensures
        graph_wf(layers_linked(ar, metric, rules, nodes, new_pos, layer, ep), dim),
        same_points(nodes, layers_linked(ar, metric, rules, nodes, new_pos, layer, ep)),
    decreases layer + 1,
{
    if layer >= 0 {
        lemma_link_candidates(ar, metric, rules, nodes, dim, new_pos, layer, ep);
        lemma_layer_linked(ar, metric, rules, nodes, dim, new_pos, layer, ep);
        let cands = link_candidates(ar, metric, rules, nodes, new_pos, layer, ep);
        let mid = layer_linked(ar, metric, rules, nodes, new_pos, layer, ep);
        let next = cands[0].label as u32;
        assert(mid[next as int].neighbors.len() == nodes[next as int].neighbors.len());
        assert(mid[new_pos as int].neighbors.len() == nodes[new_pos as int].neighbors.len());
        lemma_layers_linked(ar, metric, rules, mid, dim, new_pos, layer - 1, next);
        lemma_same_points_chain(
            nodes,
            mid,
            layers_linked(ar, metric, rules, mid, new_pos, layer - 1, next),
        );
    }
}

/// Graphs with the same points are at the same distances.
pub proof fn lemma_same_distances(
    ar: Arith,
    metric: DistanceMetric,
    a: Seq<NodeView>,
    b: Seq<NodeView>,
    query: Seq<u32>,
)
    requires
        same_points(a, b),
    ensures
        distances(ar, metric, a, query) == distances(ar, metric, b, query),
{
    assert forall|i: int| 0 <= i < a.len() implies distances(ar, metric, a, query)[i]
        == distances(ar, metric, b, query)[i] by {
        assert(a[i].vector == b[i].vector);
    }
    assert(distances(ar, metric, a, query) =~= distances(ar, metric, b, query));
}

/// Links a new node on one layer and gives the closest node found there.
fn link_layer<F: Fn(FloatOp, u64, u64) -> u64>(
    nodes: &mut Vec<Node>,
    metric: DistanceMetric,
    fpu: &F,
    rules: &LinkRules,
    query: &[u32],
    new_pos: u32,
    layer: usize,
    ep: u32,
    ep_dist: u32,
) -> (r: (u32, u32))
    requires
        is_arithmetic(*fpu),
        rules.m * 2 <= usize::MAX,
        graph_wf(nodes_view(old(nodes)@), query@.len()),
        new_pos < old(nodes)@.len(),
        query@ == nodes_view(old(nodes)@)[new_pos as int].vector,
        nodes_view(old(nodes)@)[new_pos as int].reaches(layer as int),
        ep < old(nodes)@.len(),
        nodes_view(old(nodes)@)[ep as int].reaches(layer as int),
        ep_dist == distances(arith_of(*fpu), metric, nodes_view(old(nodes)@), query@)[ep as int],
    ensures
        ({
            let ar = arith_of(*fpu);
            let was = nodes_view(old(nodes)@);
            let now = nodes_view(final(nodes)@);
            let cands = link_candidates(ar, metric, *rules, was, new_pos, layer as int, ep);
            &&& now == layer_linked(ar, metric, *rules, was, new_pos, layer as int, ep)
            &&& graph_wf(now, query@.len())
            &&& same_points(was, now)
            &&& r.0 == cands[0].label as u32
            &&& r.0 < now.len()
            &&& now[r.0 as int].reaches(layer as int)
            &&& r.1 == distances(ar, metric, now, query@)[r.0 as int]
        }),
{
    let ghost ar = arith_of(*fpu);
    let ghost was = nodes_view(nodes@);
    let ghost dim = query@.len();
    proof {
        lemma_link_candidates(ar, metric, *rules, was, dim, new_pos, layer as int, ep);
        lemma_layer_linked(ar, metric, *rules, was, dim, new_pos, layer as int, ep);
    }
    let admission = Admission::Everything;
    let (cands, _events) = search_layer(
        nodes,
        metric,
        fpu,
        query,
        ep,
        ep_dist,
        rules.ef_construction,
        layer,
        &admission,
        false,
    );
    let chosen = select_neighbors(nodes, metric, fpu, &cands, rules.m, Ghost(dim));
    let m_max: usize = if layer == 0 {
        rules.m * 2
    } else {
        rules.m
    };
    link_back(nodes, metric, fpu, &chosen, layer, m_max, new_pos, Ghost(dim));
    let ghost mid = nodes_view(nodes@);
    assert(mid[new_pos as int].neighbors.len() == was[new_pos as int].neighbors.len());
    set_list(nodes, new_pos as usize, layer, chosen);
    let closest = cands[0];
    let ghost now = nodes_view(nodes@);
    proof {
        lemma_same_distances(ar, metric, was, now, query@);
        assert(was[closest.label as int].neighbors.len()
            == now[closest.label as int].neighbors.len());
    }
    (closest.label as u32, closest.distance)
}

/// Links a new node on a layer and on every layer below.
pub(crate) fn link_layers<F: Fn(FloatOp, u64, u64) -> u64>(
    nodes: &mut Vec<Node>,
    metric: DistanceMetric,
    fpu: &F,
    rules: &LinkRules,
    query: &[u32],
    new_pos: u32,
    top: usize,
    ep: u32,
    ep_dist: u32,
)
    requires
        is_arithmetic(*fpu),
        rules.m * 2 <= usize::MAX,
        graph_wf(nodes_view(old(nodes)@), query@.len()),
        new_pos < old(nodes)@.len(),
        query@ == nodes_view(old(nodes)@)[new_pos as int].vector,
        nodes_view(old(nodes)@)[new_pos as int].reaches(top as int),
        ep < old(nodes)@.len(),
        nodes_view(old(nodes)@)[ep as int].reaches(top as int),
        ep_dist == distances(arith_of(*fpu), metric, nodes_view(old(nodes)@), query@)[ep as int],
    ensures
        nodes_view(final(nodes)@) == layers_linked(
            arith_of(*fpu),
            metric,
            *rules,
            nodes_view(old(nodes)@),
            new_pos,
            top as int,
            ep,
        ),
        graph_wf(nodes_view(final(nodes)@), query@.len()),
        same_points(nodes_view(old(nodes)@), nodes_view(final(nodes)@)),
    decreases top,
{
    let ghost was = nodes_view(nodes@);
    let (next, next_dist) = link_layer(
        nodes,
        metric,
        fpu,
        rules,
        query,
        new_pos,
        top,
        ep,
        ep_dist,
    );
    let ghost mid = nodes_view(nodes@);
    proof {
        assert(mid[new_pos as int].vector == was[new_pos as int].vector);
        assert(mid[new_pos as int].neighbors.len() == was[new_pos as int].neighbors.len());
    }
    if top > 0 {
        link_layers(
            nodes,
            metric,
            fpu,
            rules,
            query,
            new_pos,
            top - 1,
            next,
            next_dist,
        );
        proof {
            lemma_same_points_chain(was, mid, nodes_view(nodes@));
        }
    } else {
        assert(layers_linked(
            arith_of(*fpu),
            metric,
            *rules,
            mid,
            new_pos,
            -1,
            next,
        ) == mid);
    }
}

} // verus!
