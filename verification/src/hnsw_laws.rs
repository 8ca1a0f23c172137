//! What an HNSW index promises.
use crate::beam::seen;
use crate::beam_laws::{law_beam_does_not_starve, reachable};
use crate::candidate::{
    ascending, before, first, lemma_ascending_unique, lemma_ranked, lemma_ranked_distances, ranked,
    Candidate,
};
use crate::distance::DistanceMetric;
use crate::float::{total_key, Arith};
use crate::graph::NodeView;
use crate::hnsw::{
    lemma_found, lemma_inserted, lemma_node_matches, lemma_search_beam, lemma_walked, node_hits,
    node_points, placed_points, relabeled, HnswView,
};
use crate::index::{Record, SearchResult};
use crate::json::JsonView;
use crate::payload::{passes, FilterView};
use crate::records::{
    exact_hits, lemma_matches_count, lemma_matches_of, lemma_rearranged, live_count, live_records,
    matches_of, Point,
};
use crate::vector::VectorId;
use vstd::prelude::*;

verus! {

/// The hit that a node is for a query.
pub open spec fn node_hit(v: HnswView, ar: Arith, query: Seq<u32>, n: int) -> SearchResult {
    SearchResult {
        id: VectorId(v.nodes[n].id),
        distance: v.metric.between(ar, query, v.nodes[n].vector),
    }
}

/// Whether a search may return a node: it is live and passes the filter.
pub open spec fn wanted(v: HnswView, filter: Option<FilterView>, n: int) -> bool {
    0 <= n < v.nodes.len() && !v.nodes[n].deleted && passes(filter, v.nodes[n].payload)
}

/// Whether a search for a query can get to a node.
pub open spec fn within_reach(
    v: HnswView,
    ar: Arith,
    query: Seq<u32>,
    filter: Option<FilterView>,
    n: int,
) -> bool {
    reachable(v.ground(ar, query, filter), v.landing(ar, query), n)
}

/// A search yields `k` hits, or else every vector that it wants: a `k` above
/// the number of vectors yields all of them, and a filter does not starve it.
pub proof fn law_search_finds_k_or_all(
    v: HnswView,
    ar: Arith,
    query: Seq<u32>,
    k: usize,
    ef: usize,
    filter: Option<FilterView>,
)
    requires
        v.wf(),
    ensures
        v.found(ar, query, k, ef, filter).len() == if k < matches_of(
            v.points(),
            v.metric,
            ar,
            query,
            filter,
        ).len() {
            k as nat
        } else {
            matches_of(v.points(), v.metric, ar, query, filter).len()
        },
        v.found(ar, query, k, ef, filter).len() < k ==> forall|n: int|
            #![trigger v.nodes[n]]
            wanted(v, filter, n) ==> v.found(ar, query, k, ef, filter).contains(
                node_hit(v, ar, query, n),
            ),
{
    lemma_found(v, ar, query, k, ef, filter);
    lemma_matches_count(v.points(), v.metric, ar, query, filter);
    let found = v.found(ar, query, k, ef, filter);
    if found.len() < k {
        let placed = placed_points(v.nodes);
        let cands = v.node_matches(ar, query, filter);
        let order = ranked(cands);
        lemma_node_matches(v, ar, query, filter);
        lemma_matches_of(placed, v.metric, ar, query, filter);
        lemma_ranked(cands);
        lemma_rearranged(cands, order);
        assert forall|n: int|
            #![trigger v.nodes[n]]
            wanted(v, filter, n) implies found.contains(node_hit(v, ar, query, n)) by {
            assert(placed[n].live);
            let c = Candidate {
                distance: v.metric.between(ar, query, v.nodes[n].vector),
                label: n as u64,
            };
            assert(cands.contains(c));
            assert(order.contains(c));
            let i = choose|i: int| 0 <= i < order.len() && order[i] == c;
            assert(found[i] == node_hit(v, ar, query, n));
        }
    }
}

/// A walk that can get to every vector that it wants is enough: the hits are
/// what it came by, `k` of them or not.
pub proof fn law_scan_adds_nothing_to_a_full_walk(
    v: HnswView,
    ar: Arith,
    query: Seq<u32>,
    k: usize,
    ef: usize,
    filter: Option<FilterView>,
)
    requires
        v.wf(),
        v.entry is Some,
        all_within_reach(v, ar, query, filter),
    ensures
        v.found(ar, query, k, ef, filter) == node_hits(v.nodes, v.walked(ar, query, k, ef, filter)),
{
    let near = v.walked(ar, query, k, ef, filter);
    if near.len() < k {
        if v.searchable() {
            lemma_full_walk(v, ar, query, k, ef, filter);
        } else {
            law_nothing_live_nothing_found(v, ar, query, k, ef, filter);
            assert(v.found(ar, query, k, ef, filter) =~= node_hits(v.nodes, near));
        }
    }
}

/// Whether a search can get to every vector that it wants.
pub open spec fn all_within_reach(
    v: HnswView,
    ar: Arith,
    query: Seq<u32>,
    filter: Option<FilterView>,
) -> bool {
    forall|n: u32|
        #![trigger v.nodes[n as int]]
        wanted(v, filter, n as int) ==> within_reach(v, ar, query, filter, n as int)
}

/// Where a search can get to every vector that it wants and the beam has room
/// for them or is not full, the beam ends with all of them, ranked.
proof fn lemma_full_walk(
    v: HnswView,
    ar: Arith,
    query: Seq<u32>,
    k: usize,
    ef: usize,
    filter: Option<FilterView>,
)
    requires
        v.wf(),
        v.entry is Some,
        all_within_reach(v, ar, query, filter),
        v.search_beam(ar, query, k, ef, filter).best.len() < k || v.node_matches(
            ar,
            query,
            filter,
        ).len() <= k || v.node_matches(ar, query, filter).len() <= ef,
    ensures
        v.search_beam(ar, query, k, ef, filter).best == ranked(v.node_matches(ar, query, filter)),
{
    let t = v.ground(ar, query, filter);
    let ep = v.landing(ar, query);
    let width = if ef < k {
        k as int
    } else {
        ef as int
    };
    let placed = placed_points(v.nodes);
    let end = v.search_beam(ar, query, k, ef, filter);
    let best = end.best;
    let all = v.node_matches(ar, query, filter);
    lemma_search_beam(v, ar, query, k, ef, filter);
    lemma_node_matches(v, ar, query, filter);
    lemma_matches_of(placed, v.metric, ar, query, filter);
    lemma_ranked(all);
    assert forall|i: int| 0 <= i < best.len() implies seen(t, end.visited, #[trigger] best[i])
        && t.eligible[best[i].label as int] by {
        assert(best.contains(best[i]));
    }
    assert forall|c: Candidate| #[trigger] best.contains(c) implies all.contains(c) by {
        let i = choose|i: int| 0 <= i < best.len() && best[i] == c;
        let a = best[i].label as int;
        assert(placed[a].live && passes(filter, placed[a].record.payload));
    }
    assert forall|c: Candidate| #[trigger] all.contains(c) implies best.contains(c) by {
        if best.len() < width {
            let a = choose|a: int|
                #![trigger placed[a]]
                0 <= a < placed.len() && placed[a].live && passes(
                    filter,
                    placed[a].record.payload,
                ) && c == (Candidate {
                    distance: v.metric.between(ar, query, placed[a].record.vector),
                    label: placed[a].id,
                });
            let n = a as u32;
            assert(wanted(v, filter, n as int));
            assert(v.nodes[n as int] == v.nodes[a]);
            law_beam_does_not_starve(t, ep, width, n);
            assert(t.candidate(n) == c);
        } else {
            lemma_no_room_left(best, all);
        }
    }
    lemma_same_elements(best, all);
    lemma_ascending_unique(best, ranked(all));
}

/// Whether, of two wanted vectors at one distance, the one stored first has
/// the smaller id.
pub open spec fn ties_agree(
    v: HnswView,
    ar: Arith,
    query: Seq<u32>,
    filter: Option<FilterView>,
) -> bool {
    forall|i: int, j: int|
        #![trigger v.nodes[i], v.nodes[j]]
        0 <= i < j < v.nodes.len() && wanted(v, filter, i) && wanted(v, filter, j) && node_hit(
            v,
            ar,
            query,
            i,
        ).distance == node_hit(v, ar, query, j).distance ==> v.nodes[i].id < v.nodes[j].id
}

pub(crate) proof fn lemma_same_elements(a: Seq<Candidate>, b: Seq<Candidate>)
    requires
        a.no_duplicates(),
        b.no_duplicates(),
        forall|c: Candidate| #[trigger] a.contains(c) <==> b.contains(c),
    ensures
        a.to_multiset() == b.to_multiset(),
{
    broadcast use vstd::seq_lib::group_to_multiset_ensures;

    a.lemma_multiset_has_no_duplicates();
    b.lemma_multiset_has_no_duplicates();
    assert forall|c: Candidate| #[trigger] a.to_multiset().count(c) == b.to_multiset().count(c) by {
        assert(a.contains(c) <==> a.to_multiset().count(c) > 0);
        assert(b.contains(c) <==> b.to_multiset().count(c) > 0);
        if a.contains(c) {
            assert(a.to_multiset().contains(c));
            assert(b.to_multiset().contains(c));
        }
    }
    assert(a.to_multiset() =~= b.to_multiset());
}

proof fn lemma_no_room_left(a: Seq<Candidate>, b: Seq<Candidate>)
    requires
        a.no_duplicates(),
        b.no_duplicates(),
        forall|c: Candidate| #[trigger] a.contains(c) ==> b.contains(c),
        a.len() >= b.len(),
    ensures
        forall|c: Candidate| #[trigger] b.contains(c) ==> a.contains(c),
{
    a.unique_seq_to_set();
    b.unique_seq_to_set();
    let sa = a.to_set();
    let sb = b.to_set();
    assert(sa.subset_of(sb)) by {
        assert forall|c: Candidate| sa.contains(c) implies sb.contains(c) by {
            assert(a.contains(c));
            assert(b.contains(c));
        }
    }
    vstd::set_lib::lemma_len_subset(sa, sb);
    vstd::set_lib::lemma_subset_equality(sa, sb);
    assert forall|c: Candidate| #[trigger] b.contains(c) implies a.contains(c) by {
        assert(sb.contains(c));
        assert(sa.contains(c));
    }
}

/// A scan of the nodes and the exact answer agree: as many hits, the same
/// distance at every place, and where ties agree the same hits.
proof fn lemma_scan_is_exact(
    v: HnswView,
    ar: Arith,
    query: Seq<u32>,
    k: usize,
    filter: Option<FilterView>,
)
    requires
        v.wf(),
    ensures
        agrees(
            node_hits(v.nodes, v.scanned(ar, query, k, filter)),
            exact_hits(v.points(), v.metric, ar, query, k as int, filter),
        ),
        ties_agree(v, ar, query, filter) ==> node_hits(v.nodes, v.scanned(ar, query, k, filter))
            == exact_hits(v.points(), v.metric, ar, query, k as int, filter),
{
    let points = v.points();
    let cands = v.node_matches(ar, query, filter);
    let all = matches_of(points, v.metric, ar, query, filter);
    let order = ranked(cands);
    let exact = ranked(all);
    lemma_node_matches(v, ar, query, filter);
    lemma_matches_of(points, v.metric, ar, query, filter);
    lemma_ranked(cands);
    lemma_ranked(all);
    assert(all == relabeled(v.nodes, cands));
    lemma_ranked_distances(cands, all);
    let hits = node_hits(v.nodes, v.scanned(ar, query, k, filter));
    let exact_found = exact_hits(points, v.metric, ar, query, k as int, filter);
    assert forall|i: int| #![trigger hits[i]] 0 <= i < hits.len() implies hits[i].distance
        == exact_found[i].distance by {
        assert(order[i].distance == exact[i].distance);
    }
    if ties_agree(v, ar, query, filter) {
        lemma_ties(v, ar, query, filter);
        assert(hits =~= exact_found) by {
            assert forall|i: int| 0 <= i < hits.len() implies hits[i] == exact_found[i] by {
                assert(relabeled(v.nodes, order)[i] == exact[i]);
            }
        }
    }
}

/// Where ties agree, ranking by place and ranking by id come to the same.
proof fn lemma_ties(v: HnswView, ar: Arith, query: Seq<u32>, filter: Option<FilterView>)
    requires
        v.wf(),
        ties_agree(v, ar, query, filter),
    ensures
        relabeled(v.nodes, ranked(v.node_matches(ar, query, filter))) == ranked(
            matches_of(v.points(), v.metric, ar, query, filter),
        ),
{
    let points = v.points();
    let placed = placed_points(v.nodes);
    let cands = v.node_matches(ar, query, filter);
    let all = matches_of(points, v.metric, ar, query, filter);
    let order = ranked(cands);
    let ids = relabeled(v.nodes, order);
    lemma_node_matches(v, ar, query, filter);
    lemma_matches_of(placed, v.metric, ar, query, filter);
    lemma_matches_of(points, v.metric, ar, query, filter);
    lemma_ranked(cands);
    lemma_ranked(all);
    lemma_rearranged(cands, order);
    assert forall|i: int| 0 <= i < order.len() implies {
        let n = (#[trigger] order[i]).label as int;
        &&& wanted(v, filter, n)
        &&& order[i].distance == node_hit(v, ar, query, n).distance
        &&& n == order[i].label
    } by {
        assert(order.contains(order[i]));
        assert(cands.contains(order[i]));
        let j = choose|j: int|
            #![trigger placed[j]]
            0 <= j < placed.len() && placed[j].live && passes(filter, placed[j].record.payload)
                && order[i] == (Candidate {
                distance: v.metric.between(ar, query, placed[j].record.vector),
                label: placed[j].id,
            });
        assert(placed[j].id == j);
    }
    assert forall|i: int, j: int| 0 <= i < ids.len() && 0 <= j < ids.len() && i != j implies ids[i]
        != ids[j] by {
        let a = order[i].label as int;
        let b = order[j].label as int;
        assert(points[a].live && points[b].live);
        if ids[i] == ids[j] {
            assert(a == b);
            assert(order[i] == order[j]);
        }
    }
    assert forall|c: Candidate| #[trigger] ids.contains(c) implies all.contains(c) by {
        let i = choose|i: int| 0 <= i < ids.len() && ids[i] == c;
        let a = order[i].label as int;
        assert(points[a].live && passes(filter, points[a].record.payload));
    }
    lemma_no_room_left(ids, all);
    lemma_same_elements(ids, all);
    assert(ascending(ids)) by {
        assert forall|i: int, j: int| 0 <= i < j < ids.len() implies !before(ids[j], ids[i]) by {
            let a = order[i].label as int;
            let b = order[j].label as int;
            assert(!before(order[j], order[i]));
            if total_key(order[i].distance) == total_key(order[j].distance) {
                crate::float::lemma_total_order_refines_less(order[i].distance, order[j].distance);
                assert(wanted(v, filter, a) && wanted(v, filter, b));
                if a == b {
                    assert(order[i] == order[j]);
                }
                assert(v.nodes[a].id < v.nodes[b].id);
            }
        }
    }
    lemma_ascending_unique(ids, ranked(all));
}

/// Whether two answers have as many hits, and the same distance at every
/// place.
pub open spec fn agrees(a: Seq<SearchResult>, b: Seq<SearchResult>) -> bool {
    &&& a.len() == b.len()
    &&& forall|i: int| #![trigger a[i]] 0 <= i < a.len() ==> a[i].distance == b[i].distance
}

/// A walk that comes by fewer than `k` hits is made up for exactly: the search
/// then agrees with looking at every vector.
pub proof fn law_short_walk_is_made_up_for(
    v: HnswView,
    ar: Arith,
    query: Seq<u32>,
    k: usize,
    ef: usize,
    filter: Option<FilterView>,
)
    requires
        v.wf(),
        v.walked(ar, query, k, ef, filter).len() < k,
    ensures
        agrees(
            v.found(ar, query, k, ef, filter),
            exact_hits(v.points(), v.metric, ar, query, k as int, filter),
        ),
        ties_agree(v, ar, query, filter) ==> v.found(ar, query, k, ef, filter) == exact_hits(
            v.points(),
            v.metric,
            ar,
            query,
            k as int,
            filter,
        ),
{
    lemma_scan_is_exact(v, ar, query, k, filter);
}

/// A search for as many hits as there are vectors that it wants, or more,
/// agrees with looking at every vector, whatever the graph.
pub proof fn law_search_for_all_is_exact(
    v: HnswView,
    ar: Arith,
    query: Seq<u32>,
    k: usize,
    ef: usize,
    filter: Option<FilterView>,
)
    requires
        v.wf(),
        matches_of(v.points(), v.metric, ar, query, filter).len() <= k,
    ensures
        agrees(
            v.found(ar, query, k, ef, filter),
            exact_hits(v.points(), v.metric, ar, query, k as int, filter),
        ),
        ties_agree(v, ar, query, filter) ==> v.found(ar, query, k, ef, filter) == exact_hits(
            v.points(),
            v.metric,
            ar,
            query,
            k as int,
            filter,
        ),
{
    lemma_scan_is_exact(v, ar, query, k, filter);
    let near = v.walked(ar, query, k, ef, filter);
    if near.len() >= k {
        let placed = placed_points(v.nodes);
        let all = v.node_matches(ar, query, filter);
        lemma_walked(v, ar, query, k, ef, filter);
        lemma_node_matches(v, ar, query, filter);
        lemma_matches_of(placed, v.metric, ar, query, filter);
        lemma_ranked(all);
        assert(relabeled(v.nodes, all).len() == all.len());
        assert forall|i: int, j: int|
            0 <= i < near.len() && 0 <= j < near.len() && i != j implies near[i] != near[j] by {
            if i < j {
                assert(near[i].label != near[j].label);
            } else {
                assert(near[j].label != near[i].label);
            }
        }
        assert forall|c: Candidate| #[trigger] near.contains(c) implies all.contains(c) by {
            let i = choose|i: int| 0 <= i < near.len() && near[i] == c;
            assert(placed[near[i].label as int].live);
        }
        lemma_no_room_left(near, all);
        lemma_same_elements(near, all);
        lemma_ascending_unique(near, ranked(all));
        lemma_rearranged(all, near);
    }
}

/// A beam that is wide enough is exact: where a search can get to every
/// vector that it wants, and its beam is at least as wide as their number, it
/// agrees with looking at every vector. Of two vectors at one distance, the
/// search prefers the one stored first and the exact answer the one with the
/// smaller id; where the two do not differ, the hits are the same.
pub proof fn law_wide_beam_is_exact(
    v: HnswView,
    ar: Arith,
    query: Seq<u32>,
    k: usize,
    ef: usize,
    filter: Option<FilterView>,
)
    requires
        v.wf(),
        v.entry is Some,
        all_within_reach(v, ar, query, filter),
        matches_of(v.points(), v.metric, ar, query, filter).len() <= k || matches_of(
            v.points(),
            v.metric,
            ar,
            query,
            filter,
        ).len() <= ef,
    ensures
        agrees(
            v.found(ar, query, k, ef, filter),
            exact_hits(v.points(), v.metric, ar, query, k as int, filter),
        ),
        ties_agree(v, ar, query, filter) ==> v.found(ar, query, k, ef, filter) == exact_hits(
            v.points(),
            v.metric,
            ar,
            query,
            k as int,
            filter,
        ),
{
    lemma_scan_is_exact(v, ar, query, k, filter);
    lemma_node_matches(v, ar, query, filter);
    assert(relabeled(v.nodes, v.node_matches(ar, query, filter)).len() == v.node_matches(
        ar,
        query,
        filter,
    ).len());
    if v.walked(ar, query, k, ef, filter).len() >= k && v.searchable() {
        lemma_full_walk(v, ar, query, k, ef, filter);
    } else if !v.searchable() && k == 0 {
        assert(node_hits(v.nodes, v.scanned(ar, query, k, filter)) =~= v.found(
            ar,
            query,
            k,
            ef,
            filter,
        ));
    }
}

proof fn lemma_none_live(
    points: Seq<Point>,
    metric: DistanceMetric,
    ar: Arith,
    query: Seq<u32>,
    filter: Option<FilterView>,
)
    requires
        live_count(points) == 0,
    ensures
        matches_of(points, metric, ar, query, filter).len() == 0,
    decreases points.len(),
{
    if points.len() > 0 {
        lemma_none_live(points.drop_last(), metric, ar, query, filter);
    }
}

/// An index without live vectors gives no hits, by the walk or by the scan.
pub proof fn law_nothing_live_nothing_found(
    v: HnswView,
    ar: Arith,
    query: Seq<u32>,
    k: usize,
    ef: usize,
    filter: Option<FilterView>,
)
    requires
        live_count(v.points()) == 0,
    ensures
        v.found(ar, query, k, ef, filter).len() == 0,
        exact_hits(v.points(), v.metric, ar, query, k as int, filter).len() == 0,
{
    lemma_none_live(v.points(), v.metric, ar, query, filter);
    let all = matches_of(v.points(), v.metric, ar, query, filter);
    lemma_ranked(all);
    lemma_none_placed(v.nodes, v.nodes.len() as int);
    assert(placed_points(v.nodes).take(v.nodes.len() as int) =~= placed_points(v.nodes));
    assert(v.points().take(v.nodes.len() as int) =~= v.points());
    lemma_none_live(placed_points(v.nodes), v.metric, ar, query, filter);
    lemma_ranked(v.node_matches(ar, query, filter));
}

proof fn lemma_none_placed(nodes: Seq<NodeView>, n: int)
    requires
        0 <= n <= nodes.len(),
    ensures
        live_count(placed_points(nodes).take(n)) == live_count(node_points(nodes).take(n)),
    decreases n,
{
    if n > 0 {
        lemma_none_placed(nodes, n - 1);
        assert(placed_points(nodes).take(n).drop_last() =~= placed_points(nodes).take(n - 1));
        assert(node_points(nodes).take(n).drop_last() =~= node_points(nodes).take(n - 1));
    }
}

/// An id that no live vector has never surfaces: in particular not one that
/// was removed, although its node still routes searches.
pub proof fn law_removed_ids_never_surface(
    v: HnswView,
    ar: Arith,
    query: Seq<u32>,
    k: usize,
    ef: usize,
    filter: Option<FilterView>,
    id: u64,
    i: int,
)
    requires
        v.wf(),
        !live_records(v.points()).contains_key(id),
        0 <= i < v.found(ar, query, k, ef, filter).len(),
    ensures
        v.found(ar, query, k, ef, filter)[i].id != VectorId(id),
{
    lemma_found(v, ar, query, k, ef, filter);
}

/// Removing a vector leaves the graph as it is: the same nodes at the same
/// places with the same neighbors, so that searches are routed as before.
pub proof fn law_removal_keeps_the_graph(v: HnswView, at: int)
    requires
        0 <= at < v.nodes.len(),
    ensures
        v.retired(at).nodes.len() == v.nodes.len(),
        v.retired(at).entry == v.entry,
        v.retired(at).max_layer == v.max_layer,
        v.retired(at).rng == v.rng,
        forall|i: int|
            #![trigger v.retired(at).nodes[i]]
            0 <= i < v.nodes.len() ==> {
                &&& v.retired(at).nodes[i].neighbors == v.nodes[i].neighbors
                &&& v.retired(at).nodes[i].vector == v.nodes[i].vector
                &&& v.retired(at).nodes[i].id == v.nodes[i].id
            },
{
}

/// A vector can be stored again under an id that was removed: it is then held
/// under that id as it was stored last.
pub proof fn law_removed_id_can_be_stored_again(
    v: HnswView,
    ar: Arith,
    id: u64,
    vector: Seq<u32>,
    payload: Option<JsonView>,
)
    requires
        v.wf(),
        v.nodes.len() < 0x1_0000_0000,
        vector.len() == v.dim,
        !live_records(v.points()).contains_key(id),
    ensures
        v.inserted(ar, id, vector, payload).wf(),
        live_records(v.inserted(ar, id, vector, payload).points()).contains_key(id),
        live_records(v.inserted(ar, id, vector, payload).points())[id] == (Record {
            vector,
            payload,
        }),
        forall|other: u64|
            other != id ==> (live_records(v.points()).contains_key(other) <==> #[trigger]
            live_records(v.inserted(ar, id, vector, payload).points()).contains_key(other)),
{
    lemma_inserted(v, ar, id, vector, payload);
}

/// A traced search measures at least as many distances as its beam looks at
/// nodes, and its beam looks at one node or more.
pub proof fn law_trace_counts(
    v: HnswView,
    ar: Arith,
    query: Seq<u32>,
    k: usize,
    ef: usize,
    filter: Option<FilterView>,
)
    requires
        v.wf(),
        v.searchable(),
        v.nodes.len() <= usize::MAX,
    ensures
        v.trace(ar, query, k, ef, filter).visited == v.trace(ar, query, k, ef, filter).beam.len(),
        0 < v.trace(ar, query, k, ef, filter).visited <= v.nodes.len(),
        v.trace(ar, query, k, ef, filter).distance_evals >= v.trace(
            ar,
            query,
            k,
            ef,
            filter,
        ).visited,
{
    let t = v.ground(ar, query, filter);
    let end = v.search_beam(ar, query, k, ef, filter);
    lemma_search_beam(v, ar, query, k, ef, filter);
    let width = if ef < k {
        k as int
    } else {
        ef as int
    };
    crate::beam::lemma_beam_start(t, v.landing(ar, query));
    crate::beam_laws::lemma_events_grow(
        t,
        crate::beam::beam_start(t, v.landing(ar, query)),
        width,
    );
}

} // verus!
