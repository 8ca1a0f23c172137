//! The order of answers, and what is measured of them.
use crate::bench::{fails_first, found_of, truth_of};
use crate::candidate::{before, first, lemma_ranked, ranked};
use crate::codec::{fault_text, Fault};
use crate::distance::DistanceMetric;
use crate::embed::payload_of_text;
use crate::error::VexError;
use crate::flat::FlatView;
use crate::float::{lemma_total_order_refines_less, total_key, Arith};
use crate::hnsw::{lemma_found, lemma_scanned, lemma_walked, HnswView};
use crate::json::json_parsed;
use crate::payload::FilterView;
use crate::records::{
    exact_hits, lemma_matches_of, lemma_rearranged, live_points, matches_of,
    unique_live, Point,
};
use crate::text::decimal;
use vstd::prelude::*;
use vstd::string::StringSliceAdditionalSpecFns;

verus! {

/// The exact answer is in order: by distance, and by id where the distances
/// are the same.
pub proof fn law_exact_answer_is_in_order(
    points: Seq<Point>,
    metric: DistanceMetric,
    ar: Arith,
    query: Seq<u32>,
    k: nat,
    filter: Option<FilterView>,
    i: int,
    j: int,
)
    requires
        unique_live(points),
        0 <= i < j < exact_hits(points, metric, ar, query, k as int, filter).len(),
    ensures
        ({
            let hits = exact_hits(points, metric, ar, query, k as int, filter);
            total_key(hits[i].distance) < total_key(hits[j].distance) || (hits[i].distance
                == hits[j].distance && hits[i].id.0 < hits[j].id.0)
        }),
{
    let all = matches_of(points, metric, ar, query, filter);
    let order = ranked(all);
    let hits = exact_hits(points, metric, ar, query, k as int, filter);
    lemma_matches_of(points, metric, ar, query, filter);
    lemma_ranked(all);
    lemma_rearranged(all, order);
    assert(!before(order[j], order[i]));
    assert(order[i] != order[j]);
    lemma_total_order_refines_less(hits[i].distance, hits[j].distance);
}

/// The place of a live node with an id.
pub open spec fn node_of(v: HnswView, n: int, id: u64) -> bool {
    0 <= n < v.nodes.len() && !v.nodes[n].deleted && v.nodes[n].id == id
}

/// The answer of a graph index is in order: by distance, and by the order in
/// which the vectors were stored where the distances are the same.
pub proof fn law_graph_answer_is_in_order(
    v: HnswView,
    ar: Arith,
    query: Seq<u32>,
    k: usize,
    ef: usize,
    filter: Option<FilterView>,
    i: int,
    j: int,
    a: int,
    b: int,
)
    requires
        v.wf(),
        0 <= i < j < v.found(ar, query, k, ef, filter).len(),
        node_of(v, a, v.found(ar, query, k, ef, filter)[i].id.0),
        node_of(v, b, v.found(ar, query, k, ef, filter)[j].id.0),
    ensures
        ({
            let hits = v.found(ar, query, k, ef, filter);
            total_key(hits[i].distance) < total_key(hits[j].distance) || (hits[i].distance
                == hits[j].distance && a < b)
        }),
{
    let near = v.walked(ar, query, k, ef, filter);
    let cands = if near.len() < k {
        v.scanned(ar, query, k, filter)
    } else {
        near
    };
    let hits = v.found(ar, query, k, ef, filter);
    lemma_walked(v, ar, query, k, ef, filter);
    lemma_scanned(v, ar, query, k, filter);
    lemma_found(v, ar, query, k, ef, filter);
    lemma_total_order_refines_less(hits[i].distance, hits[j].distance);
    assert(!before(cands[j], cands[i]));
    assert(v.points()[a].live && v.points()[b].live);
    let x = cands[i].label as int;
    let y = cands[j].label as int;
    assert(v.points()[x].live && v.points()[y].live);
    assert(x == a && y == b);
}

/// The live points are those of all points that are live, in their order.
pub proof fn law_live_points_are_those_that_live(points: Seq<Point>)
    ensures
        live_points(points) == points.filter(|p: Point| p.live),
    decreases points.len(),
{
    reveal(Seq::filter);
    if points.len() > 0 {
        law_live_points_are_those_that_live(points.drop_last());
    }
}

/// The truth of a query is the exact answer to it, id by id; the ids found are
/// those of the search with the beam asked for.
pub proof fn law_measured_searches_are_searches(
    flat: FlatView,
    hnsw: HnswView,
    ar: Arith,
    queries: Seq<Vec<u32>>,
    k: usize,
    ef: usize,
    i: int,
)
    requires
        0 <= i < queries.len(),
    ensures
        truth_of(flat, ar, queries, k).len() == queries.len(),
        found_of(hnsw, ar, queries, k, ef).len() == queries.len(),
        ({
            let ids = truth_of(flat, ar, queries, k)[i];
            let hits = exact_hits(flat.points(), flat.metric, ar, queries[i]@, k as int, None);
            ids.len() == hits.len() && forall|j: int|
                #![trigger ids[j]]
                0 <= j < ids.len() ==> ids[j] == hits[j].id.0
        }),
        ({
            let ids = found_of(hnsw, ar, queries, k, ef)[i];
            let hits = hnsw.found(ar, queries[i]@, k, ef, None);
            ids.len() == hits.len() && forall|j: int|
                #![trigger ids[j]]
                0 <= j < ids.len() ==> ids[j] == hits[j].id.0
        }),
{
}

/// Measuring fails at the first query that has the wrong dimension, or at the
/// first of all if none is asked for, and for that reason.
pub proof fn law_measuring_fails_at_the_first_misfit(
    dim: usize,
    queries: Seq<Vec<u32>>,
    k: usize,
    i: int,
    e: VexError,
)
    requires
        fails_first(dim, queries, k, i, e),
    ensures
        k == 0 ==> e is InvalidK,
        k == 0 ==> i == 0,
        k > 0 ==> queries[i]@.len() != dim && e == (VexError::DimensionMismatch {
            expected: dim,
            actual: queries[i]@.len() as usize,
        }),
        k > 0 ==> forall|j: int| 0 <= j < i ==> (#[trigger] queries[j])@.len() == dim,
{
    if k == 0 && i > 0 {
        assert(queries[0]@.len() == dim);
    }
}

/// The message of what is wrong with a snapshot tells the version, or ends with
/// what was found.
pub proof fn law_fault_texts_tell_the_fault(message: Seq<char>, version: u32)
    ensures
        ({
            let text = fault_text(Fault::Corrupt(message));
            &&& text.len() == 18 + message.len()
            &&& text.skip(18) == message
            &&& text.take(18) == "corrupt snapshot: "@
        }),
        ({
            let text = fault_text(Fault::Io(message));
            &&& text.len() == 10 + message.len()
            &&& text.skip(10) == message
        }),
        ({
            let text = fault_text(Fault::UnsupportedVersion(version));
            let number = decimal(version as nat);
            &&& text.len() > 36 + number.len()
            &&& text.subrange(36, 36 + number.len() as int) == number
        }),
{
    reveal_strlit("corrupt snapshot: ");
    reveal_strlit("io error: ");
    reveal_strlit("unsupported snapshot format version ");
    reveal_strlit(" (this build reads 1)");
    assert(fault_text(Fault::Corrupt(message)).skip(18) =~= message);
    assert(fault_text(Fault::Corrupt(message)).take(18) =~= "corrupt snapshot: "@);
    assert(fault_text(Fault::Io(message)).skip(10) =~= message);
    let number = decimal(version as nat);
    assert(fault_text(Fault::UnsupportedVersion(version)).subrange(36, 36 + number.len() as int)
        =~= number);
}

/// A payload is read from its JSON text; a text that is none is refused, and no
/// text is no payload.
pub proof fn law_payload_is_read_from_its_text(text: Option<&str>)
    ensures
        payload_of_text(text) is Ok <==> (text matches Some(t) ==> json_parsed(
            t.spec_bytes(),
        ) is Ok),
        text is None ==> payload_of_text(text)->Ok_0 is None,
        payload_of_text(text) is Ok && text is Some ==> payload_of_text(text)->Ok_0 is Some
            && Ok::<_, Seq<char>>(payload_of_text(text)->Ok_0->Some_0) == json_parsed(
            text->Some_0.spec_bytes(),
        ),
{
}

} // verus!
