//! What holds of every index and of the server as a whole.
use crate::api::{index_refusal, Refusal};
use crate::bench::{overlap, total_len, total_overlap};
use crate::candidate::{before, first, lemma_ranked, ranked, Candidate};
use crate::distance::{cosine_of_terms, DistanceMetric};
use crate::embed::flattened;
use crate::error::VexError;
use crate::float::{lemma_total_order_refines_less, less, single, value_key, Arith, FloatOp, ONE};
use crate::history::{after_calls, Op};
use crate::index::{sound_answer, Index, Record, SearchResult};
use crate::json::JsonView;
use crate::payload::FilterView;
use crate::persist::AnyIndex;
use crate::records::{exact_hits, lemma_rearranged, live_count, live_records, matches_of, Point};
use crate::routes::{batch_refusal, creation, upserted_records, CreateCollection, PointView};
use crate::state::{due, valid_name, CollectionView, StateView};
use vstd::prelude::*;

verus! {

/// Results are sorted in the sense of floating-point comparison: no hit is
/// closer than one in front of it.
pub proof fn law_results_are_sorted(
    records: Map<u64, Record>,
    metric: DistanceMetric,
    ar: Arith,
    query: Seq<u32>,
    k: int,
    filter: Option<FilterView>,
    hits: Seq<SearchResult>,
    i: int,
    j: int,
)
    requires
        sound_answer(records, metric, ar, query, k, filter, hits),
        0 <= i < j < hits.len(),
    ensures
        !less(hits[j].distance, hits[i].distance),
{
    lemma_total_order_refines_less(hits[j].distance, hits[i].distance);
}

/// The exact answer holds as many hits as were asked for, or all matches.
pub proof fn law_exact_answer_counts(
    points: Seq<Point>,
    metric: DistanceMetric,
    ar: Arith,
    query: Seq<u32>,
    k: nat,
    filter: Option<FilterView>,
)
    ensures
        exact_hits(points, metric, ar, query, k as int, filter).len() == if k < matches_of(
            points,
            metric,
            ar,
            query,
            filter,
        ).len() {
            k
        } else {
            matches_of(points, metric, ar, query, filter).len()
        },
        filter is None ==> matches_of(points, metric, ar, query, filter).len() == live_count(
            points,
        ),
{
    lemma_ranked(matches_of(points, metric, ar, query, filter));
    if filter is None {
        lemma_all_match(points, metric, ar, query);
    }
}

/// There are no more matches than live points.
pub(crate) proof fn lemma_matches_are_live(
    points: Seq<Point>,
    metric: DistanceMetric,
    ar: Arith,
    query: Seq<u32>,
    filter: Option<FilterView>,
)
    ensures
        matches_of(points, metric, ar, query, filter).len() <= live_count(points),
    decreases points.len(),
{
    if points.len() > 0 {
        lemma_matches_are_live(points.drop_last(), metric, ar, query, filter);
    }
}

proof fn lemma_all_match(points: Seq<Point>, metric: DistanceMetric, ar: Arith, query: Seq<u32>)
    ensures
        matches_of(points, metric, ar, query, None).len() == live_count(points),
    decreases points.len(),
{
    if points.len() > 0 {
        lemma_all_match(points.drop_last(), metric, ar, query);
    }
}

/// The exact answer is exact: a match that it leaves out comes before none of
/// its hits.
pub proof fn law_exact_answer_is_closest(
    points: Seq<Point>,
    metric: DistanceMetric,
    ar: Arith,
    query: Seq<u32>,
    k: nat,
    filter: Option<FilterView>,
    c: Candidate,
    i: int,
)
    requires
        matches_of(points, metric, ar, query, filter).contains(c),
        !first(ranked(matches_of(points, metric, ar, query, filter)), k as int).contains(c),
        0 <= i < exact_hits(points, metric, ar, query, k as int, filter).len(),
    ensures
        ({
            let hit = exact_hits(points, metric, ar, query, k as int, filter)[i];
            !before(c, Candidate { distance: hit.distance, label: hit.id.0 })
        }),
{
    let all = matches_of(points, metric, ar, query, filter);
    let order = ranked(all);
    lemma_ranked(all);
    lemma_rearranged(all, order);
    assert(order.contains(c));
    let j = choose|j: int| 0 <= j < order.len() && order[j] == c;
    let some = first(order, k as int);
    if j < some.len() {
        assert(some[j] == c);
    }
    assert(!before(order[j], order[i]));
}

/// Removing twice is removing once.
pub proof fn law_removal_is_idempotent(records: Map<u64, Record>, id: u64)
    ensures
        !records.remove(id).contains_key(id),
        records.remove(id).remove(id) == records.remove(id),
{
    assert(records.remove(id).remove(id) =~= records.remove(id));
}

/// Storing and removing touch no other vector.
pub proof fn law_other_vectors_are_untouched(
    records: Map<u64, Record>,
    id: u64,
    record: Record,
    other: u64,
)
    requires
        other != id,
    ensures
        records.insert(id, record).contains_key(other) == records.contains_key(other),
        records.remove(id).contains_key(other) == records.contains_key(other),
        records.contains_key(other) ==> records.insert(id, record)[other] == records[other]
            && records.remove(id)[other] == records[other],
{
}

/// Two indexes that stand for the same answer alike, hold the same and go on
/// alike: an index that was loaded from its snapshot is searched as it was, and
/// what is stored in it next is linked as it would have been.
pub proof fn law_loaded_index_goes_on_alike(
    a: &AnyIndex,
    b: &AnyIndex,
    ar: Arith,
    query: Seq<u32>,
    k: usize,
    ef: Option<usize>,
    filter: Option<FilterView>,
    id: u64,
    vector: Seq<u32>,
    payload: Option<JsonView>,
    ops: Seq<Op>,
)
    requires
        a@ == b@,
    ensures
        a@.hits(ar, query, k, ef, filter) == b@.hits(ar, query, k, ef, filter),
        a.answer(ar, query, k, filter) == b.answer(ar, query, k, filter),
        a.records() == b.records(),
        a@.inserted(ar, id, vector, payload) == b@.inserted(ar, id, vector, payload),
        a@.removed(id) == b@.removed(id),
        after_calls(a@, ar, ops) == after_calls(b@, ar, ops),
{
}

/// A vector of zeros is at cosine distance 1 from everything, whatever the
/// arithmetic makes of the division.
pub proof fn law_zero_norm_is_distance_one(ar: Arith, dot_ab: u32, norm_a: u32, norm_b: u32)
    requires
        value_key(
            single(
                ar,
                FloatOp::Mul,
                single(ar, FloatOp::Sqrt, norm_a, 0),
                single(ar, FloatOp::Sqrt, norm_b, 0),
            ),
        ) == 0,
    ensures
        cosine_of_terms(ar, dot_ab, norm_a, norm_b) == ONE,
{
}

// ---------------------------------------------------------------------------
// Filters
// ---------------------------------------------------------------------------

/// Whether a filter holds no negation.
pub open spec fn negation_free(f: FilterView) -> bool
    decreases f,
{
    match f {
        FilterView::And(fs) => forall|i: int|
            0 <= i < fs.len() ==> negation_free(#[trigger] fs[i]),
        FilterView::Or(fs) => forall|i: int| 0 <= i < fs.len() ==> negation_free(#[trigger] fs[i]),
        FilterView::Not(_) => false,
        _ => true,
    }
}

/// Whether a filter asks for nothing: it has no condition on a field that
/// would have to hold.
pub open spec fn vacuous(f: FilterView) -> bool
    decreases f,
{
    match f {
        FilterView::And(fs) => forall|i: int| 0 <= i < fs.len() ==> vacuous(#[trigger] fs[i]),
        FilterView::Or(fs) => exists|i: int| 0 <= i < fs.len() && vacuous(#[trigger] fs[i]),
        _ => false,
    }
}

/// A vector without a payload matches a filter without negations only if the
/// filter asks for nothing.
pub proof fn law_no_payload_matches_only_vacuous_filters(f: FilterView)
    requires
        negation_free(f),
    ensures
        f.accepts(None) == vacuous(f),
    decreases f,
{
    match f {
        FilterView::And(fs) => {
            assert forall|i: int| 0 <= i < fs.len() implies (#[trigger] fs[i]).accepts(None)
                == vacuous(fs[i]) by {
                assert(decreases_to!(f => f->And_0[i]));
                law_no_payload_matches_only_vacuous_filters(fs[i]);
            }
        },
        FilterView::Or(fs) => {
            assert forall|i: int| 0 <= i < fs.len() implies (#[trigger] fs[i]).accepts(None)
                == vacuous(fs[i]) by {
                assert(decreases_to!(f => f->Or_0[i]));
                law_no_payload_matches_only_vacuous_filters(fs[i]);
            }
        },
        _ => {},
    }
}

// ---------------------------------------------------------------------------
// The server
// ---------------------------------------------------------------------------

/// A batch stores every point that it names, and of several with one id the
/// last; it removes nothing, and everything that it does not name stays.
pub proof fn law_batch_stores_every_point(
    records: Map<u64, Record>,
    points: Seq<PointView>,
    i: int,
    other: u64,
)
    requires
        0 <= i < points.len(),
        forall|j: int| i < j < points.len() ==> (#[trigger] points[j]).id != points[i].id,
        forall|j: int| 0 <= j < points.len() ==> (#[trigger] points[j]).id != other,
    ensures
        upserted_records(records, points).contains_key(points[i].id),
        upserted_records(records, points)[points[i].id] == (Record {
            vector: points[i].vector,
            payload: points[i].payload,
        }),
        upserted_records(records, points).contains_key(other) == records.contains_key(other),
        records.contains_key(other) ==> upserted_records(records, points)[other] == records[other],
    decreases points.len(),
{
    let front = points.drop_last();
    let last = points.len() - 1;
    lemma_batch_keeps_others(records, points, other);
    if i < last {
        assert forall|j: int| i < j < front.len() implies (#[trigger] front[j]).id
            != front[i].id by {
            assert(front[j] == points[j]);
        }
        assert forall|j: int| 0 <= j < front.len() implies (#[trigger] front[j]).id != other by {
            assert(front[j] == points[j]);
        }
        law_batch_stores_every_point(records, front, i, other);
        assert(points[last].id != points[i].id);
    }
}

proof fn lemma_batch_keeps_others(records: Map<u64, Record>, points: Seq<PointView>, other: u64)
    requires
        forall|j: int| 0 <= j < points.len() ==> (#[trigger] points[j]).id != other,
    ensures
        upserted_records(records, points).contains_key(other) == records.contains_key(other),
        records.contains_key(other) ==> upserted_records(records, points)[other] == records[other],
    decreases points.len(),
{
    if points.len() > 0 {
        let front = points.drop_last();
        assert forall|j: int| 0 <= j < front.len() implies (#[trigger] front[j]).id != other by {
            assert(front[j] == points[j]);
        }
        assert(points[points.len() - 1].id != other);
        lemma_batch_keeps_others(records, front, other);
    }
}

/// Storing a point under an id that is in use does not grow the collection.
pub proof fn law_replacing_does_not_grow(records: Map<u64, Record>, p: PointView)
    requires
        records.contains_key(p.id),
    ensures
        upserted_records(records, seq![p]).dom() == records.dom(),
{
    reveal_with_fuel(upserted_records, 2);
    assert(seq![p].drop_last() =~= seq![]);
    assert(upserted_records(records, seq![p]).dom() =~= records.dom());
}

/// A server that takes no writes refuses every write as such, whatever else
/// is wrong with it.
pub proof fn law_read_only_refuses_writes(
    state: StateView,
    name: Seq<char>,
    req: CreateCollection,
    points: Seq<PointView>,
)
    requires
        state.read_only,
    ensures
        creation(state, name, req) == Err::<CollectionView, Refusal>(Refusal::ReadOnly),
        batch_refusal(state, name, points) == Some(Refusal::ReadOnly),
{
}

/// Errors of an index are the caller's: they are never answered as a failure of
/// the server.
pub proof fn law_index_errors_are_the_callers(e: VexError)
    ensures
        400 <= index_refusal(e).status() < 500,
{
}

/// A new collection has a valid name that was not in use, and holds nothing.
pub proof fn law_created_collection_is_new_and_empty(
    state: StateView,
    name: Seq<char>,
    req: CreateCollection,
)
    requires
        creation(state, name, req) is Ok,
    ensures
        valid_name(name),
        !state.collections.contains_key(name),
        creation(state, name, req)->Ok_0.name == name,
        live_records(creation(state, name, req)->Ok_0.index.points()) == Map::<
            u64,
            Record,
        >::empty(),
        creation(state, name, req)->Ok_0.index.dim() == req.dim,
        creation(state, name, req)->Ok_0.index.metric() == req.metric,
{
    let c = creation(state, name, req)->Ok_0;
    assert(c.index.points() =~= seq![]);
}

/// Every dirty collection is flushed, and every collection if it is forced.
pub proof fn law_dirty_collections_are_flushed(list: Seq<CollectionView>, force: bool, i: int)
    requires
        0 <= i < list.len(),
        force || list[i].dirty,
    ensures
        due(list, force).contains(list[i].name),
    decreases list.len(),
{
    let front = list.drop_last();
    if i < front.len() {
        assert(front[i] == list[i]);
        law_dirty_collections_are_flushed(front, force, i);
        let p = choose|p: int|
            0 <= p < due(front, force).len() && due(front, force)[p] == list[i].name;
        assert(due(list, force)[p] == list[i].name);
    } else {
        assert(due(list, force)[due(list, force).len() - 1] == list[i].name);
    }
}

/// Where no collection is dirty, nothing is flushed unless it is forced.
pub proof fn law_clean_collections_are_not_flushed(list: Seq<CollectionView>)
    requires
        forall|i: int| 0 <= i < list.len() ==> !(#[trigger] list[i]).dirty,
    ensures
        due(list, false).len() == 0,
    decreases list.len(),
{
    if list.len() > 0 {
        assert(!list[list.len() - 1].dirty);
        assert forall|i: int| 0 <= i < list.drop_last().len() implies !(
        #[trigger] list.drop_last()[i]).dirty by {
            assert(list[i] == list.drop_last()[i]);
        }
        law_clean_collections_are_not_flushed(list.drop_last());
    }
}

// ---------------------------------------------------------------------------
// Recall and export
// ---------------------------------------------------------------------------

/// Hits that are the truth have full recall.
pub proof fn law_truth_has_full_recall(truth: Seq<u64>)
    ensures
        overlap(truth, truth) == truth.len(),
{
    lemma_overlap_full(truth, truth);
}

proof fn lemma_overlap_full(found: Seq<u64>, truth: Seq<u64>)
    requires
        forall|i: int| 0 <= i < found.len() ==> truth.contains(#[trigger] found[i]),
    ensures
        overlap(found, truth) == found.len(),
    decreases found.len(),
{
    if found.len() > 0 {
        assert(truth.contains(found[found.len() - 1]));
        assert forall|i: int| 0 <= i < found.drop_last().len() implies truth.contains(
            #[trigger] found.drop_last()[i],
        ) by {
            assert(found[i] == found.drop_last()[i]);
        }
        lemma_overlap_full(found.drop_last(), truth);
    }
}

/// A recall is at most 1: no more of the ids found are in the truth than the
/// truth holds, where no list found names an id twice.
pub proof fn law_recall_is_at_most_one(found: Seq<Seq<u64>>, truth: Seq<Seq<u64>>)
    requires
        forall|i: int| 0 <= i < found.len() ==> (#[trigger] found[i]).no_duplicates(),
    ensures
        total_overlap(found, truth) <= total_len(truth),
    decreases found.len(),
{
    if found.len() > 0 && truth.len() > 0 {
        let rest = found.drop_first();
        assert forall|i: int| 0 <= i < rest.len() implies (#[trigger] rest[i]).no_duplicates() by {
            assert(rest[i] == found[i + 1]);
        }
        law_recall_is_at_most_one(rest, truth.drop_first());
        lemma_overlap_is_common(found[0], truth[0]);
        let both = found[0].to_set().intersect(truth[0].to_set());
        vstd::set_lib::lemma_len_subset(both, truth[0].to_set());
        truth[0].lemma_cardinality_of_set();
    }
}

/// The ids found that are in the truth are counted once each.
proof fn lemma_overlap_is_common(found: Seq<u64>, truth: Seq<u64>)
    requires
        found.no_duplicates(),
    ensures
        overlap(found, truth) == found.to_set().intersect(truth.to_set()).len(),
        truth.to_set().finite(),
    decreases found.len(),
{
    truth.lemma_cardinality_of_set();
    vstd::seq_lib::seq_to_set_is_finite(truth);
    let common = found.to_set().intersect(truth.to_set());
    if found.len() == 0 {
        assert(common =~= Set::empty());
    } else {
        let front = found.drop_last();
        let last = found.last();
        assert forall|i: int, j: int|
            0 <= i < front.len() && 0 <= j < front.len() && i != j implies front[i]
            != front[j] by {
            assert(found[i] != found[j]);
        }
        lemma_overlap_is_common(front, truth);
        let before = front.to_set().intersect(truth.to_set());
        assert(!front.contains(last)) by {
            if front.contains(last) {
                let i = choose|i: int| 0 <= i < front.len() && front[i] == last;
                assert(found[i] == found[found.len() - 1]);
            }
        }
        assert forall|x: u64| found.to_set().contains(x) <==> front.to_set().contains(x) || x
            == last by {
            if found.contains(x) {
                let i = choose|i: int| 0 <= i < found.len() && found[i] == x;
                if i < front.len() {
                    assert(front[i] == x);
                }
            }
            if front.contains(x) {
                let i = choose|i: int| 0 <= i < front.len() && front[i] == x;
                assert(found[i] == x);
            }
            assert(found[found.len() - 1] == last);
        }
        assert(before.finite());
        if truth.contains(last) {
            assert(common =~= before.insert(last));
        } else {
            assert(common =~= before);
        }
    }
}

/// Exported vectors stand row by row: where all have one dimension, the row of
/// a vector begins at its place times the dimension.
pub proof fn law_export_is_row_by_row(points: Seq<Point>, dim: nat, i: int)
    requires
        forall|j: int|
            0 <= j < points.len() ==> (#[trigger] points[j]).record.vector.len() == dim,
        0 <= i < points.len(),
    ensures
        flattened(points).len() == points.len() * dim,
        i * dim + dim <= flattened(points).len(),
        flattened(points).subrange(i * dim, i * dim + dim) == points[i].record.vector,
    decreases points.len(),
{
    lemma_flattened_len(points, dim);
    let front = points.drop_last();
    let last = points.len() - 1;
    assert(points[last].record.vector.len() == dim);
    assert forall|j: int| 0 <= j < front.len() implies (#[trigger] front[j]).record.vector.len()
        == dim by {
        assert(front[j] == points[j]);
    }
    lemma_flattened_len(front, dim);
    assert(i * dim + dim <= points.len() * dim) by (nonlinear_arith)
        requires
            0 <= i < points.len(),
            dim >= 0,
    ;
    assert(i * dim >= 0) by (nonlinear_arith)
        requires
            i >= 0,
            dim >= 0,
    ;
    let all = flattened(points);
    if i < last {
        law_export_is_row_by_row(front, dim, i);
        assert(front[i] == points[i]);
        assert(all.subrange(i * dim, i * dim + dim) =~= flattened(front).subrange(
            i * dim,
            i * dim + dim,
        ));
    } else {
        assert(front.len() * dim == i * dim);
        assert(all.subrange(i * dim, i * dim + dim) =~= points[i].record.vector);
    }
}

proof fn lemma_flattened_len(points: Seq<Point>, dim: nat)
    requires
        forall|j: int|
            0 <= j < points.len() ==> (#[trigger] points[j]).record.vector.len() == dim,
    ensures
        flattened(points).len() == points.len() * dim,
    decreases points.len(),
{
    if points.len() > 0 {
        let front = points.drop_last();
        assert forall|j: int| 0 <= j < front.len() implies (
        #[trigger] front[j]).record.vector.len() == dim by {
            assert(front[j] == points[j]);
        }
        assert(points[points.len() - 1].record.vector.len() == dim);
        lemma_flattened_len(front, dim);
        assert(points.len() * dim == front.len() * dim + dim) by (nonlinear_arith)
            requires
                points.len() == front.len() + 1,
        ;
    }
}

} // verus!
