//! What the server, the command line and the embedded index promise of the
//! requests that they answer.
use crate::api::{index_refusal, Refusal};
use crate::bench::{
    coordinate, drawn_vector, index_of_kind, numbered_records, overlap, total_len, total_overlap,
};
use crate::distance::DistanceMetric;
use crate::embed::{add_outcome, told};
use crate::error::VexError;
use crate::float::{lemma_total_order_refines_less, less, total_key, Arith};
use crate::flat::lemma_flat_points;
use crate::format::AnyView;
use crate::history::{after_calls, in_shape, law_step_keeps_records, places_fit, stepped, Op};
use crate::hnsw::lemma_found;
use crate::index::{search_outcome, sound_answer, wanted_ids, Record, SearchResult};
use crate::json::JsonView;
use crate::payload::{passes, Filter, FilterView};
use crate::records::{
    exact_hits, lemma_exact_hits, lemma_live_records, lemma_matches_of, live_records, unique_live,
    Point,
};
use crate::rng::{lemma_state_after_sum, state_after};
use crate::routes::{
    batch_refusal, creation, misfit, search_answer, stats_of, upserted, CreateCollection, HitView,
    PointView, SearchRequest,
};
use crate::state::{
    due, in_directory, name_char, snapshot_file, valid_name, CollectionView, StateView,
};
use crate::text::decimal;
use vstd::prelude::*;

verus! {

// ---------------------------------------------------------------------------
// Searches
// ---------------------------------------------------------------------------

/// Whether an index keeps its invariant.
pub open spec fn sound_index(v: AnyView) -> bool {
    match v {
        AnyView::Flat(f) => f.wf(),
        AnyView::Hnsw(h) => h.wf(),
    }
}

/// How many vectors of an index pass a filter.
pub open spec fn count_wanted(v: AnyView, filter: Option<FilterView>) -> nat {
    live_records(v.points()).dom().filter(
        |id: u64| passes(filter, live_records(v.points())[id].payload),
    ).len()
}

/// The filter that a request gives, if any.
pub open spec fn given_filter(filter: Option<Filter>) -> Option<FilterView> {
    if filter is Some {
        Some(filter->Some_0@)
    } else {
        None
    }
}

/// What an index finds: as many hits as were asked for, or as there are; no id
/// twice; the closest first; each a vector that it holds and that passes the
/// filter, at its distance from the query.
pub proof fn law_index_answers_a_search(
    v: AnyView,
    ar: Arith,
    query: Seq<u32>,
    k: usize,
    ef: Option<usize>,
    filter: Option<FilterView>,
)
    requires
        sound_index(v),
    ensures
        ({
            let hits = v.hits(ar, query, k, ef, filter);
            let held = live_records(v.points());
            &&& hits.len() == if k < count_wanted(v, filter) {
                k as nat
            } else {
                count_wanted(v, filter)
            }
            &&& forall|i: int, j: int|
                #![trigger hits[i], hits[j]]
                0 <= i < j < hits.len() ==> hits[i].id != hits[j].id && !less(
                    hits[j].distance,
                    hits[i].distance,
                ) && total_key(hits[i].distance) <= total_key(hits[j].distance)
            &&& forall|i: int|
                #![trigger hits[i]]
                0 <= i < hits.len() ==> {
                    &&& held.contains_key(hits[i].id.0)
                    &&& passes(filter, held[hits[i].id.0].payload)
                    &&& hits[i].distance == v.metric().between(
                        ar,
                        query,
                        held[hits[i].id.0].vector,
                    )
                }
        }),
{
    let hits = v.hits(ar, query, k, ef, filter);
    let held = live_records(v.points());
    match v {
        AnyView::Flat(f) => {
            lemma_flat_points(f);
            lemma_exact_hits(f.points(), f.metric, ar, query, k as int, filter);
        },
        AnyView::Hnsw(h) => {
            let width = match ef {
                Some(width) => width,
                None => h.config.ef_search,
            };
            lemma_found(h, ar, query, k, width, filter);
        },
    }
    assert(sound_answer(held, v.metric(), ar, query, k as int, filter, hits));
    assert(wanted_ids(held, filter) =~= held.dom().filter(
        |id: u64| passes(filter, held[id].payload),
    ));
    assert forall|i: int, j: int|
        #![trigger hits[i], hits[j]]
        0 <= i < j < hits.len() implies !less(hits[j].distance, hits[i].distance) by {
        lemma_total_order_refines_less(hits[j].distance, hits[i].distance);
    }
}

/// The exact answer leaves out only what is no closer: a vector that passes the
/// filter and is not among the hits comes behind every one of them, by distance
/// and then by id.
pub proof fn law_exact_answer_leaves_out_only_farther(
    points: Seq<Point>,
    metric: DistanceMetric,
    ar: Arith,
    query: Seq<u32>,
    k: nat,
    filter: Option<FilterView>,
    id: u64,
    i: int,
)
    requires
        unique_live(points),
        live_records(points).contains_key(id),
        passes(filter, live_records(points)[id].payload),
        forall|j: int|
            0 <= j < exact_hits(points, metric, ar, query, k as int, filter).len() ==> (
            #[trigger] exact_hits(points, metric, ar, query, k as int, filter)[j]).id.0 != id,
        0 <= i < exact_hits(points, metric, ar, query, k as int, filter).len(),
    ensures
        ({
            let hit = exact_hits(points, metric, ar, query, k as int, filter)[i];
            let d = metric.between(ar, query, live_records(points)[id].vector);
            &&& !less(d, hit.distance)
            &&& total_key(hit.distance) < total_key(d) || (hit.distance == d && hit.id.0 < id)
        }),
{
    let all = crate::records::matches_of(points, metric, ar, query, filter);
    let order = crate::candidate::ranked(all);
    let hits = exact_hits(points, metric, ar, query, k as int, filter);
    let d = metric.between(ar, query, live_records(points)[id].vector);
    let c = crate::candidate::Candidate { distance: d, label: id };
    lemma_live_records(points);
    lemma_matches_of(points, metric, ar, query, filter);
    crate::candidate::lemma_ranked(all);
    crate::records::lemma_rearranged(all, order);
    let p = choose|p: int|
        #![trigger points[p]]
        0 <= p < points.len() && points[p].live && points[p].id == id;
    assert(live_records(points)[points[p].id] == points[p].record);
    assert(all.contains(c));
    assert(order.contains(c));
    let q = choose|q: int| 0 <= q < order.len() && order[q] == c;
    if q < hits.len() {
        assert(hits[q].id.0 == id);
    }
    assert(i < q);
    assert(!crate::candidate::before(order[q], order[i]));
    lemma_total_order_refines_less(d, hits[i].distance);
    assert(order[i] != order[q]);
    assert(hits[i].id.0 == order[i].label && hits[i].distance == order[i].distance);
}

/// A search of a collection that is answered yields as many hits as were asked
/// for, or as there are points that pass the filter; no point twice; the closest
/// first; each a point of the collection, at its distance from the query, with
/// its payload exactly if payloads were asked for.
pub proof fn law_search_request_is_answered_in_full(
    state: StateView,
    ar: Arith,
    name: Seq<char>,
    req: SearchRequest,
)
    requires
        state.collections.contains_key(name) ==> sound_index(state.collections[name].index),
    ensures
        search_answer(state, ar, name, req) matches Ok(hits) ==> {
            let index = state.collections[name].index;
            let held = live_records(index.points());
            let filter = given_filter(req.filter);
            &&& state.collections.contains_key(name)
            &&& hits.len() == if req.k < count_wanted(index, filter) {
                req.k as nat
            } else {
                count_wanted(index, filter)
            }
            &&& forall|i: int, j: int|
                #![trigger hits[i], hits[j]]
                0 <= i < j < hits.len() ==> hits[i].id != hits[j].id && !less(
                    hits[j].distance,
                    hits[i].distance,
                )
            &&& forall|i: int|
                #![trigger hits[i]]
                0 <= i < hits.len() ==> {
                    &&& held.contains_key(hits[i].id)
                    &&& passes(filter, held[hits[i].id].payload)
                    &&& hits[i].distance == index.metric().between(
                        ar,
                        req.query@,
                        held[hits[i].id].vector,
                    )
                    &&& req.with_payload ==> hits[i].payload == held[hits[i].id].payload
                    &&& !req.with_payload ==> hits[i].payload is None
                }
        },
{
    if search_answer(state, ar, name, req) is Ok {
        let index = state.collections[name].index;
        let filter = given_filter(req.filter);
        let raw = index.hits(ar, req.query@, req.k, req.ef, filter);
        law_index_answers_a_search(index, ar, req.query@, req.k, req.ef, filter);
        let hits = search_answer(state, ar, name, req)->Ok_0;
        assert(hits.len() == raw.len());
        assert forall|i: int| #![trigger hits[i]] 0 <= i < hits.len() implies hits[i].id
            == raw[i].id.0 && hits[i].distance == raw[i].distance by {}
        assert forall|i: int, j: int|
            #![trigger hits[i], hits[j]]
            0 <= i < j < hits.len() implies hits[i].id != hits[j].id && !less(
            hits[j].distance,
            hits[i].distance,
        ) by {
            assert(raw[i].id != raw[j].id);
        }
    }
}

/// A search of a collection finds what its index finds, with the count, the
/// width of the beam and the filter of the request.
pub proof fn law_search_request_is_a_search_of_the_index(
    state: StateView,
    ar: Arith,
    name: Seq<char>,
    req: SearchRequest,
    i: int,
)
    requires
        search_answer(state, ar, name, req) is Ok,
    ensures
        ({
            let hits = search_answer(state, ar, name, req)->Ok_0;
            let raw = state.collections[name].index.hits(
                ar,
                req.query@,
                req.k,
                req.ef,
                given_filter(req.filter),
            );
            &&& hits.len() == raw.len()
            &&& 0 <= i < hits.len() ==> hits[i].id == raw[i].id.0 && hits[i].distance
                == raw[i].distance
        }),
{
}

/// A search of a flat collection leaves out only what is no closer.
pub proof fn law_flat_collection_is_searched_exactly(
    state: StateView,
    ar: Arith,
    name: Seq<char>,
    req: SearchRequest,
    id: u64,
    i: int,
)
    requires
        state.collections.contains_key(name),
        state.collections[name].index matches AnyView::Flat(f) && f.wf(),
        search_answer(state, ar, name, req) is Ok,
        live_records(state.collections[name].index.points()).contains_key(id),
        passes(
            given_filter(req.filter),
            live_records(state.collections[name].index.points())[id].payload,
        ),
        forall|j: int|
            0 <= j < search_answer(state, ar, name, req)->Ok_0.len() ==> (
            #[trigger] search_answer(state, ar, name, req)->Ok_0[j]).id != id,
        0 <= i < search_answer(state, ar, name, req)->Ok_0.len(),
    ensures
        !less(
            state.collections[name].index.metric().between(
                ar,
                req.query@,
                live_records(state.collections[name].index.points())[id].vector,
            ),
            search_answer(state, ar, name, req)->Ok_0[i].distance,
        ),
{
    let index = state.collections[name].index;
    let filter = given_filter(req.filter);
    let told_hits = search_answer(state, ar, name, req)->Ok_0;
    let raw = exact_hits(index.points(), index.metric(), ar, req.query@, req.k as int, filter);
    lemma_flat_points(index->Flat_0);
    assert(raw == index.hits(ar, req.query@, req.k, req.ef, filter));
    assert(told_hits.len() == raw.len());
    assert forall|j: int| 0 <= j < raw.len() implies (#[trigger] raw[j]).id.0 != id by {
        assert(told_hits[j].id == raw[j].id.0);
    }
    law_exact_answer_leaves_out_only_farther(
        index.points(),
        index.metric(),
        ar,
        req.query@,
        req.k as nat,
        filter,
        id,
        i,
    );
    assert(told_hits[i].distance == raw[i].distance);
}

/// When a search is refused, and with which status: more hits or a wider beam
/// than the limits allow, or no hits at all; a collection that does not exist;
/// a query of the wrong dimension. Everything else is answered.
pub proof fn law_search_is_refused_with_its_status(
    state: StateView,
    ar: Arith,
    name: Seq<char>,
    req: SearchRequest,
)
    ensures
        ({
            let answer = search_answer(state, ar, name, req);
            let limits = 1 <= req.k <= 1024 && (req.ef matches Some(ef) ==> ef <= 100_000);
            let exists_here = state.collections.contains_key(name);
            let fits = state.collections[name].index.dim() == req.query@.len();
            &&& answer is Ok <==> limits && exists_here && fits
            &&& answer matches Err(e) ==> e.status() == if !limits {
                400u16
            } else if !exists_here {
                404u16
            } else {
                400u16
            }
        }),
{
}

/// The width of the beam that a request leaves out is the index's own; a flat
/// index has none.
pub proof fn law_beam_width_is_the_indexs_own_unless_given(
    v: AnyView,
    ar: Arith,
    query: Seq<u32>,
    k: usize,
    ef: Option<usize>,
    filter: Option<FilterView>,
)
    ensures
        v matches AnyView::Hnsw(h) ==> v.hits(ar, query, k, None, filter) == v.hits(
            ar,
            query,
            k,
            Some(h.config.ef_search),
            filter,
        ),
        v is Flat ==> v.hits(ar, query, k, ef, filter) == v.hits(ar, query, k, None, filter),
        v matches AnyView::Hnsw(h) ==> (ef matches Some(width) ==> v.hits(
            ar,
            query,
            k,
            ef,
            filter,
        ) == h.found(ar, query, k, width, filter)),
{
}

/// A search without hits asked for, or with a query of the wrong dimension, is
/// an error; every other search gives its hits.
pub proof fn law_only_two_searches_are_errors(
    dim: usize,
    query: Seq<u32>,
    k: usize,
    hits: Seq<SearchResult>,
)
    requires
        query.len() <= usize::MAX,
    ensures
        k == 0 <==> search_outcome(dim, query, k, hits) == Err::<Seq<SearchResult>, VexError>(
            VexError::InvalidK,
        ),
        k > 0 && query.len() != dim <==> (search_outcome(dim, query, k, hits) matches Err(
            VexError::DimensionMismatch { expected, actual },
        ) && expected == dim && actual == query.len()),
        k > 0 && query.len() == dim <==> search_outcome(dim, query, k, hits) is Ok,
        search_outcome(dim, query, k, hits) matches Ok(found) ==> found == hits,
{
}

// ---------------------------------------------------------------------------
// Collections
// ---------------------------------------------------------------------------

/// When a collection is created, and with which status it is refused otherwise.
pub proof fn law_creation_is_refused_with_its_status(
    state: StateView,
    name: Seq<char>,
    req: CreateCollection,
)
    ensures
        ({
            let made = creation(state, name, req);
            let plausible = 1 <= req.dim <= 65_536 && (req.index@ == "flat"@ || (req.index@
                == "hnsw"@ && 1 <= req.m <= 256));
            let free = !state.collections.contains_key(name);
            &&& made is Ok <==> !state.read_only && valid_name(name) && plausible && free
            &&& made matches Err(e) ==> e.status() == if state.read_only {
                403u16
            } else if !valid_name(name) || !plausible {
                400u16
            } else {
                409u16
            }
        }),
{
}

/// A new collection is what was asked for: of the type, the dimension and the
/// metric, with the parameters that were given, kept within their limits; it
/// holds nothing and needs no flush.
pub proof fn law_created_collection_is_as_requested(
    state: StateView,
    name: Seq<char>,
    req: CreateCollection,
)
    requires
        creation(state, name, req) is Ok,
    ensures
        ({
            let c = creation(state, name, req)->Ok_0;
            &&& c.name == name
            &&& !c.dirty
            &&& c.index.dim() == req.dim
            &&& c.index.metric() == req.metric
            &&& c.index.points().len() == 0
            &&& c.index is Flat <==> req.index@ == "flat"@
            &&& c.index matches AnyView::Hnsw(h) ==> {
                &&& h.config.m == req.m
                &&& 1 <= h.config.ef_construction <= 100_000
                &&& 1 <= req.ef_construction <= 100_000 ==> h.config.ef_construction
                    == req.ef_construction
                &&& req.ef_construction > 100_000 ==> h.config.ef_construction == 100_000
                &&& 1 <= h.config.ef_search <= 100_000
                &&& 1 <= req.ef_search <= 100_000 ==> h.config.ef_search == req.ef_search
                &&& req.ef_search > 100_000 ==> h.config.ef_search == 100_000
                &&& h.entry is None
                &&& h.config.seed == 0x5eed_cafe_f00d_d00d
                &&& h.rng == h.config.seed
            }
        }),
{
    reveal_strlit("flat");
    reveal_strlit("hnsw");
    assert("flat"@[0] != "hnsw"@[0]);
}

/// When a batch is refused, and with which status: no points or too many, a
/// collection that does not exist, or a point that does not have its dimension.
/// Every other batch is stored.
pub proof fn law_batch_is_refused_with_its_status(
    state: StateView,
    name: Seq<char>,
    points: Seq<PointView>,
)
    ensures
        ({
            let refusal = batch_refusal(state, name, points);
            let sized = 1 <= points.len() <= 10_000;
            let exists_here = state.collections.contains_key(name);
            let fits = forall|i: int|
                0 <= i < points.len() ==> (#[trigger] points[i]).vector.len()
                    == state.collections[name].index.dim();
            &&& refusal is None <==> !state.read_only && sized && exists_here && fits
            &&& refusal matches Some(e) ==> e.status() == if state.read_only {
                403u16
            } else if !sized {
                400u16
            } else if !exists_here {
                404u16
            } else {
                400u16
            }
        }),
{
    let dim = state.collections[name].index.dim();
    law_misfit_is_the_first(points, dim, 0);
}

/// The point that a batch is refused for is the first that does not fit.
pub proof fn law_misfit_is_the_first(points: Seq<PointView>, dim: usize, from: int)
    requires
        from >= 0,
    ensures
        misfit(points, dim, from) is None <==> forall|i: int|
            from <= i < points.len() ==> (#[trigger] points[i]).vector.len() == dim,
        misfit(points, dim, from) matches Some(at) ==> {
            &&& from <= at < points.len()
            &&& points[at].vector.len() != dim
            &&& forall|i: int| from <= i < at ==> (#[trigger] points[i]).vector.len() == dim
        },
    decreases points.len() - from,
{
    if from < points.len() {
        law_misfit_is_the_first(points, dim, from + 1);
    }
}

/// The calls that storing a batch comes to: for each point, in order, remove
/// what has its id, then store it.
pub open spec fn upsert_calls(points: Seq<PointView>) -> Seq<Op>
    decreases points.len(),
{
    if points.len() == 0 {
        seq![]
    } else {
        let p = points.last();
        upsert_calls(points.drop_last()).push(Op::Remove { id: p.id }).push(
            Op::Add { id: p.id, vector: p.vector, payload: p.payload },
        )
    }
}

/// Storing a batch is removing and storing its points one by one.
pub proof fn law_upsert_is_remove_and_add(v: AnyView, ar: Arith, points: Seq<PointView>)
    requires
        in_shape(v),
        forall|i: int|
            0 <= i < points.len() ==> (#[trigger] points[i]).vector.len() == v.dim(),
        places_fit(v, v.points().len() + points.len()),
    ensures
        upserted(v, ar, points) == after_calls(v, ar, upsert_calls(points)),
        in_shape(upserted(v, ar, points)),
        upserted(v, ar, points).dim() == v.dim(),
        upserted(v, ar, points) is Hnsw <==> v is Hnsw,
        upserted(v, ar, points).points().len() <= v.points().len() + points.len(),
    decreases points.len(),
{
    if points.len() > 0 {
        let front = points.drop_last();
        let p = points.last();
        assert(points[points.len() - 1] == p);
        assert forall|i: int| 0 <= i < front.len() implies (#[trigger] front[i]).vector.len()
            == v.dim() by {
            assert(front[i] == points[i]);
        }
        law_upsert_is_remove_and_add(v, ar, front);
        let before = upserted(v, ar, front);
        let out = Op::Remove { id: p.id };
        let into = Op::Add { id: p.id, vector: p.vector, payload: p.payload };
        law_step_keeps_records(before, ar, out);
        let cleared = stepped(before, ar, out);
        law_step_keeps_records(cleared, ar, into);
        let calls = upsert_calls(front);
        let one = calls.push(out);
        let two = one.push(into);
        assert(one.drop_last() =~= calls);
        assert(two.drop_last() =~= one);
        lemma_upsert_step(v, ar, points);
        assert(upsert_calls(points) == two);
        assert(after_calls(v, ar, one) == stepped(after_calls(v, ar, calls), ar, out));
        assert(after_calls(v, ar, two) == stepped(after_calls(v, ar, one), ar, into));
    } else {
        reveal(upserted);
        assert(upsert_calls(points) =~= seq![]);
    }
}

proof fn lemma_upsert_step(v: AnyView, ar: Arith, points: Seq<PointView>)
    requires
        points.len() > 0,
        ({
            let before = upserted(v, ar, points.drop_last());
            let p = points.last();
            let cleared = stepped(before, ar, Op::Remove { id: p.id });
            &&& cleared.dim() == p.vector.len()
            &&& !live_records(cleared.points()).contains_key(p.id)
        }),
    ensures
        ({
            let before = upserted(v, ar, points.drop_last());
            let p = points.last();
            let cleared = stepped(before, ar, Op::Remove { id: p.id });
            upserted(v, ar, points) == stepped(
                cleared,
                ar,
                Op::Add { id: p.id, vector: p.vector, payload: p.payload },
            )
        }),
{
    reveal(upserted);
    reveal(stepped);
}

/// What the server tells of a collection: its name, the type, dimension and
/// metric of its index, and the number of its live points.
pub proof fn law_stats_tell_the_collection(c: CollectionView)
    ensures
        stats_of(c).name == c.name,
        stats_of(c).dim == c.index.dim(),
        stats_of(c).metric == c.index.metric(),
        stats_of(c).count == live_records(c.index.points()).dom().len(),
        c.index is Flat ==> stats_of(c).index == "flat"@,
        c.index is Hnsw ==> stats_of(c).index == "hnsw"@,
{
}

/// The statuses: a request that is malformed, one for what does not exist, one
/// for what exists already, a write where none is taken, and a failure of the
/// server are told apart as HTTP tells them apart.
pub proof fn law_statuses_are_those_of_http(r: Refusal)
    ensures
        r is BadRequest <==> r.status() == 400,
        r is ReadOnly <==> r.status() == 403,
        r is NotFound <==> r.status() == 404,
        r is Conflict <==> r.status() == 409,
        r is Internal <==> r.status() == 500,
{
}

/// An id in use is a conflict; every other error of an index is a bad request;
/// what is told is the error's own message.
pub proof fn law_index_errors_are_told_apart(e: VexError)
    ensures
        e is DuplicateId ==> index_refusal(e).status() == 409,
        !(e is DuplicateId) ==> index_refusal(e).status() == 400,
        index_refusal(e).text() == e.text(),
{
}

/// A name is valid exactly if it is 1 to 64 letters, digits, hyphens and
/// underscores.
pub proof fn law_valid_names(name: Seq<char>)
    ensures
        valid_name(name) ==> 1 <= name.len() <= 64,
        valid_name(name) ==> forall|i: int|
            0 <= i < name.len() ==> {
                let c = #[trigger] name[i];
                ||| 'a' <= c <= 'z'
                ||| 'A' <= c <= 'Z'
                ||| '0' <= c <= '9'
                ||| c == '-'
                ||| c == '_'
            },
        1 <= name.len() <= 64 && (forall|i: int|
            0 <= i < name.len() ==> {
                let c = #[trigger] name[i];
                ||| 'a' <= c <= 'z'
                ||| 'A' <= c <= 'Z'
                ||| '0' <= c <= '9'
                ||| c == '-'
                ||| c == '_'
            }) ==> valid_name(name),
{
}

/// The snapshots of two names are two files, each in the data directory.
pub proof fn law_names_have_files_of_their_own(dir: Seq<char>, a: Seq<char>, b: Seq<char>)
    requires
        valid_name(a),
        valid_name(b),
    ensures
        snapshot_file(dir, a) == snapshot_file(dir, b) ==> a == b,
        snapshot_file(dir, a).len() == dir.len() + a.len() + 4 + if dir.len() == 0 || dir.last()
            == '/' {
            0int
        } else {
            1
        },
        snapshot_file(dir, a).take(dir.len() as int) == dir,
        snapshot_file(dir, a).skip(snapshot_file(dir, a).len() - 4 - a.len()) == a + ".vex"@,
        dir.len() > 0 && dir.last() != '/' ==> snapshot_file(dir, a)[dir.len() as int] == '/',
{
    reveal_strlit(".vex");
    reveal_strlit("/");
    assert(name_char(a[0]) && name_char(b[0]));
    let fa = snapshot_file(dir, a);
    let fb = snapshot_file(dir, b);
    assert((a + ".vex"@)[0] == a[0] && (b + ".vex"@)[0] == b[0]);
    assert(fa == in_directory(dir, a + ".vex"@));
    assert(fb == in_directory(dir, b + ".vex"@));
    assert(fa.take(dir.len() as int) =~= dir);
    assert(fa.skip(fa.len() - 4 - a.len()) =~= a + ".vex"@);
    assert(fb.skip(fb.len() - 4 - b.len()) =~= b + ".vex"@);
    if fa == fb {
        assert(a.len() == b.len());
        assert(a =~= (a + ".vex"@).take(a.len() as int));
        assert(b =~= (b + ".vex"@).take(b.len() as int));
    }
}

/// What is to be flushed is dirty, unless everything is; no name is due that is
/// not in the list.
pub proof fn law_only_dirty_collections_are_due(
    list: Seq<CollectionView>,
    force: bool,
    name: Seq<char>,
)
    requires
        due(list, force).contains(name),
    ensures
        exists|i: int|
            0 <= i < list.len() && (#[trigger] list[i]).name == name && (force || list[i].dirty),
        force ==> due(list, force).len() == list.len(),
    decreases list.len(),
{
    let front = list.drop_last();
    let some = due(list, force);
    let p = choose|p: int| 0 <= p < some.len() && some[p] == name;
    if force {
        lemma_all_due(list);
    }
    if list.len() > 0 {
        assert(list[list.len() - 1] == list.last());
        if p < due(front, force).len() {
            assert(due(front, force)[p] == name);
            law_only_dirty_collections_are_due(front, force, name);
            let i = choose|i: int|
                0 <= i < front.len() && (#[trigger] front[i]).name == name && (force
                    || front[i].dirty);
            assert(list[i] == front[i]);
        } else {
            assert(list[list.len() - 1].name == name);
        }
    }
}

proof fn lemma_all_due(list: Seq<CollectionView>)
    ensures
        due(list, true).len() == list.len(),
    decreases list.len(),
{
    if list.len() > 0 {
        lemma_all_due(list.drop_last());
    }
}

// ---------------------------------------------------------------------------
// The command line
// ---------------------------------------------------------------------------

/// An index that is asked for by name is of that type, dimension and metric,
/// with the parameters that were given, and holds nothing; other names are
/// refused.
pub proof fn law_new_index_is_as_asked_for(
    kind: Seq<char>,
    dim: usize,
    metric: DistanceMetric,
    m: usize,
    ef_construction: usize,
)
    ensures
        index_of_kind(kind, dim, metric, m, ef_construction) is Ok <==> kind == "flat"@ || kind
            == "hnsw"@,
        index_of_kind(kind, dim, metric, m, ef_construction) matches Ok(v) ==> {
            &&& v.metric() == metric
            &&& v.dim() == dim
            &&& v.points().len() == 0
            &&& v.kind_name() == kind
            &&& v is Flat <==> kind == "flat"@
            &&& v matches AnyView::Hnsw(h) ==> h.config.m == m && h.config.ef_construction
                == ef_construction && h.config.ef_search == 64 && h.config.seed
                == 0x5eed_cafe_f00d_d00d && h.entry is None && h.rng == h.config.seed
        },
{
    reveal_strlit("flat");
    reveal_strlit("hnsw");
    assert("flat"@[0] != "hnsw"@[0]);
}

/// A vector is drawn coordinate by coordinate: drawing a longer one is drawing
/// its beginning and going on from there.
pub proof fn law_vectors_are_drawn_on(ar: Arith, state: u64, a: nat, b: nat)
    ensures
        drawn_vector(ar, state, a).len() == a,
        drawn_vector(ar, state, a + b) == drawn_vector(ar, state, a) + drawn_vector(
            ar,
            state_after(state, a),
            b,
        ),
{
    let whole = drawn_vector(ar, state, a + b);
    let parts = drawn_vector(ar, state, a) + drawn_vector(ar, state_after(state, a), b);
    assert forall|i: int| 0 <= i < whole.len() implies whole[i] == parts[i] by {
        if i >= a {
            lemma_state_after_sum(state, a, (i - a + 1) as nat);
            assert(a + (i - a + 1) == i + 1);
        }
    }
    assert(whole =~= parts);
}

/// Vectors that fill an index are held under their places, each as it is, and
/// nothing else.
pub proof fn law_numbered_records_are_the_vectors(vectors: Seq<Vec<u32>>, id: u64)
    requires
        vectors.len() <= u64::MAX,
    ensures
        numbered_records(Map::empty(), vectors).contains_key(id) <==> id < vectors.len(),
        id < vectors.len() ==> numbered_records(Map::empty(), vectors)[id] == (Record {
            vector: vectors[id as int]@,
            payload: None,
        }),
    decreases vectors.len(),
{
    if vectors.len() > 0 {
        law_numbered_records_are_the_vectors(vectors.drop_last(), id);
    }
}

/// Overlap counts the ids found one by one: each that is in the truth once, the
/// others not.
pub proof fn law_overlap_counts_id_by_id(a: Seq<u64>, b: Seq<u64>, id: u64, truth: Seq<u64>)
    ensures
        overlap(a + b, truth) == overlap(a, truth) + overlap(b, truth),
        overlap(seq![id], truth) == if truth.contains(id) {
            1nat
        } else {
            0nat
        },
        overlap(seq![], truth) == 0,
    decreases b.len(),
{
    reveal_with_fuel(overlap, 2);
    assert(seq![id].drop_last() =~= seq![]);
    if b.len() == 0 {
        assert(a + b =~= a);
    } else {
        assert((a + b).drop_last() =~= a + b.drop_last());
        law_overlap_counts_id_by_id(a, b.drop_last(), id, truth);
    }
}

/// Recall is counted search by search, each against its own truth.
pub proof fn law_recall_counts_search_by_search(
    found: Seq<Seq<u64>>,
    truth: Seq<Seq<u64>>,
    f: Seq<u64>,
    t: Seq<u64>,
)
    ensures
        total_overlap(seq![f] + found, seq![t] + truth) == overlap(f, t) + total_overlap(
            found,
            truth,
        ),
        total_len(seq![t] + truth) == t.len() + total_len(truth),
        total_overlap(seq![], truth) == 0,
        total_len(seq![]) == 0,
{
    assert((seq![f] + found).drop_first() =~= found);
    assert((seq![t] + truth).drop_first() =~= truth);
}

// ---------------------------------------------------------------------------
// The embedded index
// ---------------------------------------------------------------------------

/// An embedded search tells each hit with the payload that its vector has, in
/// the order of the hits; an error by its message.
pub proof fn law_hits_are_told_with_their_payloads(
    records: Map<u64, Record>,
    outcome: Result<Seq<SearchResult>, VexError>,
)
    ensures
        outcome matches Ok(hits) ==> {
            &&& told(records, outcome) matches Ok(views) && views.len() == hits.len() && forall|
                i: int,
            |
                #![trigger views[i]]
                0 <= i < views.len() ==> views[i].id == hits[i].id.0 && views[i].distance
                    == hits[i].distance && views[i].payload == records[hits[i].id.0].payload
        },
        outcome matches Err(e) ==> told(records, outcome) == Err::<Seq<HitView>, Seq<char>>(
            e.text(),
        ),
{
}

/// When an embedded index takes a vector: with a payload that is JSON or none,
/// of the dimension, and under an id that is not in use.
pub proof fn law_embedded_index_takes_what_fits(
    v: AnyView,
    id: u64,
    vector: Seq<u32>,
    payload: Result<Option<JsonView>, Seq<char>>,
)
    ensures
        add_outcome(v, id, vector, payload) is Ok <==> payload is Ok && vector.len() == v.dim()
            && !live_records(v.points()).contains_key(id),
        add_outcome(v, id, vector, payload) matches Ok(value) ==> payload == Ok::<
            Option<JsonView>,
            Seq<char>,
        >(value),
{
}

/// An embedded index refuses a payload that is no JSON before it looks at the
/// vector, and a vector of another dimension before it looks at the id.
pub proof fn law_embedded_index_tells_the_first_misfit(
    v: AnyView,
    id: u64,
    vector: Seq<u32>,
    payload: Result<Option<JsonView>, Seq<char>>,
)
    requires
        vector.len() <= usize::MAX,
    ensures
        payload matches Err(message) ==> add_outcome(v, id, vector, payload) == Err::<
            Option<JsonView>,
            Seq<char>,
        >(message),
        payload is Ok && vector.len() != v.dim() ==> add_outcome(v, id, vector, payload) == Err::<
            Option<JsonView>,
            Seq<char>,
        >(
            "dimension mismatch: expected "@ + decimal(v.dim() as nat) + (", got "@ + decimal(
                vector.len(),
            )),
        ),
        payload is Ok && vector.len() == v.dim() && live_records(v.points()).contains_key(id)
            ==> add_outcome(v, id, vector, payload) == Err::<Option<JsonView>, Seq<char>>(
            "duplicate id: VectorId("@ + decimal(id as nat) + ")"@,
        ),
{
}

/// What is to be flushed are the names of the dirty collections, or of all, in
/// the order of the list.
pub proof fn law_due_collections_are_in_order(list: Seq<CollectionView>, force: bool)
    ensures
        due(list, force) == list.filter(|c: CollectionView| force || c.dirty).map_values(
            |c: CollectionView| c.name,
        ),
    decreases list.len(),
{
    reveal(Seq::filter);
    let keep = |c: CollectionView| force || c.dirty;
    if list.len() > 0 {
        law_due_collections_are_in_order(list.drop_last(), force);
        let front = list.drop_last().filter(keep);
        if keep(list.last()) {
            assert(front.push(list.last()).map_values(|c: CollectionView| c.name)
                =~= front.map_values(|c: CollectionView| c.name).push(list.last().name));
        }
    } else {
        assert(list.filter(keep).map_values(|c: CollectionView| c.name) =~= seq![]);
    }
}

} // verus!
