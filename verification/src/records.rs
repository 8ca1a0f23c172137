//! Stored points, the live ones among them, and the exact answer to a query.
use crate::candidate::{before, first, lemma_ranked, ranked, Candidate};
use crate::distance::DistanceMetric;
use crate::float::{total_key, Arith};
use crate::index::{sound_answer, wanted_ids, Record, SearchResult};
use crate::payload::{passes, payload_view, FilterView, Payload};
use crate::vector::{Vector, VectorId};
use vstd::prelude::*;

verus! {

/// A stored vector, live or removed.
#[verifier::ext_equal]
pub struct Point {
    pub id: u64,
    pub live: bool,
    pub record: Record,
}

/// Whether no two live points share an id.
pub open spec fn unique_live(points: Seq<Point>) -> bool {
    forall|i: int, j: int|
        #![trigger points[i], points[j]]
        0 <= i < points.len() && 0 <= j < points.len() && points[i].live && points[j].live
            && points[i].id == points[j].id ==> i == j
}

/// The live points by their ids.
pub open spec fn live_records(points: Seq<Point>) -> Map<u64, Record>
    decreases points.len(),
{
    if points.len() == 0 {
        Map::empty()
    } else {
        let front = live_records(points.drop_last());
        if points.last().live {
            front.insert(points.last().id, points.last().record)
        } else {
            front
        }
    }
}

/// The number of live points.
pub open spec fn live_count(points: Seq<Point>) -> nat
    decreases points.len(),
{
    if points.len() == 0 {
        0
    } else {
        live_count(points.drop_last()) + if points.last().live {
            1nat
        } else {
            0nat
        }
    }
}

/// The live points, in the order in which they are stored.
pub open spec fn live_points(points: Seq<Point>) -> Seq<Point>
    decreases points.len(),
{
    if points.len() == 0 {
        seq![]
    } else if points.last().live {
        live_points(points.drop_last()).push(points.last())
    } else {
        live_points(points.drop_last())
    }
}

/// Listed vectors as live points.
pub open spec fn live_list(list: Seq<(VectorId, &Vector, Option<&Payload>)>) -> Seq<Point> {
    list.map_values(
        |e: (VectorId, &Vector, Option<&Payload>)|
            Point {
                id: e.0.0,
                live: true,
                record: Record { vector: e.1@, payload: payload_view(e.2) },
            },
    )
}

/// Whether a live point has an id.
pub open spec fn holds_live(points: Seq<Point>, id: u64) -> bool {
    exists|i: int| #![trigger points[i]] 0 <= i < points.len() && points[i].live && points[i].id == id
}

/// The records are the live points, each under its id, and as many.
pub proof fn lemma_live_records(points: Seq<Point>)
    requires
        unique_live(points),
    ensures
        live_records(points).dom().finite(),
        live_records(points).dom().len() == live_count(points),
        forall|i: int|
            #![trigger points[i]]
            0 <= i < points.len() && points[i].live ==> live_records(points).contains_key(
                points[i].id,
            ) && live_records(points)[points[i].id] == points[i].record,
        forall|id: u64| #[trigger]
            live_records(points).contains_key(id) <==> holds_live(points, id),
    decreases points.len(),
{
    if points.len() > 0 {
        let front = points.drop_last();
        let last = points.last();
        let n = front.len() as int;
        assert forall|i: int, j: int|
            #![trigger front[i], front[j]]
            0 <= i < front.len() && 0 <= j < front.len() && front[i].live && front[j].live
                && front[i].id == front[j].id implies i == j by {
            assert(front[i] == points[i] && front[j] == points[j]);
        }
        lemma_live_records(front);
        let m = live_records(front);
        assert(points[n] == last);
        if last.live {
            assert(!m.contains_key(last.id)) by {
                if m.contains_key(last.id) {
                    assert(holds_live(front, last.id));
                    let i = choose|i: int|
                        #![trigger front[i]]
                        0 <= i < front.len() && front[i].live && front[i].id == last.id;
                    assert(points[i] == front[i]);
                }
            }
        }
        let all = live_records(points);
        assert forall|i: int|
            #![trigger points[i]]
            0 <= i < points.len() && points[i].live implies all.contains_key(points[i].id)
            && all[points[i].id] == points[i].record by {
            if i < n {
                assert(front[i] == points[i]);
                assert(m.contains_key(front[i].id));
            }
        }
        assert forall|id: u64| #[trigger] all.contains_key(id) <==> holds_live(points, id) by {
            if all.contains_key(id) {
                if last.live && id == last.id {
                    assert(points[n].id == id);
                } else {
                    assert(m.contains_key(id));
                    let i = choose|i: int|
                        #![trigger front[i]]
                        0 <= i < front.len() && front[i].live && front[i].id == id;
                    assert(points[i] == front[i]);
                }
            }
            if holds_live(points, id) {
                let i = choose|i: int|
                    #![trigger points[i]]
                    0 <= i < points.len() && points[i].live && points[i].id == id;
                assert(all.contains_key(points[i].id));
            }
        }
    }
}

/// A new live point under an unused id is one more record.
pub proof fn lemma_push_point(points: Seq<Point>, p: Point)
    requires
        unique_live(points),
        p.live,
        !holds_live(points, p.id),
    ensures
        unique_live(points.push(p)),
        live_records(points.push(p)) == live_records(points).insert(p.id, p.record),
        live_count(points.push(p)) == live_count(points) + 1,
{
    let all = points.push(p);
    assert(all.drop_last() =~= points);
    assert forall|i: int, j: int|
        #![trigger all[i], all[j]]
        0 <= i < all.len() && 0 <= j < all.len() && all[i].live && all[j].live && all[i].id
            == all[j].id implies i == j by {
        if i < points.len() {
            assert(points[i] == all[i]);
        }
        if j < points.len() {
            assert(points[j] == all[j]);
        }
    }
}

/// A removed point changes nothing of what is live.
pub proof fn lemma_push_removed(points: Seq<Point>, p: Point)
    requires
        unique_live(points),
        !p.live,
    ensures
        unique_live(points.push(p)),
        live_records(points.push(p)) == live_records(points),
        live_count(points.push(p)) == live_count(points),
{
    let all = points.push(p);
    assert(all.drop_last() =~= points);
    assert forall|i: int, j: int|
        #![trigger all[i], all[j]]
        0 <= i < all.len() && 0 <= j < all.len() && all[i].live && all[j].live && all[i].id
            == all[j].id implies i == j by {
        assert(points[i] == all[i] && points[j] == all[j]);
    }
}

/// A point taken out of `points` at `at`, wherever the others went, takes its
/// record with it.
pub proof fn lemma_drop_point(points: Seq<Point>, after: Seq<Point>, at: int)
    requires
        unique_live(points),
        unique_live(after),
        0 <= at < points.len(),
        points[at].live,
        forall|j: int|
            #![trigger after[j]]
            0 <= j < after.len() && after[j].live ==> exists|i: int|
                #![trigger points[i]]
                0 <= i < points.len() && i != at && points[i] == after[j],
        forall|i: int|
            #![trigger points[i]]
            0 <= i < points.len() && i != at && points[i].live ==> exists|j: int|
                #![trigger after[j]]
                0 <= j < after.len() && after[j] == points[i],
    ensures
        live_records(after) == live_records(points).remove(points[at].id),
{
    lemma_live_records(points);
    lemma_live_records(after);
    let was = live_records(points);
    let now = live_records(after);
    let gone = points[at].id;
    assert forall|id: u64| now.contains_key(id) == was.remove(gone).contains_key(id) && (
    now.contains_key(id) ==> now[id] == was.remove(gone)[id]) by {
        if now.contains_key(id) {
            let j = choose|j: int|
                #![trigger after[j]]
                0 <= j < after.len() && after[j].live && after[j].id == id;
            let i = choose|i: int|
                #![trigger points[i]]
                0 <= i < points.len() && i != at && points[i] == after[j];
            assert(was.contains_key(points[i].id));
            assert(points[at].id != points[i].id);
        }
        if was.remove(gone).contains_key(id) {
            assert(was.contains_key(id));
            let i = choose|i: int|
                #![trigger points[i]]
                0 <= i < points.len() && points[i].live && points[i].id == id;
            assert(i != at);
            let j = choose|j: int| #![trigger after[j]] 0 <= j < after.len() && after[j] == points[i];
            assert(now.contains_key(after[j].id));
        }
    }
    assert(now =~= was.remove(gone));
}

/// A point marked as removed takes its record with it.
pub proof fn lemma_retire_point(points: Seq<Point>, at: int)
    requires
        unique_live(points),
        0 <= at < points.len(),
        points[at].live,
    ensures
        ({
            let after = points.update(at, Point { live: false, ..points[at] });
            &&& unique_live(after)
            &&& live_records(after) == live_records(points).remove(points[at].id)
            &&& live_count(after) + 1 == live_count(points)
        }),
{
    let after = points.update(at, Point { live: false, ..points[at] });
    assert forall|i: int, j: int|
        #![trigger after[i], after[j]]
        0 <= i < after.len() && 0 <= j < after.len() && after[i].live && after[j].live
            && after[i].id == after[j].id implies i == j by {
        assert(points[i] == after[i] && points[j] == after[j]);
    }
    assert forall|j: int|
        #![trigger after[j]]
        0 <= j < after.len() && after[j].live implies exists|i: int|
        #![trigger points[i]]
        0 <= i < points.len() && i != at && points[i] == after[j] by {
        assert(points[j] == after[j]);
    }
    assert forall|i: int|
        #![trigger points[i]]
        0 <= i < points.len() && i != at && points[i].live implies exists|j: int|
        #![trigger after[j]]
        0 <= j < after.len() && after[j] == points[i] by {
        assert(after[i] == points[i]);
    }
    lemma_drop_point(points, after, at);
    lemma_live_records(points);
    lemma_live_records(after);
    let was = live_records(points);
    assert(live_records(after).dom() =~= was.dom().remove(points[at].id));
}

/// The live points by their ids are the records.
pub proof fn lemma_live_points(points: Seq<Point>)
    ensures
        live_points(points).len() == live_count(points),
        forall|i: int|
            #![trigger live_points(points)[i]]
            0 <= i < live_points(points).len() ==> live_points(points)[i].live && points.contains(
                live_points(points)[i],
            ),
    decreases points.len(),
{
    if points.len() > 0 {
        let front = points.drop_last();
        lemma_live_points(front);
        let some = live_points(points);
        assert(points[points.len() - 1] == points.last());
        assert forall|i: int|
            #![trigger some[i]]
            0 <= i < some.len() implies some[i].live && points.contains(some[i]) by {
            if i < live_points(front).len() {
                assert(some[i] == live_points(front)[i]);
                let j = choose|j: int| 0 <= j < front.len() && front[j] == some[i];
                assert(points[j] == some[i]);
            }
        }
    }
}

// ---------------------------------------------------------------------------
// The exact answer
// ---------------------------------------------------------------------------

/// The live points that pass a filter, as candidates for a query, in the order
/// in which they are stored.
pub open spec fn matches_of(
    points: Seq<Point>,
    metric: DistanceMetric,
    ar: Arith,
    query: Seq<u32>,
    filter: Option<FilterView>,
) -> Seq<Candidate>
    decreases points.len(),
{
    if points.len() == 0 {
        seq![]
    } else {
        let front = matches_of(points.drop_last(), metric, ar, query, filter);
        let p = points.last();
        if p.live && passes(filter, p.record.payload) {
            front.push(
                Candidate {
                    distance: metric.between(ar, query, p.record.vector),
                    label: p.id,
                },
            )
        } else {
            front
        }
    }
}

/// Candidates that are ids, as hits.
pub open spec fn id_hits(cands: Seq<Candidate>) -> Seq<SearchResult> {
    cands.map_values(
        |c: Candidate| SearchResult { id: VectorId(c.label), distance: c.distance },
    )
}

/// The exact answer to a query: the `k` closest of all live points that pass
/// the filter, of two at one distance the one with the smaller id first.
pub open spec fn exact_hits(
    points: Seq<Point>,
    metric: DistanceMetric,
    ar: Arith,
    query: Seq<u32>,
    k: int,
    filter: Option<FilterView>,
) -> Seq<SearchResult> {
    id_hits(first(ranked(matches_of(points, metric, ar, query, filter)), k))
}

/// Every match is a live point that passes the filter, at its distance; no
/// point is missing, and none is there twice.
pub proof fn lemma_matches_of(
    points: Seq<Point>,
    metric: DistanceMetric,
    ar: Arith,
    query: Seq<u32>,
    filter: Option<FilterView>,
)
    requires
        unique_live(points),
    ensures
        matches_of(points, metric, ar, query, filter).len() <= points.len(),
        matches_of(points, metric, ar, query, filter).no_duplicates(),
        forall|c: Candidate| #[trigger]
            matches_of(points, metric, ar, query, filter).contains(c) <==> exists|i: int|
                #![trigger points[i]]
                0 <= i < points.len() && points[i].live && passes(filter, points[i].record.payload)
                    && c == (Candidate {
                    distance: metric.between(ar, query, points[i].record.vector),
                    label: points[i].id,
                }),
    decreases points.len(),
{
    if points.len() > 0 {
        let front = points.drop_last();
        let p = points.last();
        let n = front.len() as int;
        assert(points[n] == p);
        assert forall|i: int, j: int|
            #![trigger front[i], front[j]]
            0 <= i < front.len() && 0 <= j < front.len() && front[i].live && front[j].live
                && front[i].id == front[j].id implies i == j by {
            assert(front[i] == points[i] && front[j] == points[j]);
        }
        lemma_matches_of(front, metric, ar, query, filter);
        let some = matches_of(front, metric, ar, query, filter);
        let all = matches_of(points, metric, ar, query, filter);
        let joins = p.live && passes(filter, p.record.payload);
        let c = Candidate {
            distance: metric.between(ar, query, p.record.vector),
            label: p.id,
        };
        if joins {
            assert(!some.contains(c)) by {
                if some.contains(c) {
                    let i = choose|i: int|
                        #![trigger front[i]]
                        0 <= i < front.len() && front[i].live && passes(
                            filter,
                            front[i].record.payload,
                        ) && c == (Candidate {
                            distance: metric.between(ar, query, front[i].record.vector),
                            label: front[i].id,
                        });
                    assert(points[i] == front[i]);
                }
            }
            assert forall|i: int, j: int|
                0 <= i < all.len() && 0 <= j < all.len() && i != j implies all[i] != all[j] by {
                if i < some.len() {
                    assert(some.contains(some[i]));
                }
                if j < some.len() {
                    assert(some.contains(some[j]));
                }
            }
        }
        assert forall|x: Candidate| #[trigger] all.contains(x) <==> exists|i: int|
            #![trigger points[i]]
            0 <= i < points.len() && points[i].live && passes(filter, points[i].record.payload) && x
                == (Candidate {
                distance: metric.between(ar, query, points[i].record.vector),
                label: points[i].id,
            }) by {
            if all.contains(x) {
                let k = choose|k: int| 0 <= k < all.len() && all[k] == x;
                if k < some.len() {
                    assert(some[k] == x);
                    assert(some.contains(x));
                    let i = choose|i: int|
                        #![trigger front[i]]
                        0 <= i < front.len() && front[i].live && passes(
                            filter,
                            front[i].record.payload,
                        ) && x == (Candidate {
                            distance: metric.between(ar, query, front[i].record.vector),
                            label: front[i].id,
                        });
                    assert(points[i] == front[i]);
                }
            }
            if exists|i: int|
                #![trigger points[i]]
                0 <= i < points.len() && points[i].live && passes(filter, points[i].record.payload)
                    && x == (Candidate {
                    distance: metric.between(ar, query, points[i].record.vector),
                    label: points[i].id,
                }) {
                let i = choose|i: int|
                    #![trigger points[i]]
                    0 <= i < points.len() && points[i].live && passes(
                        filter,
                        points[i].record.payload,
                    ) && x == (Candidate {
                        distance: metric.between(ar, query, points[i].record.vector),
                        label: points[i].id,
                    });
                if i < n {
                    assert(front[i] == points[i]);
                    assert(some.contains(x));
                    let k = choose|k: int| 0 <= k < some.len() && some[k] == x;
                    assert(all[k] == x);
                } else {
                    assert(all[all.len() - 1] == x);
                }
            }
        }
    }
}

/// There are as many matches as records that pass the filter.
pub proof fn lemma_matches_count(
    points: Seq<Point>,
    metric: DistanceMetric,
    ar: Arith,
    query: Seq<u32>,
    filter: Option<FilterView>,
)
    requires
        unique_live(points),
    ensures
        wanted_ids(live_records(points), filter).finite(),
        matches_of(points, metric, ar, query, filter).len() == wanted_ids(
            live_records(points),
            filter,
        ).len(),
    decreases points.len(),
{
    lemma_live_records(points);
    let all = live_records(points);
    if points.len() == 0 {
        assert(wanted_ids(all, filter) =~= Set::empty());
    } else {
        let front = points.drop_last();
        let p = points.last();
        assert(points[points.len() - 1] == p);
        assert forall|i: int, j: int|
            #![trigger front[i], front[j]]
            0 <= i < front.len() && 0 <= j < front.len() && front[i].live && front[j].live
                && front[i].id == front[j].id implies i == j by {
            assert(front[i] == points[i] && front[j] == points[j]);
        }
        lemma_matches_count(front, metric, ar, query, filter);
        lemma_live_records(front);
        let some = live_records(front);
        if p.live {
            assert(!some.contains_key(p.id)) by {
                if some.contains_key(p.id) {
                    let i = choose|i: int|
                        #![trigger front[i]]
                        0 <= i < front.len() && front[i].live && front[i].id == p.id;
                    assert(points[i] == front[i]);
                }
            }
            if passes(filter, p.record.payload) {
                assert(wanted_ids(all, filter) =~= wanted_ids(some, filter).insert(p.id));
            } else {
                assert(wanted_ids(all, filter) =~= wanted_ids(some, filter));
            }
        }
    }
}

/// Rearranging keeps what is in a sequence and what is in it twice.
pub proof fn lemma_rearranged(a: Seq<Candidate>, b: Seq<Candidate>)
    requires
        a.to_multiset() == b.to_multiset(),
    ensures
        a.len() == b.len(),
        forall|c: Candidate| #[trigger] a.contains(c) <==> b.contains(c),
        a.no_duplicates() ==> b.no_duplicates(),
{
    broadcast use vstd::seq_lib::group_to_multiset_ensures;

    assert(a.len() == a.to_multiset().len());
    assert(b.len() == b.to_multiset().len());
    assert forall|c: Candidate| #[trigger] a.contains(c) <==> b.contains(c) by {
        assert(a.contains(c) <==> a.to_multiset().count(c) > 0);
        assert(b.contains(c) <==> b.to_multiset().count(c) > 0);
    }
    if a.no_duplicates() {
        a.lemma_multiset_has_no_duplicates();
        b.lemma_multiset_has_no_duplicates_conv();
    }
}

/// The exact answer is an answer.
pub proof fn lemma_exact_hits(
    points: Seq<Point>,
    metric: DistanceMetric,
    ar: Arith,
    query: Seq<u32>,
    k: int,
    filter: Option<FilterView>,
)
    requires
        unique_live(points),
        k >= 0,
    ensures
        sound_answer(
            live_records(points),
            metric,
            ar,
            query,
            k,
            filter,
            exact_hits(points, metric, ar, query, k, filter),
        ),
{
    lemma_live_records(points);
    lemma_matches_of(points, metric, ar, query, filter);
    lemma_matches_count(points, metric, ar, query, filter);
    let cands = matches_of(points, metric, ar, query, filter);
    let order = ranked(cands);
    lemma_ranked(cands);
    lemma_rearranged(cands, order);
    let some = first(order, k);
    let hits = exact_hits(points, metric, ar, query, k, filter);
    let records = live_records(points);
    assert forall|i: int|
        #![trigger hits[i]]
        0 <= i < hits.len() implies {
        &&& records.contains_key(hits[i].id.0)
        &&& passes(filter, records[hits[i].id.0].payload)
        &&& hits[i].distance == metric.between(ar, query, records[hits[i].id.0].vector)
    } by {
        assert(some[i] == order[i]);
        assert(order.contains(order[i]));
        assert(cands.contains(order[i]));
        let j = choose|j: int|
            #![trigger points[j]]
            0 <= j < points.len() && points[j].live && passes(filter, points[j].record.payload)
                && order[i] == (Candidate {
                distance: metric.between(ar, query, points[j].record.vector),
                label: points[j].id,
            });
        assert(records.contains_key(points[j].id));
    }
    assert forall|i: int, j: int| 0 <= i < j < hits.len() implies total_key(hits[i].distance)
        <= total_key(hits[j].distance) by {
        assert(!before(order[j], order[i]));
    }
    assert forall|i: int, j: int| 0 <= i < j < hits.len() implies hits[i].id != hits[j].id by {
        if hits[i].id == hits[j].id {
            assert(hits[i].distance == hits[j].distance);
            assert(order[i] == order[j]);
        }
    }
}

} // verus!
