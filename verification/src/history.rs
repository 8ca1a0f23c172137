//! What holds of every index that was built from nothing by storing and
//! removing.
use crate::bench::{filled, fills};
use crate::candidate::{lemma_ascending_unique, lemma_ranked, ranked, Candidate};
use crate::connect_laws::{
    law_empty_index_is_well_linked, law_removal_keeps_well_linked,
    law_small_index_stays_well_linked, law_well_linked_index_is_exact, lemma_short_list,
    well_linked,
};
use crate::cut_laws::{framed, node_framed};
use crate::distance::DistanceMetric;
use crate::flat::{lemma_flat_points, EntryView, FlatIndex, FlatView};
use crate::float::Arith;
use crate::format::{
    legible, lists_storable, portable, AnyView, MAX_LAYERS, MAX_SNAPSHOT_DIM, MAX_SNAPSHOT_M,
};
use crate::hnsw::{lemma_inserted, HnswIndex, HnswView};
use crate::hnsw_laws::{agrees, lemma_same_elements, ties_agree};
use crate::index::{Index, Record};
use crate::json::JsonView;
use crate::link_laws::{
    degrees_bounded, law_insertion_keeps_degrees_bounded, law_removal_keeps_degrees_bounded,
};
use crate::payload::{passes, FilterView};
use crate::persist::AnyIndex;
use crate::records::{
    exact_hits, holds_live, lemma_drop_point, lemma_live_records, lemma_matches_of,
    lemma_push_point, lemma_retire_point, live_count, live_records, matches_of, unique_live, Point,
};
use crate::tidy_laws::{
    law_insertion_keeps_tidy, law_removal_keeps_tidy, lemma_list_fits, simple_list, tidy,
};
use vstd::prelude::*;

verus! {

/// A call that changes an index.
#[verifier::ext_equal]
pub enum Op {
    Add { id: u64, vector: Seq<u32>, payload: Option<JsonView> },
    Remove { id: u64 },
}

/// The index after a call: a call that is refused, or that removes what is not
/// there, changes nothing.
#[verifier::opaque]
pub open spec fn stepped(v: AnyView, ar: Arith, op: Op) -> AnyView {
    match op {
        Op::Add { id, vector, payload } => if vector.len() != v.dim() || live_records(
            v.points(),
        ).contains_key(id) {
            v
        } else {
            v.inserted(ar, id, vector, payload)
        },
        Op::Remove { id } => if live_records(v.points()).contains_key(id) {
            v.removed(id)
        } else {
            v
        },
    }
}

/// The index after calls, in order.
pub open spec fn after_calls(v: AnyView, ar: Arith, ops: Seq<Op>) -> AnyView
    decreases ops.len(),
{
    if ops.len() == 0 {
        v
    } else {
        stepped(after_calls(v, ar, ops.drop_last()), ar, ops.last())
    }
}

/// What an index of a dimension holds after a call.
pub open spec fn records_stepped(
    records: Map<u64, Record>,
    dim: usize,
    op: Op,
) -> Map<u64, Record> {
    match op {
        Op::Add { id, vector, payload } => if vector.len() != dim || records.contains_key(id) {
            records
        } else {
            records.insert(id, Record { vector, payload })
        },
        Op::Remove { id } => records.remove(id),
    }
}

/// What an index of a dimension holds after calls on one that held nothing.
pub open spec fn records_after(dim: usize, ops: Seq<Op>) -> Map<u64, Record>
    decreases ops.len(),
{
    if ops.len() == 0 {
        Map::empty()
    } else {
        records_stepped(records_after(dim, ops.drop_last()), dim, ops.last())
    }
}

/// How many calls store a vector, or try to.
pub open spec fn adds(ops: Seq<Op>) -> nat
    decreases ops.len(),
{
    if ops.len() == 0 {
        0
    } else {
        adds(ops.drop_last()) + if ops.last() is Add {
            1nat
        } else {
            0nat
        }
    }
}

/// Whether an index is new: nothing was ever stored in it.
pub open spec fn is_new(v: AnyView) -> bool {
    match v {
        AnyView::Flat(f) => f.entries.len() == 0,
        AnyView::Hnsw(h) => h.nodes.len() == 0 && h.entry is None,
    }
}

/// Whether the places of so many nodes fit 32 bits. A flat index has no such
/// limit.
pub open spec fn places_fit(v: AnyView, count: nat) -> bool {
    v is Hnsw ==> count <= 0x1_0000_0000
}

/// The invariant of an index that was built: of an HNSW index also that no
/// neighbor list is too long, names a node twice or names its own node, and
/// that the entry node is the top of the graph.
pub open spec fn in_shape(v: AnyView) -> bool {
    match v {
        AnyView::Flat(f) => f.wf(),
        AnyView::Hnsw(h) => h.wf() && tidy(h) && degrees_bounded(h.nodes, h.config.m as int),
    }
}

/// Whether two indexes are of one type, dimension and metric, with the same
/// parameters.
pub open spec fn same_kind(a: AnyView, b: AnyView) -> bool {
    match (a, b) {
        (AnyView::Flat(x), AnyView::Flat(y)) => x.dim == y.dim && x.metric == y.metric,
        (AnyView::Hnsw(x), AnyView::Hnsw(y)) => x.dim == y.dim && x.metric == y.metric && x.config
            == y.config,
        _ => false,
    }
}

/// Whether every payload is legible in a snapshot.
pub open spec fn all_legible(v: AnyView) -> bool {
    forall|i: int|
        0 <= i < v.points().len() ==> legible((#[trigger] v.points()[i]).record.payload)
}

/// Whether a payload that a call stores is legible in a snapshot.
pub open spec fn op_legible(op: Op) -> bool {
    op matches Op::Add { payload, .. } ==> legible(payload)
}

// ---------------------------------------------------------------------------
// One call
// ---------------------------------------------------------------------------

/// What one call keeps.
spec fn step_keeps(v: AnyView, ar: Arith, op: Op) -> bool {
    let after = stepped(v, ar, op);
    &&& in_shape(after)
    &&& same_kind(v, after)
    &&& live_records(after.points()) == records_stepped(live_records(v.points()), v.dim(), op)
    &&& after.points().len() <= v.points().len() + if op is Add {
        1nat
    } else {
        0nat
    }
    &&& all_legible(v) && op_legible(op) ==> all_legible(after)
}

proof fn lemma_flat_add(v: FlatView, id: u64, vector: Seq<u32>, payload: Option<JsonView>)
    requires
        v.wf(),
        vector.len() == v.dim,
        !live_records(v.points()).contains_key(id),
    ensures
        ({
            let after = v.added(EntryView { id, vector, payload });
            &&& after.wf()
            &&& live_records(after.points()) == live_records(v.points()).insert(
                id,
                Record { vector, payload },
            )
            &&& after.points() == v.points().push(
                Point { id, live: true, record: Record { vector, payload } },
            )
        }),
{
    let e = EntryView { id, vector, payload };
    let after = v.added(e);
    let p = Point { id, live: true, record: Record { vector, payload } };
    lemma_flat_points(v);
    lemma_live_records(v.points());
    assert(!holds_live(v.points(), id));
    lemma_push_point(v.points(), p);
    assert(after.points() =~= v.points().push(p));
    assert forall|i: int, j: int|
        #![trigger after.entries[i], after.entries[j]]
        0 <= i < j < after.entries.len() implies after.entries[i].id != after.entries[j].id by {
        assert(after.points()[i].live && after.points()[j].live);
    }
    assert forall|i: int| 0 <= i < after.entries.len() implies (
    #[trigger] after.entries[i]).vector.len() == after.dim by {
        if i < v.entries.len() {
            assert(after.entries[i] == v.entries[i]);
        }
    }
}

proof fn lemma_flat_remove(v: FlatView, id: u64)
    requires
        v.wf(),
        live_records(v.points()).contains_key(id),
    ensures
        ({
            let after = v.removed_at(v.place_of(id));
            &&& after.wf()
            &&& live_records(after.points()) == live_records(v.points()).remove(id)
            &&& after.points().len() + 1 == v.points().len()
            &&& forall|j: int|
                0 <= j < after.points().len() ==> v.points().contains(#[trigger] after.points()[j])
        }),
{
    let points = v.points();
    lemma_flat_points(v);
    lemma_live_records(points);
    let at = v.place_of(id);
    let i0 = choose|i: int|
        #![trigger points[i]]
        0 <= i < points.len() && points[i].live && points[i].id == id;
    assert(v.entries[i0].id == id);
    assert(0 <= at < v.entries.len() && v.entries[at].id == id);
    let next = v.removed_at(at);
    let after = next.points();
    let last = v.entries.len() - 1;
    assert forall|j: int| 0 <= j < after.len() implies #[trigger] after[j] == points[if j == at {
        last
    } else {
        j
    }] && next.entries[j] == v.entries[if j == at {
        last
    } else {
        j
    }] by {}
    assert forall|i: int, j: int|
        #![trigger next.entries[i], next.entries[j]]
        0 <= i < j < next.entries.len() implies next.entries[i].id != next.entries[j].id by {
        assert(after[i] == after[i] && after[j] == after[j]);
        let pi = if i == at {
            last
        } else {
            i
        };
        let pj = if j == at {
            last
        } else {
            j
        };
        assert(points[pi].id != points[pj].id);
    }
    assert forall|i: int| 0 <= i < next.entries.len() implies (
    #[trigger] next.entries[i]).vector.len() == next.dim by {
        assert(after[i] == after[i]);
        let pi = if i == at {
            last
        } else {
            i
        };
        assert(v.entries[pi].vector.len() == v.dim);
    }
    lemma_flat_points(next);
    assert forall|j: int|
        #![trigger after[j]]
        0 <= j < after.len() && after[j].live implies exists|i: int|
        #![trigger points[i]]
        0 <= i < points.len() && i != at && points[i] == after[j] by {
        assert(points[if j == at {
            last
        } else {
            j
        }] == after[j]);
    }
    assert forall|i: int|
        #![trigger points[i]]
        0 <= i < points.len() && i != at && points[i].live implies exists|j: int|
        #![trigger after[j]]
        0 <= j < after.len() && after[j] == points[i] by {
        assert(after[if i == last {
            at
        } else {
            i
        }] == points[i]);
    }
    lemma_drop_point(points, after, at);
    assert forall|j: int| 0 <= j < after.len() implies points.contains(#[trigger] after[j]) by {
        let p = if j == at {
            last
        } else {
            j
        };
        assert(points[p] == after[j]);
    }
}

proof fn lemma_hnsw_remove(v: HnswView, id: u64)
    requires
        v.wf(),
        live_records(v.points()).contains_key(id),
    ensures
        ({
            let at = v.place_of(id);
            let after = v.retired(at);
            &&& 0 <= at < v.nodes.len()
            &&& after.wf()
            &&& live_records(after.points()) == live_records(v.points()).remove(id)
        }),
{
    let points = v.points();
    lemma_live_records(points);
    let at = v.place_of(id);
    let i0 = choose|i: int|
        #![trigger points[i]]
        0 <= i < points.len() && points[i].live && points[i].id == id;
    assert(!v.nodes[i0].deleted && v.nodes[i0].id == id);
    assert(0 <= at < v.nodes.len() && !v.nodes[at].deleted && v.nodes[at].id == id);
    assert(points[at].live);
    lemma_retire_point(points, at);
    let after = v.retired(at);
    let gone = Point { live: false, ..points[at] };
    assert(after.points() =~= points.update(at, gone));
    let now = after.nodes;
    assert forall|i: int, layer: int, j: int|
        #![trigger now[i].neighbors[layer][j]]
        0 <= i < now.len() && 0 <= layer < now[i].neighbors.len() && 0 <= j
            < now[i].neighbors[layer].len() implies now[i].neighbors[layer][j] < now.len()
        && now[now[i].neighbors[layer][j] as int].reaches(layer) by {
        assert(now[i].neighbors[layer][j] == v.nodes[i].neighbors[layer][j]);
    }
    assert forall|i: int| 0 <= i < now.len() implies (#[trigger] now[i]).vector.len() == v.dim
        && now[i].neighbors.len() >= 1 by {
        assert(v.nodes[i].neighbors.len() >= 1);
    }
}

proof fn lemma_step(v: AnyView, ar: Arith, op: Op)
    requires
        in_shape(v),
        op is Add ==> places_fit(v, v.points().len() + 1),
    ensures
        step_keeps(v, ar, op),
{
    match v {
        AnyView::Flat(f) => lemma_flat_step(f, ar, op),
        AnyView::Hnsw(h) => lemma_hnsw_step(h, ar, op),
    }
}

/// One call keeps the invariant and the kind of an index, and does to its
/// records what the call says.
pub proof fn law_step_keeps_records(v: AnyView, ar: Arith, op: Op)
    requires
        in_shape(v),
        op is Add ==> places_fit(v, v.points().len() + 1),
    ensures
        in_shape(stepped(v, ar, op)),
        same_kind(v, stepped(v, ar, op)),
        live_records(stepped(v, ar, op).points()) == records_stepped(
            live_records(v.points()),
            v.dim(),
            op,
        ),
        stepped(v, ar, op).points().len() <= v.points().len() + if op is Add {
            1nat
        } else {
            0nat
        },
{
    lemma_step(v, ar, op);
}

proof fn lemma_flat_step(f: FlatView, ar: Arith, op: Op)
    requires
        f.wf(),
    ensures
        step_keeps(AnyView::Flat(f), ar, op),
{
    reveal(stepped);
    let v = AnyView::Flat(f);
    let held = live_records(f.points());
    match op {
        Op::Add { id, vector, payload } => {
            if vector.len() == f.dim && !held.contains_key(id) {
                lemma_flat_add(f, id, vector, payload);
                let after = f.added(EntryView { id, vector, payload });
                if all_legible(v) && op_legible(op) {
                    assert forall|i: int| 0 <= i < after.points().len() implies legible(
                        (#[trigger] after.points()[i]).record.payload,
                    ) by {
                        if i < f.points().len() {
                            assert(v.points()[i] == after.points()[i]);
                        }
                    }
                }
            }
        },
        Op::Remove { id } => {
            if held.contains_key(id) {
                lemma_flat_remove(f, id);
                let after = f.removed_at(f.place_of(id));
                if all_legible(v) {
                    assert forall|j: int| 0 <= j < after.points().len() implies legible(
                        (#[trigger] after.points()[j]).record.payload,
                    ) by {
                        let i = choose|i: int|
                            0 <= i < f.points().len() && f.points()[i] == after.points()[j];
                        assert(legible(v.points()[i].record.payload));
                    }
                }
            } else {
                assert(held.remove(id) =~= held);
            }
        },
    }
}

proof fn lemma_hnsw_step(h: HnswView, ar: Arith, op: Op)
    requires
        in_shape(AnyView::Hnsw(h)),
        op is Add ==> h.nodes.len() < 0x1_0000_0000,
    ensures
        step_keeps(AnyView::Hnsw(h), ar, op),
{
    reveal(stepped);
    let v = AnyView::Hnsw(h);
    let held = live_records(h.points());
    match op {
        Op::Add { id, vector, payload } => {
            if vector.len() == h.dim && !held.contains_key(id) {
                lemma_inserted(h, ar, id, vector, payload);
                law_insertion_keeps_tidy(h, ar, id, vector, payload);
                law_insertion_keeps_degrees_bounded(h, ar, id, vector, payload);
                let after = h.inserted(ar, id, vector, payload);
                if all_legible(v) && op_legible(op) {
                    lemma_inserted_payloads(h, ar, id, vector, payload);
                    assert forall|i: int| 0 <= i < after.points().len() implies legible(
                        (#[trigger] after.points()[i]).record.payload,
                    ) by {
                        if i < h.points().len() {
                            assert(after.nodes[i].payload == h.nodes[i].payload);
                            assert(legible(v.points()[i].record.payload));
                        }
                    }
                }
            }
        },
        Op::Remove { id } => {
            if held.contains_key(id) {
                lemma_hnsw_remove(h, id);
                let at = h.place_of(id);
                law_removal_keeps_tidy(h, at);
                law_removal_keeps_degrees_bounded(h, at);
                let after = h.retired(at);
                if all_legible(v) {
                    assert forall|i: int| 0 <= i < after.points().len() implies legible(
                        (#[trigger] after.points()[i]).record.payload,
                    ) by {
                        assert(legible(v.points()[i].record.payload));
                    }
                }
            } else {
                assert(held.remove(id) =~= held);
            }
        },
    }
}

/// Storing a vector leaves the payloads of the others as they are.
proof fn lemma_inserted_payloads(
    v: HnswView,
    ar: Arith,
    id: u64,
    vector: Seq<u32>,
    payload: Option<JsonView>,
)
    requires
        v.wf(),
        v.nodes.len() < 0x1_0000_0000,
        vector.len() == v.dim,
        !live_records(v.points()).contains_key(id),
    ensures
        ({
            let after = v.inserted(ar, id, vector, payload);
            &&& after.nodes.len() == v.nodes.len() + 1
            &&& after.nodes[v.nodes.len() as int].payload == payload
            &&& forall|i: int|
                0 <= i < v.nodes.len() ==> (#[trigger] after.nodes[i]).payload
                    == v.nodes[i].payload
        }),
{
    let level = crate::rng::level_of(
        ar,
        v.config.m,
        crate::rng::scrambled(crate::rng::next_state(v.rng)),
    );
    let new_pos = v.nodes.len() as u32;
    let n = v.nodes.len() as int;
    let fresh = crate::graph::NodeView {
        id,
        vector,
        neighbors: Seq::new((level + 1) as nat, |i: int| seq![]),
        deleted: false,
        payload,
    };
    let grown = v.nodes.push(fresh);
    crate::hnsw::lemma_pushed_wf(v.nodes, v.dim as nat, fresh);
    assert(grown[n] == fresh);
    let after = v.inserted(ar, id, vector, payload);
    match v.entry {
        None => {},
        Some(entry) => {
            let dist = crate::graph::distances(ar, v.metric, grown, vector);
            let ep = crate::graph::descend(grown, dist, v.max_layer as int, level + 1, entry);
            let top = if level < v.max_layer {
                level
            } else {
                v.max_layer
            };
            assert(grown[entry as int] == v.nodes[entry as int]);
            if level < v.max_layer {
                crate::graph::lemma_descend(
                    grown,
                    v.dim as nat,
                    dist,
                    v.max_layer as int,
                    level + 1,
                    entry,
                );
            }
            crate::link::lemma_layers_linked(
                ar,
                v.metric,
                v.rules(),
                grown,
                v.dim as nat,
                new_pos,
                top as int,
                ep,
            );
            assert(crate::link::same_points(grown, after.nodes));
            assert forall|i: int| 0 <= i < v.nodes.len() implies (
            #[trigger] after.nodes[i]).payload == v.nodes[i].payload by {
                assert(grown[i] == v.nodes[i]);
            }
        },
    }
}

// ---------------------------------------------------------------------------
// Any number of calls
// ---------------------------------------------------------------------------

/// What every index holds to that was built from nothing by storing and
/// removing: its invariant, its kind, and its records, which do not depend on
/// the type of the index.
pub proof fn law_built_index_is_in_shape(v: AnyView, ar: Arith, ops: Seq<Op>)
    requires
        is_new(v),
        places_fit(v, adds(ops)),
    ensures
        in_shape(after_calls(v, ar, ops)),
        same_kind(v, after_calls(v, ar, ops)),
        live_records(after_calls(v, ar, ops).points()) == records_after(v.dim(), ops),
        after_calls(v, ar, ops).points().len() <= adds(ops),
{
    lemma_calls(v, ar, ops);
}

spec fn calls_keep(v: AnyView, ar: Arith, ops: Seq<Op>) -> bool {
    let after = after_calls(v, ar, ops);
    &&& in_shape(after)
    &&& same_kind(v, after)
    &&& live_records(after.points()) == records_after(v.dim(), ops)
    &&& after.points().len() <= adds(ops)
    &&& (forall|i: int| 0 <= i < ops.len() ==> op_legible(#[trigger] ops[i])) ==> all_legible(after)
}

proof fn lemma_calls(v: AnyView, ar: Arith, ops: Seq<Op>)
    requires
        is_new(v),
        places_fit(v, adds(ops)),
    ensures
        calls_keep(v, ar, ops),
    decreases ops.len(),
{
    if ops.len() == 0 {
        assert(v.points() =~= seq![]);
    } else {
        let front = ops.drop_last();
        let op = ops.last();
        lemma_calls(v, ar, front);
        let mid = after_calls(v, ar, front);
        lemma_step(mid, ar, op);
        assert(ops[ops.len() - 1] == op);
        if forall|i: int| 0 <= i < ops.len() ==> op_legible(#[trigger] ops[i]) {
            assert forall|i: int| 0 <= i < front.len() implies op_legible(
                #[trigger] front[i],
            ) by {
                assert(front[i] == ops[i]);
            }
            assert(op_legible(op));
        }
    }
}

/// The exact answer depends on the records alone: not on the order in which
/// the vectors are stored, nor on what was removed.
pub proof fn law_exact_answer_depends_on_records(
    a: Seq<Point>,
    b: Seq<Point>,
    metric: DistanceMetric,
    ar: Arith,
    query: Seq<u32>,
    k: int,
    filter: Option<FilterView>,
)
    requires
        unique_live(a),
        unique_live(b),
        live_records(a) == live_records(b),
    ensures
        exact_hits(a, metric, ar, query, k, filter) == exact_hits(
            b,
            metric,
            ar,
            query,
            k,
            filter,
        ),
        matches_of(a, metric, ar, query, filter).len() == matches_of(
            b,
            metric,
            ar,
            query,
            filter,
        ).len(),
{
    let ca = matches_of(a, metric, ar, query, filter);
    let cb = matches_of(b, metric, ar, query, filter);
    lemma_matches_of(a, metric, ar, query, filter);
    lemma_matches_of(b, metric, ar, query, filter);
    assert forall|c: Candidate| #[trigger] ca.contains(c) implies cb.contains(c) by {
        lemma_match_moves(a, b, metric, ar, query, filter, c);
    }
    assert forall|c: Candidate| #[trigger] cb.contains(c) implies ca.contains(c) by {
        lemma_match_moves(b, a, metric, ar, query, filter, c);
    }
    lemma_same_elements(ca, cb);
    lemma_ranked(ca);
    lemma_ranked(cb);
    lemma_ascending_unique(ranked(ca), ranked(cb));
}

proof fn lemma_match_moves(
    a: Seq<Point>,
    b: Seq<Point>,
    metric: DistanceMetric,
    ar: Arith,
    query: Seq<u32>,
    filter: Option<FilterView>,
    c: Candidate,
)
    requires
        unique_live(a),
        unique_live(b),
        live_records(a) == live_records(b),
        matches_of(a, metric, ar, query, filter).contains(c),
    ensures
        matches_of(b, metric, ar, query, filter).contains(c),
{
    lemma_matches_of(a, metric, ar, query, filter);
    lemma_matches_of(b, metric, ar, query, filter);
    lemma_live_records(a);
    lemma_live_records(b);
    let i = choose|i: int|
        #![trigger a[i]]
        0 <= i < a.len() && a[i].live && passes(filter, a[i].record.payload) && c == (Candidate {
            distance: metric.between(ar, query, a[i].record.vector),
            label: a[i].id,
        });
    assert(live_records(b).contains_key(a[i].id));
    let j = choose|j: int|
        #![trigger b[j]]
        0 <= j < b.len() && b[j].live && b[j].id == a[i].id;
    assert(b[j].record == a[i].record);
}

/// A small index is exact: an HNSW index and a flat index that went through
/// the same calls, of which no more than twice `m` and one store a vector,
/// agree on every search whose beam is as wide as the number of vectors: as
/// many hits, with the same distance at every place. Where no two vectors that
/// are wanted tie, or those that tie were stored in the order of their ids,
/// the hits are the same.
pub proof fn law_small_index_agrees_with_flat(
    h: HnswView,
    f: FlatView,
    ar: Arith,
    ops: Seq<Op>,
    query: Seq<u32>,
    k: usize,
    ef: usize,
    filter: Option<FilterView>,
)
    requires
        is_new(AnyView::Hnsw(h)),
        is_new(AnyView::Flat(f)),
        h.dim == f.dim,
        h.metric == f.metric,
        h.config.m >= 1,
        adds(ops) <= 2 * h.config.m + 1,
        adds(ops) <= 0x1_0000_0000,
        records_after(h.dim, ops).dom().len() <= ef,
    ensures
        after_calls(AnyView::Hnsw(h), ar, ops) matches AnyView::Hnsw(x) && after_calls(
            AnyView::Flat(f),
            ar,
            ops,
        ) matches AnyView::Flat(y) && {
            let exact = exact_hits(y.points(), y.metric, ar, query, k as int, filter);
            &&& agrees(x.found(ar, query, k, ef, filter), exact)
            &&& ties_agree(x, ar, query, filter) ==> x.found(ar, query, k, ef, filter) == exact
        },
{
    let a = AnyView::Hnsw(h);
    let b = AnyView::Flat(f);
    lemma_calls(a, ar, ops);
    lemma_calls(b, ar, ops);
    lemma_small_calls(h, ar, ops);
    let x = after_calls(a, ar, ops)->Hnsw_0;
    let y = after_calls(b, ar, ops)->Flat_0;
    lemma_flat_points(y);
    law_exact_answer_depends_on_records(
        x.points(),
        y.points(),
        x.metric,
        ar,
        query,
        k as int,
        filter,
    );
    lemma_live_records(x.points());
    crate::laws::lemma_matches_are_live(x.points(), x.metric, ar, query, filter);
    law_well_linked_index_is_exact(x, ar, query, k, ef, filter);
}

proof fn lemma_small_calls(h: HnswView, ar: Arith, ops: Seq<Op>)
    requires
        is_new(AnyView::Hnsw(h)),
        h.config.m >= 1,
        adds(ops) <= 2 * h.config.m + 1,
        adds(ops) <= 0x1_0000_0000,
    ensures
        after_calls(AnyView::Hnsw(h), ar, ops) matches AnyView::Hnsw(x) && well_linked(x),
    decreases ops.len(),
{
    let v = AnyView::Hnsw(h);
    if ops.len() == 0 {
        law_empty_index_is_well_linked(h);
    } else {
        let front = ops.drop_last();
        lemma_small_calls(h, ar, front);
        lemma_calls(v, ar, front);
        let mid = after_calls(v, ar, front)->Hnsw_0;
        let held = live_records(mid.points());
        reveal(stepped);
        match ops.last() {
            Op::Add { id, vector, payload } => {
                if vector.len() == mid.dim && !held.contains_key(id) {
                    law_small_index_stays_well_linked(mid, ar, id, vector, payload);
                }
            },
            Op::Remove { id } => {
                if held.contains_key(id) {
                    lemma_hnsw_remove(mid, id);
                    law_removal_keeps_well_linked(mid, mid.place_of(id));
                }
            },
        }
    }
}

/// A built index is portable: within the limits that the format sets on the
/// dimension, on `m`, on the layers and on the number of nodes, with legible
/// payloads, its snapshot reads back and is refused when cut short.
pub proof fn law_built_index_is_portable(v: AnyView, ar: Arith, ops: Seq<Op>)
    requires
        is_new(v),
        1 <= v.dim() <= MAX_SNAPSHOT_DIM,
        v matches AnyView::Hnsw(h) ==> 1 <= h.config.m <= MAX_SNAPSHOT_M,
        after_calls(v, ar, ops) matches AnyView::Hnsw(h) ==> h.max_layer < MAX_LAYERS,
        adds(ops) <= if v is Hnsw {
            u32::MAX as nat
        } else {
            usize::MAX as nat
        },
        forall|i: int| 0 <= i < ops.len() ==> op_legible(#[trigger] ops[i]),
    ensures
        portable(after_calls(v, ar, ops)),
{
    lemma_calls(v, ar, ops);
    match after_calls(v, ar, ops) {
        AnyView::Flat(f) => {
            assert forall|i: int| 0 <= i < f.entries.len() implies legible(
                (#[trigger] f.entries[i]).payload,
            ) by {
                assert(legible(f.points()[i].record.payload));
            }
        },
        AnyView::Hnsw(h) => {
            lemma_few_live(h.points());
            assert forall|i: int|
                #![trigger h.nodes[i]]
                0 <= i < h.nodes.len() implies {
                &&& h.nodes[i].neighbors.len() <= MAX_LAYERS
                &&& lists_storable(h.nodes[i].neighbors, h.nodes.len() as u32)
                &&& legible(h.nodes[i].payload)
            } by {
                assert(legible(h.points()[i].record.payload));
                let lists = h.nodes[i].neighbors;
                assert forall|l: int| 0 <= l < lists.len() implies {
                    &&& (#[trigger] lists[l]).len() <= 2 * (h.nodes.len() as u32)
                    &&& lists[l].len() <= u32::MAX
                    &&& forall|j: int|
                        0 <= j < lists[l].len() ==> (#[trigger] lists[l][j]) < h.nodes.len() as u32
                } by {
                    assert(simple_list(h.nodes[i].neighbors[l], i));
                    assert forall|j: int| 0 <= j < lists[l].len() implies (
                    #[trigger] lists[l][j]) < h.nodes.len() by {
                        assert(h.nodes[i].neighbors[l][j] < h.nodes.len());
                    }
                    lemma_list_fits(lists[l], h.nodes.len());
                }
            }
        },
    }
}

/// The counts of a built index fit the fields of the format, as long as its
/// layers can be counted in 32 bits: no part of its snapshot passes for a
/// snapshot.
pub proof fn law_built_index_is_framed(v: AnyView, ar: Arith, ops: Seq<Op>)
    requires
        is_new(v),
        places_fit(v, adds(ops)),
        adds(ops) < 0x1_0000_0000_0000_0000,
        after_calls(v, ar, ops) matches AnyView::Hnsw(h) ==> h.max_layer < u32::MAX,
    ensures
        framed(after_calls(v, ar, ops)),
{
    lemma_calls(v, ar, ops);
    match after_calls(v, ar, ops) {
        AnyView::Flat(f) => {},
        AnyView::Hnsw(h) => {
            assert forall|i: int| 0 <= i < h.nodes.len() implies node_framed(
                #[trigger] h.nodes[i],
                h.dim as nat,
            ) by {
                let lists = h.nodes[i].neighbors;
                assert forall|l: int| 0 <= l < lists.len() implies (#[trigger] lists[l]).len()
                    < 0x1_0000_0000 by {
                    assert(simple_list(h.nodes[i].neighbors[l], i));
                    assert forall|j: int| 0 <= j < lists[l].len() implies (
                    #[trigger] lists[l][j]) < h.nodes.len() by {
                        assert(h.nodes[i].neighbors[l][j] < h.nodes.len());
                    }
                    lemma_short_list(lists[l], h.nodes.len() as int, i);
                }
            }
        },
    }
}

proof fn lemma_few_live(points: Seq<Point>)
    ensures
        live_count(points) <= points.len(),
    decreases points.len(),
{
    if points.len() > 0 {
        lemma_few_live(points.drop_last());
    }
}

// ---------------------------------------------------------------------------
// Calls of an index
// ---------------------------------------------------------------------------

/// Whether a call on an index came to what the index promises of it.
pub open spec fn called<I: Index>(before: I, ar: Arith, op: Op, after: I) -> bool {
    match op {
        Op::Add { id, vector, payload } => if vector.len() != before.spec_dim()
            || before.records().contains_key(id) {
            after == before
        } else {
            before.stored(ar, id, vector, payload, after)
        },
        Op::Remove { id } => if before.records().contains_key(id) {
            before.dropped(id, after)
        } else {
            after == before
        },
    }
}

/// Whether states of an index follow one another by calls.
#[verifier::opaque]
pub open spec fn ran<I: Index>(states: Seq<I>, ar: Arith, ops: Seq<Op>) -> bool {
    &&& states.len() == ops.len() + 1
    &&& forall|i: int|
        0 <= i < ops.len() ==> called(#[trigger] states[i], ar, ops[i], states[i + 1])
}

/// Calls of an index of either type come to what they come to in mathematics:
/// what was called, and in which order, fixes the whole of the index.
pub proof fn law_calls_fix_the_index(states: Seq<AnyIndex>, ar: Arith, ops: Seq<Op>)
    requires
        ran(states, ar, ops),
    ensures
        states[ops.len() as int]@ == after_calls(states[0]@, ar, ops),
{
    let views = states.map_values(|s: AnyIndex| s@);
    assert(states.len() == ops.len() + 1) by {
        reveal(ran);
    }
    assert forall|i: int| 0 <= i < ops.len() implies #[trigger] views[i + 1] == stepped(
        views[i],
        ar,
        ops[i],
    ) by {
        reveal(ran);
        reveal(stepped);
        assert(called(states[i], ar, ops[i], states[i + 1]));
    }
    lemma_views_follow(views, ar, ops, ops.len() as int);
    assert(ops.take(ops.len() as int) =~= ops);
}

/// The same of an HNSW index.
pub proof fn law_calls_fix_the_hnsw_index(states: Seq<HnswIndex>, ar: Arith, ops: Seq<Op>)
    requires
        ran(states, ar, ops),
    ensures
        AnyView::Hnsw(states[ops.len() as int]@) == after_calls(
            AnyView::Hnsw(states[0]@),
            ar,
            ops,
        ),
{
    let views = states.map_values(|s: HnswIndex| AnyView::Hnsw(s@));
    assert(states.len() == ops.len() + 1) by {
        reveal(ran);
    }
    assert forall|i: int| 0 <= i < ops.len() implies #[trigger] views[i + 1] == stepped(
        views[i],
        ar,
        ops[i],
    ) by {
        reveal(ran);
        reveal(stepped);
        assert(called(states[i], ar, ops[i], states[i + 1]));
    }
    lemma_views_follow(views, ar, ops, ops.len() as int);
    assert(ops.take(ops.len() as int) =~= ops);
}

/// The same of a flat index.
pub proof fn law_calls_fix_the_flat_index(states: Seq<FlatIndex>, ar: Arith, ops: Seq<Op>)
    requires
        ran(states, ar, ops),
    ensures
        AnyView::Flat(states[ops.len() as int]@) == after_calls(
            AnyView::Flat(states[0]@),
            ar,
            ops,
        ),
{
    let views = states.map_values(|s: FlatIndex| AnyView::Flat(s@));
    assert(states.len() == ops.len() + 1) by {
        reveal(ran);
    }
    assert forall|i: int| 0 <= i < ops.len() implies #[trigger] views[i + 1] == stepped(
        views[i],
        ar,
        ops[i],
    ) by {
        reveal(ran);
        reveal(stepped);
        assert(called(states[i], ar, ops[i], states[i + 1]));
    }
    lemma_views_follow(views, ar, ops, ops.len() as int);
    assert(ops.take(ops.len() as int) =~= ops);
}

proof fn lemma_views_follow(views: Seq<AnyView>, ar: Arith, ops: Seq<Op>, n: int)
    requires
        views.len() == ops.len() + 1,
        forall|i: int|
            0 <= i < ops.len() ==> #[trigger] views[i + 1] == stepped(views[i], ar, ops[i]),
        0 <= n <= ops.len(),
    ensures
        views[n] == after_calls(views[0], ar, ops.take(n)),
    decreases n,
{
    if n > 0 {
        lemma_views_follow(views, ar, ops, n - 1);
        assert(ops.take(n).drop_last() =~= ops.take(n - 1));
        assert(views[(n - 1) + 1] == stepped(views[n - 1], ar, ops[n - 1]));
    }
}

/// Construction is deterministic: two HNSW indexes that start alike, with the
/// same parameters and the same seed, and go through the same calls are alike,
/// and every search finds the same in both, ids and distances in the same
/// order.
pub proof fn law_construction_is_deterministic(
    a: Seq<HnswIndex>,
    b: Seq<HnswIndex>,
    ar: Arith,
    ops: Seq<Op>,
    query: Seq<u32>,
    k: usize,
    ef: usize,
    filter: Option<FilterView>,
)
    requires
        ran(a, ar, ops),
        ran(b, ar, ops),
        a[0]@ == b[0]@,
    ensures
        a[ops.len() as int]@ == b[ops.len() as int]@,
        a[ops.len() as int]@.found_outcome(ar, query, k, ef, filter)
            == b[ops.len() as int]@.found_outcome(ar, query, k, ef, filter),
{
    law_calls_fix_the_hnsw_index(a, ar, ops);
    law_calls_fix_the_hnsw_index(b, ar, ops);
}

/// An HNSW index with one more vector, without a payload.
#[verifier::opaque]
pub open spec fn with_vector(v: HnswView, ar: Arith, id: u64, vector: Seq<u32>) -> HnswView {
    v.inserted(ar, id, vector, None)
}

/// An HNSW index with vectors stored in it one by one, each under its place.
pub open spec fn hnsw_filled(v: HnswView, ar: Arith, vectors: Seq<Vec<u32>>) -> HnswView
    decreases vectors.len(),
{
    if vectors.len() == 0 {
        v
    } else {
        with_vector(
            hnsw_filled(v, ar, vectors.drop_last()),
            ar,
            (vectors.len() - 1) as u64,
            vectors.last()@,
        )
    }
}

/// A flat index with vectors stored in it one by one, each under its place.
pub open spec fn flat_filled(v: FlatView, vectors: Seq<Vec<u32>>) -> FlatView
    decreases vectors.len(),
{
    if vectors.len() == 0 {
        v
    } else {
        flat_filled(v, vectors.drop_last()).added(
            EntryView {
                id: (vectors.len() - 1) as u64,
                vector: vectors.last()@,
                payload: None,
            },
        )
    }
}

/// Filling an HNSW index stores the vectors one by one, and fixes the whole of
/// the index: graph, entry node, parameters and generator.
pub proof fn law_filled_hnsw_index(
    index: HnswIndex,
    ar: Arith,
    vectors: Seq<Vec<u32>>,
    after: HnswIndex,
)
    requires
        filled(index, ar, vectors, after),
    ensures
        after@ == hnsw_filled(index@, ar, vectors),
{
    let states = choose|states: Seq<HnswIndex>| #[trigger]
        fills(states, ar, vectors) && states[0] == index && states[vectors.len() as int] == after;
    lemma_hnsw_states(states, ar, vectors, vectors.len() as int);
    assert(vectors.take(vectors.len() as int) =~= vectors);
}

proof fn lemma_hnsw_states(states: Seq<HnswIndex>, ar: Arith, vectors: Seq<Vec<u32>>, n: int)
    requires
        fills(states, ar, vectors),
        0 <= n <= vectors.len(),
    ensures
        states[n]@ == hnsw_filled(states[0]@, ar, vectors.take(n)),
    decreases n,
{
    if n > 0 {
        lemma_hnsw_states(states, ar, vectors, n - 1);
        assert(vectors.take(n).drop_last() =~= vectors.take(n - 1));
        lemma_hnsw_state(states, ar, vectors, n - 1);
    }
}

proof fn lemma_hnsw_state(states: Seq<HnswIndex>, ar: Arith, vectors: Seq<Vec<u32>>, i: int)
    requires
        fills(states, ar, vectors),
        0 <= i < vectors.len(),
    ensures
        states[i + 1]@ == with_vector(states[i]@, ar, i as u64, vectors[i]@),
{
    reveal(with_vector);
    reveal(fills);
    assert(states[i].stored(ar, i as u64, vectors[i]@, None, states[i + 1]));
}

/// Filling a flat index stores the vectors one behind the other.
pub proof fn law_filled_flat_index(
    index: FlatIndex,
    ar: Arith,
    vectors: Seq<Vec<u32>>,
    after: FlatIndex,
)
    requires
        filled(index, ar, vectors, after),
    ensures
        after@ == flat_filled(index@, vectors),
{
    let states = choose|states: Seq<FlatIndex>| #[trigger]
        fills(states, ar, vectors) && states[0] == index && states[vectors.len() as int] == after;
    lemma_flat_states(states, ar, vectors, vectors.len() as int);
    assert(vectors.take(vectors.len() as int) =~= vectors);
}

proof fn lemma_flat_states(states: Seq<FlatIndex>, ar: Arith, vectors: Seq<Vec<u32>>, n: int)
    requires
        fills(states, ar, vectors),
        0 <= n <= vectors.len(),
    ensures
        states[n]@ == flat_filled(states[0]@, vectors.take(n)),
    decreases n,
{
    if n > 0 {
        lemma_flat_states(states, ar, vectors, n - 1);
        reveal(fills);
        assert(vectors.take(n).drop_last() =~= vectors.take(n - 1));
        assert(states[n - 1].stored(ar, (n - 1) as u64, vectors[n - 1]@, None, states[n]));
    }
}

} // verus!
