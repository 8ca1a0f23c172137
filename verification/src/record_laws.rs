//! What the record of a beam tells, count by count: why a node was looked at,
//! and why it was kept or discarded.
use crate::beam::{
    advanced, beam_run, beam_search, beam_start, beam_wf, lemma_beam_start, lemma_beam_turn,
    lemma_kept, lemma_visit, lemma_visit_all, seen, settled, steps_left, visit, visit_all, worst,
    Beam, BeamStatus, Terrain,
};
use crate::beam_laws::{closest_kept, expanded, lemma_closest_visit};
use crate::candidate::{before, lemma_with_candidate, Candidate};
use crate::float::{is_nan, lemma_total_order_refines_less, less};
use crate::walk_laws::{in_record, lemma_told_start, lemma_told_visit, record_kept};
use vstd::prelude::*;

verus! {

/// Whether a result counts against a distance: it is closer or, if ties count
/// too, no farther.
pub open spec fn counts_against(x: u32, d: u32, ties: bool) -> bool {
    if ties {
        !less(d, x)
    } else {
        less(x, d)
    }
}

/// The nodes among the first `upto` of a record that may be results and count
/// against a distance.
pub open spec fn rivals(
    t: Terrain,
    events: Seq<(Candidate, BeamStatus)>,
    upto: int,
    d: u32,
    ties: bool,
) -> Seq<int>
    decreases upto,
{
    if upto <= 0 {
        seq![]
    } else {
        let front = rivals(t, events, upto - 1, d, ties);
        let n = events[upto - 1].0.label as int;
        if t.eligible[n] && counts_against(t.dist[n], d, ties) {
            front.push(n)
        } else {
            front
        }
    }
}

proof fn lemma_rivals(
    t: Terrain,
    events: Seq<(Candidate, BeamStatus)>,
    upto: int,
    d: u32,
    ties: bool,
)
    requires
        0 <= upto <= events.len(),
        forall|i: int, j: int|
            #![trigger events[i], events[j]]
            0 <= i < j < events.len() ==> events[i].0.label != events[j].0.label,
    ensures
        ({
            let some = rivals(t, events, upto, d, ties);
            &&& some.no_duplicates()
            &&& forall|x: int| #[trigger]
                some.contains(x) ==> t.eligible[x] && counts_against(t.dist[x], d, ties) && exists|
                    i: int,
                |
                    0 <= i < upto && (#[trigger] events[i]).0.label == x
            &&& forall|i: int|
                #![trigger events[i]]
                0 <= i < upto && t.eligible[events[i].0.label as int] && counts_against(
                    t.dist[events[i].0.label as int],
                    d,
                    ties,
                ) ==> some.contains(events[i].0.label as int)
        }),
    decreases upto,
{
    if upto > 0 {
        lemma_rivals(t, events, upto - 1, d, ties);
        let front = rivals(t, events, upto - 1, d, ties);
        let some = rivals(t, events, upto, d, ties);
        let n = events[upto - 1].0.label as int;
        if t.eligible[n] && counts_against(t.dist[n], d, ties) {
            if front.contains(n) {
                let i = choose|i: int| 0 <= i < upto - 1 && (#[trigger] events[i]).0.label == n;
                assert(events[i].0.label != events[upto - 1].0.label);
            }
            assert(some[some.len() - 1] == n);
            assert forall|x: int| #[trigger] front.contains(x) implies some.contains(x) by {
                let p = choose|p: int| 0 <= p < front.len() && front[p] == x;
                assert(some[p] == x);
            }
            assert forall|x: int| #[trigger] some.contains(x) implies x == n || front.contains(
                x,
            ) by {
                let p = choose|p: int| 0 <= p < some.len() && some[p] == x;
                if p < front.len() {
                    assert(front[p] == x);
                }
            }
            assert(some.no_duplicates());
        }
    }
}

proof fn lemma_rivals_stay(
    t: Terrain,
    events: Seq<(Candidate, BeamStatus)>,
    more: Seq<(Candidate, BeamStatus)>,
    upto: int,
    d: u32,
    ties: bool,
)
    requires
        upto <= events.len() <= more.len(),
        forall|i: int| #![trigger more[i]] 0 <= i < events.len() ==> more[i] == events[i],
    ensures
        rivals(t, more, upto, d, ties) == rivals(t, events, upto, d, ties),
    decreases upto,
{
    if upto > 0 {
        lemma_rivals_stay(t, events, more, upto - 1, d, ties);
        assert(more[upto - 1] == events[upto - 1]);
    }
}

/// The labels of candidates.
spec fn places_of(cands: Seq<Candidate>) -> Seq<int> {
    cands.map_values(|c: Candidate| c.label as int)
}

proof fn lemma_places(t: Terrain, b: Beam)
    requires
        beam_wf(t, b),
    ensures
        places_of(b.best).no_duplicates(),
{
    let places = places_of(b.best);
    assert forall|i: int, j: int|
        0 <= i < places.len() && 0 <= j < places.len() && i != j implies places[i] != places[j] by {
        assert(b.best.contains(b.best[i]) && b.best.contains(b.best[j]));
        if places[i] == places[j] {
            assert(b.best[i] == b.best[j]);
        }
    }
}

proof fn lemma_fewer(a: Seq<int>, b: Seq<int>)
    requires
        a.no_duplicates(),
        b.no_duplicates(),
        forall|x: int| #[trigger] a.contains(x) ==> b.contains(x),
    ensures
        a.len() <= b.len(),
{
    a.unique_seq_to_set();
    b.unique_seq_to_set();
    assert(a.to_set().subset_of(b.to_set()));
    vstd::set_lib::lemma_len_subset(a.to_set(), b.to_set());
}

/// Whether all distances are numbers.
pub open spec fn measured(t: Terrain) -> bool {
    forall|i: int| 0 <= i < t.size() ==> !is_nan(#[trigger] t.dist[i])
}

/// What holds of a beam and its record at every step.
#[verifier::opaque]
spec fn in_step(t: Terrain, b: Beam, ef: int, ep: u32) -> bool {
    &&& beam_wf(t, b)
    &&& record_kept(t, b, ef, ep)
    &&& closest_kept(t, b, ef)
    &&& b.best.len() <= ef
}

/// Full results with none farther than `d` are rivals of `d`, as many as the
/// beam is wide.
proof fn lemma_many_rivals(t: Terrain, b: Beam, ef: int, ep: u32, d: u32)
    requires
        t.wf(),
        measured(t),
        in_step(t, b, ef, ep),
        ef >= 1,
        !is_nan(d),
        b.best.len() >= ef,
        !less(d, worst(b.best)),
    ensures
        rivals(t, b.events, b.events.len() as int, d, true).len() >= ef,
{
    reveal(in_step);
    let some = rivals(t, b.events, b.events.len() as int, d, true);
    let places = places_of(b.best);
    lemma_rivals(t, b.events, b.events.len() as int, d, true);
    lemma_places(t, b);
    assert forall|x: int| #[trigger] places.contains(x) implies some.contains(x) by {
        let p = choose|p: int| 0 <= p < places.len() && places[p] == x;
        let c = b.best[p];
        let last = b.best.len() - 1;
        assert(b.best.contains(c));
        assert(b.best.contains(b.best[last]));
        assert(seen(t, b.visited, c) && seen(t, b.visited, b.best[last]));
        if p < last {
            assert(!before(b.best[last], b.best[p]));
            lemma_total_order_refines_less(b.best[last].distance, c.distance);
        }
        assert(!is_nan(t.dist[c.label as int]) && !is_nan(t.dist[b.best[last].label as int]));
        assert(b.visited[c.label as u32 as int]);
        assert(in_record(b.events, c.label as u32));
        let i = choose|i: int|
            0 <= i < b.events.len() && (#[trigger] b.events[i]).0.label == c.label as u32;
        assert(b.events[i].0.label == c.label);
    }
    lemma_fewer(places, some);
}

proof fn lemma_rival_is_result(
    t: Terrain,
    b: Beam,
    ef: int,
    ep: u32,
    d: u32,
    ties: bool,
    x: u32,
)
    requires
        t.wf(),
        measured(t),
        in_step(t, b, ef, ep),
        ef >= 1,
        !is_nan(d),
        b.best.len() < ef || !counts_against(worst(b.best), d, ties),
        x < t.size(),
        b.visited[x as int],
        t.eligible[x as int],
        counts_against(t.dist[x as int], d, ties),
    ensures
        b.best.contains(t.candidate(x)),
        b.best.len() >= ef ==> b.best.last() != t.candidate(x),
{
    reveal(in_step);
    let c = t.candidate(x);
    let last = b.best.len() - 1;
    assert(!is_nan(t.dist[x as int]));
    if b.best.len() >= ef {
        assert(b.best.contains(b.best[last]));
        assert(seen(t, b.visited, b.best[last]));
        assert(!is_nan(t.dist[b.best[last].label as int]));
    }
}

/// The results but for the farthest of a full set.
spec fn inner_results(b: Beam, ef: int) -> Seq<Candidate> {
    if b.best.len() >= ef {
        b.best.drop_last()
    } else {
        b.best
    }
}

proof fn lemma_event_seen(t: Terrain, b: Beam, ef: int, ep: u32, i: int)
    requires
        t.wf(),
        in_step(t, b, ef, ep),
        0 <= i < b.events.len(),
    ensures
        b.events[i].0.label < t.size(),
        b.events[i].0.label <= u32::MAX,
        b.visited[b.events[i].0.label as int],
        t.on[b.events[i].0.label as int],
        b.events[i].0 == t.candidate(b.events[i].0.label as u32),
{
    reveal(in_step);
    assert(seen(t, b.visited, b.events[i].0));
}

proof fn lemma_rival_place(t: Terrain, b: Beam, ef: int, ep: u32, d: u32, ties: bool, i: int)
    requires
        t.wf(),
        measured(t),
        in_step(t, b, ef, ep),
        ef >= 1,
        !is_nan(d),
        b.best.len() < ef || !counts_against(worst(b.best), d, ties),
        0 <= i < b.events.len(),
        t.eligible[b.events[i].0.label as int],
        counts_against(t.dist[b.events[i].0.label as int], d, ties),
    ensures
        places_of(inner_results(b, ef)).contains(b.events[i].0.label as int),
{
    let x = b.events[i].0.label as u32;
    lemma_event_seen(t, b, ef, ep, i);
    let c = t.candidate(x);
    lemma_rival_is_result(t, b, ef, ep, d, ties, x);
    let p = choose|p: int| 0 <= p < b.best.len() && b.best[p] == c;
    assert(inner_results(b, ef)[p] == c);
    assert(places_of(inner_results(b, ef))[p] == x);
}

proof fn lemma_inner_places(t: Terrain, b: Beam, ef: int, ep: u32)
    requires
        in_step(t, b, ef, ep),
        ef >= 1,
    ensures
        places_of(inner_results(b, ef)).no_duplicates(),
        places_of(inner_results(b, ef)).len() < ef,
{
    reveal(in_step);
    lemma_places(t, b);
    let places = places_of(inner_results(b, ef));
    assert forall|i: int, j: int|
        0 <= i < places.len() && 0 <= j < places.len() && i != j implies places[i] != places[j] by {
        assert(places_of(b.best)[i] != places_of(b.best)[j]);
    }
}

proof fn lemma_one_place_each(t: Terrain, b: Beam, ef: int, ep: u32)
    requires
        in_step(t, b, ef, ep),
    ensures
        forall|i: int, j: int|
            #![trigger b.events[i], b.events[j]]
            0 <= i < j < b.events.len() ==> b.events[i].0.label != b.events[j].0.label,
{
    reveal(in_step);
}

/// While the results are not full, or the farthest of them does not count
/// against `d`, there are fewer rivals of `d` than the beam is wide.
proof fn lemma_few_rivals(t: Terrain, b: Beam, ef: int, ep: u32, d: u32, ties: bool)
    requires
        t.wf(),
        measured(t),
        in_step(t, b, ef, ep),
        ef >= 1,
        !is_nan(d),
        b.best.len() < ef || !counts_against(worst(b.best), d, ties),
    ensures
        rivals(t, b.events, b.events.len() as int, d, ties).len() < ef,
{
    let some = rivals(t, b.events, b.events.len() as int, d, ties);
    let places = places_of(inner_results(b, ef));
    lemma_one_place_each(t, b, ef, ep);
    lemma_rivals(t, b.events, b.events.len() as int, d, ties);
    lemma_inner_places(t, b, ef, ep);
    assert forall|x: int| #[trigger] some.contains(x) implies places.contains(x) by {
        let i = choose|i: int| 0 <= i < b.events.len() && (#[trigger] b.events[i]).0.label == x;
        lemma_rival_place(t, b, ef, ep, d, ties, i);
    }
    lemma_fewer(some, places);
}

/// Whether a record names a node in front of a place.
pub open spec fn named_before(
    events: Seq<(Candidate, BeamStatus)>,
    upto: int,
    n: u32,
) -> bool {
    exists|q: int| 0 <= q < upto && (#[trigger] events[q]).0.label == n
}

/// Whether the neighbors of a node are all named in front of a place.
pub open spec fn neighbors_done(
    t: Terrain,
    events: Seq<(Candidate, BeamStatus)>,
    n: int,
    upto: int,
) -> bool {
    forall|l: int|
        0 <= l < t.links[n].len() ==> named_before(events, upto, #[trigger] t.links[n][l])
}

/// Whether it was the turn of the node at place `j` of a record when it had `s`
/// entries: of those that come before it, by distance and then by place, and
/// were not discarded, all neighbors had been looked at.
pub open spec fn has_its_turn(
    t: Terrain,
    events: Seq<(Candidate, BeamStatus)>,
    j: int,
    s: int,
) -> bool {
    forall|q: int|
        #![trigger events[q]]
        0 <= q < s && !(events[q].1 is Discarded) && before(events[q].0, events[j].0)
            ==> neighbors_done(t, events, events[q].0.label as int, s)
}

/// Whether a node of a record was looked at for a reason: as a neighbor of one
/// in front of it whose turn it was, when fewer possible results were closer
/// than that one than the beam is wide, and behind the neighbors in front of it
/// in the list.
pub open spec fn reached_from(
    t: Terrain,
    events: Seq<(Candidate, BeamStatus)>,
    ef: int,
    i: int,
    j: int,
    l: int,
    s: int,
) -> bool {
    let list = t.links[events[j].0.label as int];
    &&& 0 <= j < s <= i
    &&& 0 <= l < list.len()
    &&& list[l] == events[i].0.label
    &&& forall|m: int| 0 <= m < l ==> named_before(events, i, #[trigger] list[m])
    &&& rivals(t, events, s, t.dist[events[j].0.label as int], false).len() < ef
    &&& has_its_turn(t, events, j, s)
}

proof fn lemma_named_stays(
    events: Seq<(Candidate, BeamStatus)>,
    more: Seq<(Candidate, BeamStatus)>,
    upto: int,
    n: u32,
)
    requires
        upto <= events.len() <= more.len(),
        forall|q: int| #![trigger more[q]] 0 <= q < events.len() ==> more[q] == events[q],
        named_before(events, upto, n),
    ensures
        named_before(more, upto, n),
{
    let q = choose|q: int| 0 <= q < upto && (#[trigger] events[q]).0.label == n;
    assert(more[q].0.label == n);
}

proof fn lemma_turn_stays(
    t: Terrain,
    events: Seq<(Candidate, BeamStatus)>,
    more: Seq<(Candidate, BeamStatus)>,
    j: int,
    s: int,
)
    requires
        0 <= j < s <= events.len() <= more.len(),
        forall|q: int| #![trigger more[q]] 0 <= q < events.len() ==> more[q] == events[q],
        has_its_turn(t, events, j, s),
    ensures
        has_its_turn(t, more, j, s),
{
    assert(more[j] == events[j]);
    assert forall|q: int|
        #![trigger more[q]]
        0 <= q < s && !(more[q].1 is Discarded) && before(
            more[q].0,
            more[j].0,
        ) implies neighbors_done(t, more, more[q].0.label as int, s) by {
        assert(more[q] == events[q]);
        let n = events[q].0.label as int;
        assert(neighbors_done(t, events, n, s));
        assert forall|l: int| 0 <= l < t.links[n].len() implies named_before(
            more,
            s,
            #[trigger] t.links[n][l],
        ) by {
            lemma_named_stays(events, more, s, t.links[n][l]);
        }
    }
}

proof fn lemma_reason_stays(
    t: Terrain,
    events: Seq<(Candidate, BeamStatus)>,
    more: Seq<(Candidate, BeamStatus)>,
    ef: int,
    i: int,
    j: int,
    l: int,
    s: int,
)
    requires
        0 < i < events.len() <= more.len(),
        forall|q: int| #![trigger more[q]] 0 <= q < events.len() ==> more[q] == events[q],
        reached_from(t, events, ef, i, j, l, s),
    ensures
        reached_from(t, more, ef, i, j, l, s),
{
    assert(more[i] == events[i] && more[j] == events[j]);
    let list = t.links[events[j].0.label as int];
    lemma_rivals_stay(t, events, more, s, t.dist[events[j].0.label as int], false);
    lemma_turn_stays(t, events, more, j, s);
    assert forall|m: int| 0 <= m < l implies named_before(more, i, #[trigger] list[m]) by {
        lemma_named_stays(events, more, i, list[m]);
    }
}

/// Whether a node of a record is told for what it is: discarded exactly if as
/// many possible results in front of it are no farther as the beam is wide.
pub open spec fn rightly_told(
    t: Terrain,
    events: Seq<(Candidate, BeamStatus)>,
    ef: int,
    i: int,
) -> bool {
    let n = events[i].0.label as int;
    let crowded = rivals(t, events, i, t.dist[n], true).len() >= ef;
    &&& events[i].0.distance == t.dist[n]
    &&& events[i].1 is Discarded <==> crowded
    &&& events[i].1 is Admitted <==> !crowded && t.eligible[n]
    &&& events[i].1 is Routed <==> !crowded && !t.eligible[n]
    &&& exists|j: int, l: int, s: int| #[trigger] reached_from(t, events, ef, i, j, l, s)
}

spec fn all_rightly_told(t: Terrain, b: Beam, ef: int) -> bool {
    forall|i: int| 0 < i < b.events.len() ==> #[trigger] rightly_told(t, b.events, ef, i)
}

proof fn lemma_rightly_told_stays(
    t: Terrain,
    events: Seq<(Candidate, BeamStatus)>,
    more: Seq<(Candidate, BeamStatus)>,
    ef: int,
    i: int,
)
    requires
        0 < i < events.len() <= more.len(),
        forall|q: int| #![trigger more[q]] 0 <= q < events.len() ==> more[q] == events[q],
        rightly_told(t, events, ef, i),
    ensures
        rightly_told(t, more, ef, i),
{
    let n = events[i].0.label as int;
    assert(more[i] == events[i]);
    lemma_rivals_stay(t, events, more, i, t.dist[n], true);
    let (j, l, s) = choose|j: int, l: int, s: int| #[trigger]
        reached_from(t, events, ef, i, j, l, s);
    lemma_reason_stays(t, events, more, ef, i, j, l, s);
}

proof fn lemma_right_visit(
    t: Terrain,
    b: Beam,
    ef: int,
    n: u32,
    ep: u32,
    from: int,
    l: int,
    s: int,
)
    requires
        t.wf(),
        measured(t),
        t.holds(n),
        in_step(t, b, ef, ep),
        all_rightly_told(t, b, ef),
        ef >= 1,
        0 <= from < s <= b.events.len(),
        0 <= l < t.links[b.events[from].0.label as int].len(),
        t.links[b.events[from].0.label as int][l] == n,
        forall|m: int|
            0 <= m < l ==> named_before(
                b.events,
                b.events.len() as int,
                #[trigger] t.links[b.events[from].0.label as int][m],
            ),
        rivals(t, b.events, s, t.dist[b.events[from].0.label as int], false).len() < ef,
        has_its_turn(t, b.events, from, s),
    ensures
        in_step(t, visit(t, b, ef, n), ef, ep),
        all_rightly_told(t, visit(t, b, ef, n), ef),
        visit(t, b, ef, n).events.len() >= b.events.len(),
        forall|i: int|
            #![trigger visit(t, b, ef, n).events[i]]
            0 <= i < b.events.len() ==> visit(t, b, ef, n).events[i] == b.events[i],
{
    reveal(in_step);
    let after = visit(t, b, ef, n);
    lemma_visit(t, b, ef, n);
    lemma_told_visit(t, b, ef, n, ep, from, l);
    lemma_closest_visit(t, b, ef, n);
    lemma_kept(b.best, t.candidate(n), ef);
    if !b.visited[n as int] {
        let last = b.events.len() as int;
        let d = t.dist[n as int];
        assert(after.events[last].0 == t.candidate(n));
        assert(!is_nan(d));
        lemma_rivals_stay(t, b.events, after.events, last, d, true);
        lemma_rivals_stay(
            t,
            b.events,
            after.events,
            s,
            t.dist[b.events[from].0.label as int],
            false,
        );
        if b.best.len() < ef || less(d, worst(b.best)) {
            lemma_few_rivals(t, b, ef, ep, d, true);
        } else {
            lemma_many_rivals(t, b, ef, ep, d);
        }
        assert(after.events[from] == b.events[from]);
        let list = t.links[after.events[from].0.label as int];
        assert(list[l] == n);
        assert forall|m: int| 0 <= m < l implies named_before(
            after.events,
            last,
            #[trigger] list[m],
        ) by {
            lemma_named_stays(b.events, after.events, last, list[m]);
        }
        lemma_turn_stays(t, b.events, after.events, from, s);
        assert(reached_from(t, after.events, ef, last, from, l, s));
        assert(rightly_told(t, after.events, ef, last));
        assert forall|i: int| 0 < i < after.events.len() implies #[trigger] rightly_told(
            t,
            after.events,
            ef,
            i,
        ) by {
            if i < last {
                assert(rightly_told(t, b.events, ef, i));
                lemma_rightly_told_stays(t, b.events, after.events, ef, i);
            }
        }
    }
}

proof fn lemma_all_named(t: Terrain, b: Beam, ef: int, list: Seq<u32>, ep: u32, m: int)
    requires
        t.wf(),
        in_step(t, b, ef, ep),
        in_step(t, visit_all(t, b, ef, list), ef, ep),
        forall|j: int| #![trigger list[j]] 0 <= j < list.len() ==> t.holds(list[j]),
        0 <= m < list.len(),
    ensures
        named_before(
            visit_all(t, b, ef, list).events,
            visit_all(t, b, ef, list).events.len() as int,
            list[m],
        ),
{
    reveal(in_step);
    lemma_visit_all(t, b, ef, list);
    let after = visit_all(t, b, ef, list);
    assert(t.holds(list[m]));
    assert(after.visited[list[m] as int]);
    assert(in_record(after.events, list[m]));
}

proof fn lemma_right_visits(
    t: Terrain,
    b: Beam,
    ef: int,
    list: Seq<u32>,
    ep: u32,
    from: int,
)
    requires
        t.wf(),
        measured(t),
        in_step(t, b, ef, ep),
        all_rightly_told(t, b, ef),
        ef >= 1,
        0 <= from < b.events.len(),
        list.len() <= t.links[b.events[from].0.label as int].len(),
        forall|j: int|
            #![trigger list[j]]
            0 <= j < list.len() ==> list[j] == t.links[b.events[from].0.label as int][j],
        forall|j: int| #![trigger list[j]] 0 <= j < list.len() ==> t.holds(list[j]),
        rivals(
            t,
            b.events,
            b.events.len() as int,
            t.dist[b.events[from].0.label as int],
            false,
        ).len() < ef,
        has_its_turn(t, b.events, from, b.events.len() as int),
    ensures
        in_step(t, visit_all(t, b, ef, list), ef, ep),
        all_rightly_told(t, visit_all(t, b, ef, list), ef),
        visit_all(t, b, ef, list).events.len() >= b.events.len(),
        forall|i: int|
            #![trigger visit_all(t, b, ef, list).events[i]]
            0 <= i < b.events.len() ==> visit_all(t, b, ef, list).events[i] == b.events[i],
    decreases list.len(),
{
    if list.len() > 0 {
        let front = list.drop_last();
        let l = list.len() - 1;
        assert forall|j: int|
            #![trigger front[j]]
            0 <= j < front.len() implies front[j] == t.links[b.events[from].0.label as int][j]
            && t.holds(front[j]) by {
            assert(front[j] == list[j]);
        }
        lemma_right_visits(t, b, ef, front, ep, from);
        let mid = visit_all(t, b, ef, front);
        let s = b.events.len() as int;
        assert(mid.events[from] == b.events[from]);
        assert(list[l] == list.last());
        lemma_rivals_stay(
            t,
            b.events,
            mid.events,
            s,
            t.dist[b.events[from].0.label as int],
            false,
        );
        lemma_turn_stays(t, b.events, mid.events, from, s);
        assert forall|m: int| 0 <= m < l implies named_before(
            mid.events,
            mid.events.len() as int,
            #[trigger] t.links[mid.events[from].0.label as int][m],
        ) by {
            lemma_all_named(t, b, ef, front, ep, m);
            assert(front[m] == t.links[b.events[from].0.label as int][m]);
        }
        lemma_right_visit(t, mid, ef, list.last(), ep, from, l, s);
        let after = visit_all(t, b, ef, list);
        assert forall|i: int| #![trigger after.events[i]] 0 <= i < b.events.len() implies
            after.events[i] == b.events[i] by {
            assert(mid.events[i] == b.events[i]);
        }
    }
}

proof fn lemma_front_is_first(t: Terrain, b: Beam, ef: int, ep: u32, c: Candidate)
    requires
        in_step(t, b, ef, ep),
        b.frontier.contains(c),
    ensures
        !before(c, b.frontier[0]),
{
    reveal(in_step);
    let p = choose|p: int| 0 <= p < b.frontier.len() && b.frontier[p] == c;
    if p > 0 {
        assert(!before(b.frontier[p], b.frontier[0]));
    }
}

proof fn lemma_told_once(t: Terrain, b: Beam, ef: int, ep: u32, q: int)
    requires
        in_step(t, b, ef, ep),
        0 <= q < b.events.len(),
        !(b.events[q].1 is Discarded),
    ensures
        !told_discarded(b.events, b.events[q].0.label as u32) || b.events[q].0.label > u32::MAX,
{
    lemma_one_place_each(t, b, ef, ep);
    let n = b.events[q].0.label as u32;
    if b.events[q].0.label <= u32::MAX && told_discarded(b.events, n) {
        let r = choose|r: int|
            0 <= r < b.events.len() && (#[trigger] b.events[r]).0.label == n
                && b.events[r].1 is Discarded;
        if r < q {
            assert(b.events[r].0.label != b.events[q].0.label);
        } else if q < r {
            assert(b.events[q].0.label != b.events[r].0.label);
        }
    }
}

proof fn lemma_neighbors_named(t: Terrain, b: Beam, ef: int, ep: u32, n: u32)
    requires
        t.wf(),
        in_step(t, b, ef, ep),
        t.holds(n),
        expanded(t, b.visited, n as int),
    ensures
        neighbors_done(t, b.events, n as int, b.events.len() as int),
{
    reveal(in_step);
    assert forall|l: int| 0 <= l < t.links[n as int].len() implies named_before(
        b.events,
        b.events.len() as int,
        #[trigger] t.links[n as int][l],
    ) by {
        let m = t.links[n as int][l];
        assert(b.visited[m as int]);
        assert(in_record(b.events, m));
    }
}

proof fn lemma_turn_comes(t: Terrain, b: Beam, ef: int, ep: u32, from: int)
    requires
        t.wf(),
        in_step(t, b, ef, ep),
        accounted_for(t, b, -1),
        b.frontier.len() > 0,
        0 <= from < b.events.len(),
        b.events[from].0 == b.frontier[0],
    ensures
        has_its_turn(t, b.events, from, b.events.len() as int),
{
    let events = b.events;
    assert forall|q: int|
        #![trigger events[q]]
        0 <= q < events.len() && !(events[q].1 is Discarded) && before(
            events[q].0,
            events[from].0,
        ) implies neighbors_done(t, events, events[q].0.label as int, events.len() as int) by {
        let n = events[q].0.label as u32;
        lemma_event_seen(t, b, ef, ep, q);
        lemma_told_once(t, b, ef, ep, q);
        assert(b.visited[n as int]);
        if b.frontier.contains(t.candidate(n)) {
            lemma_front_is_first(t, b, ef, ep, t.candidate(n));
        }
        assert(expanded(t, b.visited, n as int));
        lemma_neighbors_named(t, b, ef, ep, n);
    }
}

proof fn lemma_right_run(t: Terrain, b: Beam, ef: int, ep: u32)
    requires
        t.wf(),
        measured(t),
        in_step(t, b, ef, ep),
        all_rightly_told(t, b, ef),
        accounted_for(t, b, -1),
        ef >= 1,
    ensures
        all_rightly_told(t, beam_run(t, b, ef), ef),
    decreases steps_left(b),
{
    assert(beam_wf(t, b)) by {
        reveal(in_step);
    }
    if b.frontier.len() > 0 {
        lemma_beam_turn(t, b, ef);
        let current = b.frontier[0];
        if !settled(b, ef, current) {
            let list = t.links[current.label as int];
            let start = advanced(b);
            let n = current.label as u32;
            assert(t.candidate(n) == current);
            let from = lemma_place_in_record(t, b, ef, ep, n);
            lemma_turn_comes(t, b, ef, ep, from);
            lemma_advanced_in_step(t, b, ef, ep);
            assert(!is_nan(t.dist[n as int]));
            lemma_few_rivals(t, start, ef, ep, current.distance, false);
            lemma_right_visits(t, start, ef, list, ep, from);
            lemma_accounted_turn(t, b, ef);
            lemma_right_run(t, visit_all(t, start, ef, list), ef, ep);
        }
    }
}

proof fn lemma_place_in_record(t: Terrain, b: Beam, ef: int, ep: u32, n: u32) -> (from: int)
    requires
        in_step(t, b, ef, ep),
        n < t.size(),
        b.visited[n as int],
    ensures
        0 <= from < b.events.len(),
        b.events[from].0 == t.candidate(n),
{
    reveal(in_step);
    assert(in_record(b.events, n));
    let from = choose|i: int| 0 <= i < b.events.len() && (#[trigger] b.events[i]).0.label == n;
    assert(seen(t, b.visited, b.events[from].0));
    from
}

proof fn lemma_advanced_in_step(t: Terrain, b: Beam, ef: int, ep: u32)
    requires
        t.wf(),
        in_step(t, b, ef, ep),
        b.frontier.len() > 0,
    ensures
        in_step(t, advanced(b), ef, ep),
{
    reveal(in_step);
    lemma_beam_turn(t, b, ef);
    let start = advanced(b);
    assert(record_kept(t, start, ef, ep));
    assert(closest_kept(t, start, ef)) by {
        assert forall|i: u32|
            #![trigger t.candidate(i)]
            i < t.size() && start.visited[i as int]
                && t.eligible[i as int] implies start.best.contains(t.candidate(i)) || (
        start.best.len() >= ef && !less(t.dist[i as int], worst(start.best))) by {
            assert(b.visited[i as int]);
        }
    }
}

/// The record of a beam tells of every node but the first why it was looked at
/// and what became of it. It is a neighbor of one in front of it whose turn it
/// was, the closest of those still to go on from, while fewer possible results
/// were closer than the beam is wide. It is discarded exactly if as many
/// possible results in front of it are no farther as the beam is wide.
pub proof fn law_beam_record_is_right(t: Terrain, ep: u32, ef: int, i: int)
    requires
        t.wf(),
        t.holds(ep),
        measured(t),
        ef >= 1,
        0 < i < beam_search(t, ep, ef).events.len(),
    ensures
        rightly_told(t, beam_search(t, ep, ef).events, ef, i),
{
    reveal(in_step);
    let b = beam_start(t, ep);
    lemma_beam_start(t, ep);
    lemma_told_start(t, ep, ef);
    assert(closest_kept(t, b, ef)) by {
        assert forall|x: u32|
            #![trigger t.candidate(x)]
            x < t.size() && b.visited[x as int]
                && t.eligible[x as int] implies b.best.contains(t.candidate(x)) by {
            assert(b.best[0] == t.candidate(ep));
        }
    }
    lemma_accounted_start(t, ep);
    lemma_right_run(t, b, ef, ep);
    assert(rightly_told(t, beam_search(t, ep, ef).events, ef, i));
}

// ---------------------------------------------------------------------------
// Where the beam stops
// ---------------------------------------------------------------------------

/// Whether a record tells that a node was discarded.
pub open spec fn told_discarded(events: Seq<(Candidate, BeamStatus)>, n: u32) -> bool {
    exists|i: int|
        0 <= i < events.len() && (#[trigger] events[i]).0.label == n && events[i].1 is Discarded
}

/// Whether every node looked at has been expanded, waits in the frontier, is
/// the one being expanded, or was discarded.
spec fn accounted_for(t: Terrain, b: Beam, current: int) -> bool {
    forall|i: u32|
        #![trigger b.visited[i as int]]
        i < t.size() && b.visited[i as int] ==> {
            ||| i == current
            ||| expanded(t, b.visited, i as int)
            ||| b.frontier.contains(t.candidate(i))
            ||| told_discarded(b.events, i)
        }
}

proof fn lemma_accounted_visit(t: Terrain, b: Beam, ef: int, n: u32, current: int)
    requires
        t.wf(),
        beam_wf(t, b),
        t.holds(n),
        accounted_for(t, b, current),
    ensures
        accounted_for(t, visit(t, b, ef, n), current),
{
    let after = visit(t, b, ef, n);
    let c = t.candidate(n);
    lemma_visit(t, b, ef, n);
    if !b.visited[n as int] {
        let last = b.events.len() as int;
        lemma_with_candidate(b.frontier, c);
        assert(after.events[last].0 == c);
        assert forall|i: u32|
            #![trigger after.visited[i as int]]
            i < t.size() && after.visited[i as int] implies {
            ||| i == current
            ||| expanded(t, after.visited, i as int)
            ||| after.frontier.contains(t.candidate(i))
            ||| told_discarded(after.events, i)
        } by {
            if i != n {
                assert(b.visited[i as int]);
                if expanded(t, b.visited, i as int) {
                    assert forall|j: int|
                        #![trigger t.links[i as int][j]]
                        0 <= j < t.links[i as int].len() implies after.visited[
                        t.links[i as int][j] as int
                    ] by {
                        assert(b.visited[t.links[i as int][j] as int]);
                    }
                    assert(expanded(t, after.visited, i as int));
                }
                if told_discarded(b.events, i) {
                    let q = choose|q: int|
                        0 <= q < b.events.len() && (#[trigger] b.events[q]).0.label == i
                            && b.events[q].1 is Discarded;
                    assert(after.events[q] == b.events[q]);
                }
            } else if !after.frontier.contains(c) {
                assert(after.events[last].1 is Discarded);
            }
        }
    }
}

proof fn lemma_accounted_visits(t: Terrain, b: Beam, ef: int, list: Seq<u32>, current: int)
    requires
        t.wf(),
        beam_wf(t, b),
        forall|j: int| #![trigger list[j]] 0 <= j < list.len() ==> t.holds(list[j]),
        accounted_for(t, b, current),
    ensures
        accounted_for(t, visit_all(t, b, ef, list), current),
    decreases list.len(),
{
    if list.len() > 0 {
        let front = list.drop_last();
        assert forall|j: int| #![trigger front[j]] 0 <= j < front.len() implies t.holds(
            front[j],
        ) by {
            assert(front[j] == list[j]);
        }
        lemma_visit_all(t, b, ef, front);
        lemma_accounted_visits(t, b, ef, front, current);
        assert(t.holds(list[list.len() - 1]));
        lemma_accounted_visit(t, visit_all(t, b, ef, front), ef, list.last(), current);
    }
}

proof fn lemma_accounted_turn(t: Terrain, b: Beam, ef: int)
    requires
        t.wf(),
        beam_wf(t, b),
        b.frontier.len() > 0,
        accounted_for(t, b, -1),
    ensures
        accounted_for(
            t,
            visit_all(t, advanced(b), ef, t.links[b.frontier[0].label as int]),
            -1,
        ),
{
    lemma_beam_turn(t, b, ef);
    let current = b.frontier[0];
    let list = t.links[current.label as int];
    let start = advanced(b);
    let here = current.label as int;
    assert(accounted_for(t, start, here)) by {
        assert forall|i: u32|
            #![trigger start.visited[i as int]]
            i < t.size() && start.visited[i as int] implies {
            ||| i == here
            ||| expanded(t, start.visited, i as int)
            ||| start.frontier.contains(t.candidate(i))
            ||| told_discarded(start.events, i)
        } by {
            assert(b.visited[i as int]);
            let c = t.candidate(i);
            if b.frontier.contains(c) && i != here {
                let p = choose|p: int| 0 <= p < b.frontier.len() && b.frontier[p] == c;
                assert(p > 0);
                assert(start.frontier[p - 1] == c);
            }
        }
    }
    lemma_accounted_visits(t, start, ef, list, here);
    lemma_visit_all(t, start, ef, list);
    let after = visit_all(t, start, ef, list);
    assert(expanded(t, after.visited, here)) by {
        assert forall|j: int|
            #![trigger t.links[here][j]]
            0 <= j < t.links[here].len() implies after.visited[t.links[here][j] as int] by {
            assert(list[j] == t.links[here][j]);
        }
    }
    assert(accounted_for(t, after, -1)) by {
        assert forall|i: u32|
            #![trigger after.visited[i as int]]
            i < t.size() && after.visited[i as int] implies {
            ||| expanded(t, after.visited, i as int)
            ||| after.frontier.contains(t.candidate(i))
            ||| told_discarded(after.events, i)
        } by {
            if i == here {
                assert(expanded(t, after.visited, i as int));
            }
        }
    }
}

proof fn lemma_accounted_start(t: Terrain, ep: u32)
    requires
        t.wf(),
        t.holds(ep),
    ensures
        accounted_for(t, beam_start(t, ep), -1),
{
    let start = beam_start(t, ep);
    assert forall|i: u32|
        #![trigger start.visited[i as int]]
        i < t.size() && start.visited[i as int] implies start.frontier.contains(
        t.candidate(i),
    ) by {
        assert(start.frontier[0] == t.candidate(ep));
    }
}

proof fn lemma_accounted_run(t: Terrain, b: Beam, ef: int, n: u32)
    requires
        t.wf(),
        measured(t),
        beam_wf(t, b),
        ef >= 1,
        accounted_for(t, b, -1),
        n < t.size(),
        beam_run(t, b, ef).visited[n as int],
        !expanded(t, beam_run(t, b, ef).visited, n as int),
        !told_discarded(beam_run(t, b, ef).events, n),
    ensures
        beam_run(t, b, ef).best.len() >= ef,
        less(worst(beam_run(t, b, ef).best), t.dist[n as int]),
    decreases steps_left(b),
{
    if b.frontier.len() > 0 {
        lemma_beam_turn(t, b, ef);
        let current = b.frontier[0];
        if settled(b, ef, current) {
            let c = t.candidate(n);
            assert(b.visited[n as int]);
            assert(b.frontier.contains(c));
            let p = choose|p: int| 0 <= p < b.frontier.len() && b.frontier[p] == c;
            if p > 0 {
                assert(!before(b.frontier[p], b.frontier[0]));
            }
            assert(!is_nan(t.dist[n as int]));
            lemma_total_order_refines_less(c.distance, current.distance);
        } else {
            lemma_accounted_turn(t, b, ef);
            let after = visit_all(t, advanced(b), ef, t.links[current.label as int]);
            lemma_accounted_run(t, after, ef, n);
        }
    }
}

/// The beam goes on up to the farthest result: a node that was not discarded
/// and whose neighbors were not all looked at is farther than every one of a
/// full set of results.
pub proof fn law_beam_goes_on_up_to_the_farthest(t: Terrain, ep: u32, ef: int, n: u32, j: int)
    requires
        t.wf(),
        t.holds(ep),
        measured(t),
        ef >= 1,
        n < t.size(),
        beam_search(t, ep, ef).visited[n as int],
        !told_discarded(beam_search(t, ep, ef).events, n),
        0 <= j < t.links[n as int].len(),
        !beam_search(t, ep, ef).visited[t.links[n as int][j] as int],
    ensures
        beam_search(t, ep, ef).best.len() >= ef,
        less(beam_search(t, ep, ef).best.last().distance, t.dist[n as int]),
{
    let start = beam_start(t, ep);
    lemma_beam_start(t, ep);
    lemma_accounted_start(t, ep);
    assert(!expanded(t, beam_search(t, ep, ef).visited, n as int));
    lemma_accounted_run(t, start, ef, n);
}

} // verus!
