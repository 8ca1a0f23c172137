//! What a beam search promises.
use crate::beam::{
    advanced, beam_run, beam_search, beam_start, beam_wf, lemma_beam_run, lemma_beam_start,
    lemma_beam_turn, lemma_kept, lemma_visit, lemma_visit_all, settled, steps_left, visit,
    visit_all, worst, Beam, Terrain,
};
use crate::candidate::{before, lemma_place, lemma_with_candidate, place, with_candidate};
use crate::float::{lemma_total_order_refines_less, less};
use vstd::prelude::*;

verus! {

/// Whether a set of nodes holds, with each of its nodes, all neighbors.
pub open spec fn closed_under_links(t: Terrain, set: Seq<bool>) -> bool {
    &&& set.len() == t.size()
    &&& forall|i: int, j: int|
        #![trigger t.links[i][j]]
        0 <= i < t.size() && set[i] && 0 <= j < t.links[i].len() ==> set[t.links[i][j] as int]
}

/// Whether a walk along neighbors can get from `ep` to `n`: `n` is in every
/// set of nodes that holds `ep` and all neighbors of its nodes.
pub open spec fn reachable(t: Terrain, ep: u32, n: int) -> bool {
    forall|set: Seq<bool>|
        #![trigger closed_under_links(t, set)]
        closed_under_links(t, set) && set[ep as int] ==> set[n]
}

/// Whether a node has been expanded: all its neighbors have been looked at.
pub open spec fn expanded(t: Terrain, visited: Seq<bool>, i: int) -> bool {
    forall|j: int| #![trigger t.links[i][j]] 0 <= j < t.links[i].len() ==> visited[t.links[i][j] as int]
}

/// While the results are not full, nothing has been passed over: every node
/// looked at waits in the frontier or has been expanded, and every eligible
/// one is a result.
pub open spec fn nothing_missed(t: Terrain, b: Beam) -> bool {
    &&& forall|i: u32|
        #![trigger t.candidate(i)]
        i < t.size() && b.visited[i as int] ==> b.frontier.contains(t.candidate(i)) || expanded(
            t,
            b.visited,
            i as int,
        )
    &&& forall|i: u32|
        #![trigger t.candidate(i)]
        i < t.size() && b.visited[i as int] && t.eligible[i as int] ==> b.best.contains(
            t.candidate(i),
        )
}

proof fn lemma_missed_visit(t: Terrain, b: Beam, ef: int, n: u32, current: int)
    requires
        t.wf(),
        beam_wf(t, b),
        t.holds(n),
        visit(t, b, ef, n).best.len() < ef,
        forall|i: u32|
            #![trigger t.candidate(i)]
            i < t.size() && b.visited[i as int] ==> i == current || b.frontier.contains(
                t.candidate(i),
            ) || expanded(t, b.visited, i as int),
        forall|i: u32|
            #![trigger t.candidate(i)]
            i < t.size() && b.visited[i as int] && t.eligible[i as int] ==> b.best.contains(
                t.candidate(i),
            ),
    ensures
        b.best.len() < ef,
        forall|i: u32|
            #![trigger t.candidate(i)]
            i < t.size() && visit(t, b, ef, n).visited[i as int] ==> i == current || visit(
                t,
                b,
                ef,
                n,
            ).frontier.contains(t.candidate(i)) || expanded(
                t,
                visit(t, b, ef, n).visited,
                i as int,
            ),
        forall|i: u32|
            #![trigger t.candidate(i)]
            i < t.size() && visit(t, b, ef, n).visited[i as int] && t.eligible[i as int] ==> visit(
                t,
                b,
                ef,
                n,
            ).best.contains(t.candidate(i)),
{
    let after = visit(t, b, ef, n);
    lemma_visit(t, b, ef, n);
    if !b.visited[n as int] {
        let c = t.candidate(n);
        lemma_kept(b.best, c, ef);
        lemma_with_candidate(b.frontier, c);
        lemma_with_candidate(b.best, c);
        assert(b.best.len() < ef);
        assert forall|i: u32|
            #![trigger t.candidate(i)]
            i < t.size() && after.visited[i as int] implies i == current || after.frontier.contains(
            t.candidate(i),
        ) || expanded(t, after.visited, i as int) by {
            if i != n && expanded(t, b.visited, i as int) {
                assert forall|j: int|
                    #![trigger t.links[i as int][j]]
                    0 <= j
                        < t.links[i as int].len() implies after.visited[t.links[i as int][j] as int] by {
                    assert(b.visited[t.links[i as int][j] as int]);
                }
            }
        }
        assert forall|i: u32|
            #![trigger t.candidate(i)]
            i < t.size() && after.visited[i as int]
                && t.eligible[i as int] implies after.best.contains(t.candidate(i)) by {
            if i != n {
                assert(b.best.contains(t.candidate(i)));
            }
        }
    }
}

proof fn lemma_missed_visits(t: Terrain, b: Beam, ef: int, list: Seq<u32>, current: int)
    requires
        t.wf(),
        beam_wf(t, b),
        forall|j: int| #![trigger list[j]] 0 <= j < list.len() ==> t.holds(list[j]),
        visit_all(t, b, ef, list).best.len() < ef,
        b.best.len() < ef ==> forall|i: u32|
            #![trigger t.candidate(i)]
            i < t.size() && b.visited[i as int] ==> i == current || b.frontier.contains(
                t.candidate(i),
            ) || expanded(t, b.visited, i as int),
        b.best.len() < ef ==> forall|i: u32|
            #![trigger t.candidate(i)]
            i < t.size() && b.visited[i as int] && t.eligible[i as int] ==> b.best.contains(
                t.candidate(i),
            ),
    ensures
        b.best.len() < ef,
        forall|i: u32|
            #![trigger t.candidate(i)]
            i < t.size() && visit_all(t, b, ef, list).visited[i as int] ==> i == current
                || visit_all(t, b, ef, list).frontier.contains(t.candidate(i)) || expanded(
                t,
                visit_all(t, b, ef, list).visited,
                i as int,
            ),
        forall|i: u32|
            #![trigger t.candidate(i)]
            i < t.size() && visit_all(t, b, ef, list).visited[i as int] && t.eligible[i as int]
                ==> visit_all(t, b, ef, list).best.contains(t.candidate(i)),
    decreases list.len(),
{
    if list.len() > 0 {
        let front = list.drop_last();
        assert forall|j: int| #![trigger front[j]] 0 <= j < front.len() implies t.holds(
            front[j],
        ) by {
            assert(front[j] == list[j]);
        }
        let mid = visit_all(t, b, ef, front);
        lemma_visit_all(t, b, ef, front);
        assert(t.holds(list[list.len() - 1]));
        lemma_kept(mid.best, t.candidate(list.last()), ef);
        assert(mid.best.len() < ef);
        lemma_missed_visits(t, b, ef, front, current);
        lemma_missed_visit(t, mid, ef, list.last(), current);
    }
}

proof fn lemma_missed_run(t: Terrain, b: Beam, ef: int)
    requires
        t.wf(),
        beam_wf(t, b),
        b.best.len() < ef ==> nothing_missed(t, b),
    ensures
        beam_run(t, b, ef).best.len() < ef ==> nothing_missed(t, beam_run(t, b, ef))
            && beam_run(t, b, ef).frontier.len() == 0,
    decreases steps_left(b),
{
    if b.frontier.len() > 0 {
        lemma_beam_turn(t, b, ef);
        let c = b.frontier[0];
        if !settled(b, ef, c) {
            let list = t.links[c.label as int];
            let start = advanced(b);
            let after = visit_all(t, start, ef, list);
            if after.best.len() < ef {
                assert(start.best.len() < ef ==> forall|i: u32|
                    #![trigger t.candidate(i)]
                    i < t.size() && start.visited[i as int] ==> i == c.label
                        || start.frontier.contains(t.candidate(i)) || expanded(
                        t,
                        start.visited,
                        i as int,
                    )) by {
                    if start.best.len() < ef {
                        assert forall|i: u32|
                            #![trigger t.candidate(i)]
                            i < t.size() && start.visited[i as int] implies i == c.label
                            || start.frontier.contains(t.candidate(i)) || expanded(
                            t,
                            start.visited,
                            i as int,
                        ) by {
                            if b.frontier.contains(t.candidate(i)) && i != c.label {
                                let p = choose|p: int|
                                    0 <= p < b.frontier.len() && b.frontier[p] == t.candidate(i);
                                assert(p > 0);
                                assert(start.frontier[p - 1] == t.candidate(i));
                            }
                        }
                    }
                }
                lemma_missed_visits(t, start, ef, list, c.label as int);
                lemma_visit_all(t, start, ef, list);
                assert forall|i: u32|
                    #![trigger t.candidate(i)]
                    i < t.size() && after.visited[i as int] implies after.frontier.contains(
                    t.candidate(i),
                ) || expanded(t, after.visited, i as int) by {
                    if i == c.label {
                        assert forall|j: int|
                            #![trigger t.links[i as int][j]]
                            0 <= j
                                < t.links[i as int].len() implies after.visited[t.links[i as int][j] as int] by {
                            assert(list[j] == t.links[i as int][j]);
                        }
                    }
                }
            }
            lemma_missed_run(t, after, ef);
        }
    }
}

/// A beam does not starve: as long as it could still hold more results, it
/// goes on until it has found every eligible node that can be reached.
pub proof fn law_beam_does_not_starve(t: Terrain, ep: u32, ef: int, n: u32)
    requires
        t.wf(),
        t.holds(ep),
        beam_search(t, ep, ef).best.len() < ef,
        n < t.size(),
        t.eligible[n as int],
        reachable(t, ep, n as int),
    ensures
        beam_search(t, ep, ef).best.contains(t.candidate(n)),
{
    let start = beam_start(t, ep);
    let end = beam_search(t, ep, ef);
    lemma_beam_start(t, ep);
    assert forall|i: u32|
        #![trigger t.candidate(i)]
        i < t.size() && start.visited[i as int] implies start.frontier.contains(t.candidate(i)) by {
        assert(start.frontier[0] == t.candidate(ep));
    }
    assert forall|i: u32|
        #![trigger t.candidate(i)]
        i < t.size() && start.visited[i as int]
            && t.eligible[i as int] implies start.best.contains(t.candidate(i)) by {
        assert(start.best[0] == t.candidate(ep));
    }
    lemma_missed_run(t, start, ef);
    lemma_beam_run(t, start, ef);
    lemma_visited_grows(t, start, ef, ep as int);
    assert(closed_under_links(t, end.visited)) by {
        assert forall|i: int, j: int|
            #![trigger t.links[i][j]]
            0 <= i < t.size() && end.visited[i] && 0 <= j
                < t.links[i].len() implies end.visited[t.links[i][j] as int] by {
            let c = t.candidate(i as u32);
            assert(expanded(t, end.visited, i));
        }
    }
    assert(end.visited[n as int]);
}

/// What has been looked at stays looked at.
pub(crate) proof fn lemma_visited_grows(t: Terrain, b: Beam, ef: int, i: int)
    requires
        t.wf(),
        beam_wf(t, b),
        0 <= i < t.size(),
        b.visited[i],
    ensures
        beam_run(t, b, ef).visited[i],
    decreases steps_left(b),
{
    if b.frontier.len() > 0 {
        lemma_beam_turn(t, b, ef);
        if !settled(b, ef, b.frontier[0]) {
            let list = t.links[b.frontier[0].label as int];
            lemma_visit_all(t, advanced(b), ef, list);
            lemma_visited_grows(t, visit_all(t, advanced(b), ef, list), ef, i);
        }
    }
}

/// Whether every eligible node looked at is a result, or the results are full
/// and it is no closer than the farthest of them.
pub open spec fn closest_kept(t: Terrain, b: Beam, ef: int) -> bool {
    forall|i: u32|
        #![trigger t.candidate(i)]
        i < t.size() && b.visited[i as int] && t.eligible[i as int] ==> b.best.contains(
            t.candidate(i),
        ) || (b.best.len() >= ef && !less(t.dist[i as int], worst(b.best)))
}

pub(crate) proof fn lemma_closest_visit(t: Terrain, b: Beam, ef: int, n: u32)
    requires
        t.wf(),
        beam_wf(t, b),
        t.holds(n),
        ef >= 1,
        closest_kept(t, b, ef),
    ensures
        closest_kept(t, visit(t, b, ef, n), ef),
{
    let after = visit(t, b, ef, n);
    let c = t.candidate(n);
    if !b.visited[n as int] && t.eligible[n as int] && (b.best.len() < ef || less(
        c.distance,
        worst(b.best),
    )) {
        let more = with_candidate(b.best, c);
        lemma_with_candidate(b.best, c);
        lemma_place(b.best, c);
        lemma_kept(b.best, c, ef);
        let last = b.best.len() - 1;
        if more.len() > ef {
            let p = place(b.best, c);
            lemma_total_order_refines_less(c.distance, worst(b.best));
            assert(before(c, b.best[last]));
            assert(p <= last);
            assert(more[last + 1] == b.best[last]);
            assert(after.best.len() == b.best.len());
            let new_worst = after.best.last();
            assert(new_worst == more[last]);
            assert(!before(more[last + 1], more[last]));
            assert forall|i: u32|
                #![trigger t.candidate(i)]
                i < t.size() && after.visited[i as int]
                    && t.eligible[i as int] implies after.best.contains(t.candidate(i)) || (
            after.best.len() >= ef && !less(t.dist[i as int], worst(after.best))) by {
                let x = t.candidate(i);
                if i == n {
                    assert(more[p] == c);
                    assert(after.best[p] == c);
                } else if b.best.contains(x) {
                    let q = choose|q: int| 0 <= q < b.best.len() && b.best[q] == x;
                    if q == last {
                        assert(!less(x.distance, new_worst.distance));
                    } else {
                        let at = if q < p {
                            q
                        } else {
                            q + 1
                        };
                        assert(more[at] == x);
                        assert(after.best[at] == x);
                    }
                } else {
                    assert(!less(x.distance, worst(b.best)));
                    assert(!less(x.distance, new_worst.distance));
                }
            }
        } else {
            assert forall|i: u32|
                #![trigger t.candidate(i)]
                i < t.size() && after.visited[i as int]
                    && t.eligible[i as int] implies after.best.contains(t.candidate(i)) by {
                if i != n {
                    assert(b.best.contains(t.candidate(i)));
                }
            }
        }
    }
}

pub(crate) proof fn lemma_closest_visits(t: Terrain, b: Beam, ef: int, list: Seq<u32>)
    requires
        t.wf(),
        beam_wf(t, b),
        forall|j: int| #![trigger list[j]] 0 <= j < list.len() ==> t.holds(list[j]),
        ef >= 1,
        closest_kept(t, b, ef),
    ensures
        closest_kept(t, visit_all(t, b, ef, list), ef),
    decreases list.len(),
{
    if list.len() > 0 {
        let front = list.drop_last();
        assert forall|j: int| #![trigger front[j]] 0 <= j < front.len() implies t.holds(
            front[j],
        ) by {
            assert(front[j] == list[j]);
        }
        lemma_visit_all(t, b, ef, front);
        lemma_closest_visits(t, b, ef, front);
        assert(t.holds(list[list.len() - 1]));
        lemma_closest_visit(t, visit_all(t, b, ef, front), ef, list.last());
    }
}

proof fn lemma_closest_run(t: Terrain, b: Beam, ef: int)
    requires
        t.wf(),
        beam_wf(t, b),
        ef >= 1,
        closest_kept(t, b, ef),
    ensures
        closest_kept(t, beam_run(t, b, ef), ef),
    decreases steps_left(b),
{
    if b.frontier.len() > 0 {
        lemma_beam_turn(t, b, ef);
        if !settled(b, ef, b.frontier[0]) {
            let list = t.links[b.frontier[0].label as int];
            let start = advanced(b);
            assert(closest_kept(t, start, ef)) by {
                assert forall|i: u32|
                    #![trigger t.candidate(i)]
                    i < t.size() && start.visited[i as int]
                        && t.eligible[i as int] implies start.best.contains(t.candidate(i)) || (
                start.best.len() >= ef && !less(t.dist[i as int], worst(start.best))) by {
                    assert(b.visited[i as int]);
                }
            }
            lemma_closest_visits(t, start, ef, list);
            lemma_closest_run(t, visit_all(t, start, ef, list), ef);
        }
    }
}

/// A beam keeps the closest: an eligible node that it looked at and did not
/// keep is no closer than the farthest of a full set of results.
pub proof fn law_beam_keeps_the_closest(t: Terrain, ep: u32, ef: int, n: u32)
    requires
        t.wf(),
        t.holds(ep),
        ef >= 1,
        n < t.size(),
        t.eligible[n as int],
        beam_search(t, ep, ef).visited[n as int],
        !beam_search(t, ep, ef).best.contains(t.candidate(n)),
    ensures
        beam_search(t, ep, ef).best.len() >= ef,
        !less(t.dist[n as int], worst(beam_search(t, ep, ef).best)),
{
    let start = beam_start(t, ep);
    lemma_beam_start(t, ep);
    assert(closest_kept(t, start, ef)) by {
        assert forall|i: u32|
            #![trigger t.candidate(i)]
            i < t.size() && start.visited[i as int]
                && t.eligible[i as int] implies start.best.contains(t.candidate(i)) by {
            assert(start.best[0] == t.candidate(ep));
        }
    }
    lemma_closest_run(t, start, ef);
    let c = t.candidate(n);
}

proof fn lemma_bounded_run(t: Terrain, b: Beam, ef: int)
    requires
        t.wf(),
        beam_wf(t, b),
        b.best.len() <= ef,
    ensures
        beam_run(t, b, ef).best.len() <= ef,
    decreases steps_left(b),
{
    if b.frontier.len() > 0 {
        lemma_beam_turn(t, b, ef);
        if !settled(b, ef, b.frontier[0]) {
            let list = t.links[b.frontier[0].label as int];
            lemma_bounded_visits(t, advanced(b), ef, list);
            lemma_bounded_run(t, visit_all(t, advanced(b), ef, list), ef);
        }
    }
}

proof fn lemma_bounded_visits(t: Terrain, b: Beam, ef: int, list: Seq<u32>)
    requires
        t.wf(),
        beam_wf(t, b),
        forall|j: int| #![trigger list[j]] 0 <= j < list.len() ==> t.holds(list[j]),
        b.best.len() <= ef,
    ensures
        visit_all(t, b, ef, list).best.len() <= ef,
    decreases list.len(),
{
    if list.len() > 0 {
        let front = list.drop_last();
        assert forall|j: int| #![trigger front[j]] 0 <= j < front.len() implies t.holds(
            front[j],
        ) by {
            assert(front[j] == list[j]);
        }
        lemma_visit_all(t, b, ef, front);
        lemma_bounded_visits(t, b, ef, front);
        let mid = visit_all(t, b, ef, front);
        lemma_kept(mid.best, t.candidate(list.last()), ef);
    }
}

/// A beam is no wider than it was asked to be.
pub proof fn law_beam_is_bounded(t: Terrain, ep: u32, ef: int)
    requires
        t.wf(),
        t.holds(ep),
        ef >= 1,
    ensures
        beam_search(t, ep, ef).best.len() <= ef,
{
    lemma_beam_start(t, ep);
    lemma_bounded_run(t, beam_start(t, ep), ef);
}

proof fn lemma_events_grow_visits(t: Terrain, b: Beam, ef: int, list: Seq<u32>)
    ensures
        visit_all(t, b, ef, list).events.len() >= b.events.len(),
    decreases list.len(),
{
    if list.len() > 0 {
        lemma_events_grow_visits(t, b, ef, list.drop_last());
    }
}

/// The record of a search only grows.
pub proof fn lemma_events_grow(t: Terrain, b: Beam, ef: int)
    requires
        t.wf(),
        beam_wf(t, b),
    ensures
        beam_run(t, b, ef).events.len() >= b.events.len(),
    decreases steps_left(b),
{
    if b.frontier.len() > 0 {
        lemma_beam_turn(t, b, ef);
        if !settled(b, ef, b.frontier[0]) {
            let list = t.links[b.frontier[0].label as int];
            lemma_events_grow_visits(t, advanced(b), ef, list);
            lemma_events_grow(t, visit_all(t, advanced(b), ef, list), ef);
        }
    }
}

} // verus!
