//! Walking a proximity graph towards a query: the hill climb and the beam
//! search, as mathematical functions, with what they keep.
use crate::candidate::{
    ascending, before, lemma_place, lemma_with_candidate, place, with_candidate, Candidate,
};
use crate::float::{less, value_key, INFINITY};
use vstd::prelude::*;

verus! {

/// One layer of a graph as a query sees it. All four sequences are indexed by
/// a node's place.
#[verifier::ext_equal]
pub struct Terrain {
    /// Which nodes the layer holds.
    pub on: Seq<bool>,
    /// The neighbors of each node on the layer.
    pub links: Seq<Seq<u32>>,
    /// The distance of each node from the query.
    pub dist: Seq<u32>,
    /// Which nodes may become results.
    pub eligible: Seq<bool>,
}

impl Terrain {
    /// The number of nodes of the graph.
    pub open spec fn size(self) -> nat {
        self.on.len()
    }

    /// Whether every neighbor list leads to nodes of the layer.
    pub open spec fn wf(self) -> bool {
        &&& self.size() <= 0x1_0000_0000
        &&& self.links.len() == self.size()
        &&& self.dist.len() == self.size()
        &&& self.eligible.len() == self.size()
        &&& forall|i: int, j: int|
            #![trigger self.links[i][j]]
            0 <= i < self.size() && self.on[i] && 0 <= j < self.links[i].len()
                ==> self.links[i][j] < self.size() && self.on[self.links[i][j] as int]
    }

    /// Whether `n` is a node of the layer.
    pub open spec fn holds(self, n: u32) -> bool {
        n < self.size() && self.on[n as int]
    }

    /// Node `n` as a candidate.
    pub open spec fn candidate(self, n: u32) -> Candidate {
        Candidate { distance: self.dist[n as int], label: n as u64 }
    }
}

// ---------------------------------------------------------------------------
// Hill climb
// ---------------------------------------------------------------------------

/// The node held after looking through `list`: each node that is closer than
/// the one held takes its place.
pub open spec fn closest_of(t: Terrain, held: u32, list: Seq<u32>) -> u32
    decreases list.len(),
{
    if list.len() == 0 {
        held
    } else {
        let best = closest_of(t, held, list.drop_last());
        if less(t.dist[list.last() as int], t.dist[best as int]) {
            list.last()
        } else {
            best
        }
    }
}

/// Looking through a list never moves farther away, and stays or moves closer.
pub proof fn lemma_closest_of(t: Terrain, held: u32, list: Seq<u32>)
    ensures
        closest_of(t, held, list) == held || (list.contains(closest_of(t, held, list)) && less(
            t.dist[closest_of(t, held, list) as int],
            t.dist[held as int],
        )),
    decreases list.len(),
{
    if list.len() > 0 {
        lemma_closest_of(t, held, list.drop_last());
        let best = closest_of(t, held, list.drop_last());
        if list.drop_last().contains(best) {
            let i = choose|i: int| 0 <= i < list.drop_last().len() && list.drop_last()[i] == best;
            assert(list[i] == best);
        }
        assert(list[list.len() - 1] == list.last());
    }
}

/// Where the hill climb from `from` ends: at a node none of whose neighbors
/// is closer.
pub open spec fn climb(t: Terrain, from: u32) -> u32
    decreases value_key(t.dist[from as int]) + 0x8000_0000,
{
    let next = closest_of(t, from, t.links[from as int]);
    if next == from {
        from
    } else {
        proof {
            lemma_closest_of(t, from, t.links[from as int]);
        }
        climb(t, next)
    }
}

/// How many distances the hill climb from `from` measures.
pub open spec fn climb_cost(t: Terrain, from: u32) -> nat
    decreases value_key(t.dist[from as int]) + 0x8000_0000,
{
    let next = closest_of(t, from, t.links[from as int]);
    if next == from {
        t.links[from as int].len()
    } else {
        proof {
            lemma_closest_of(t, from, t.links[from as int]);
        }
        t.links[from as int].len() + climb_cost(t, next)
    }
}

/// The climb stays on the layer, never ends farther away than it began, and
/// ends where no neighbor is closer.
pub proof fn lemma_climb(t: Terrain, from: u32)
    requires
        t.wf(),
        t.holds(from),
    ensures
        t.holds(climb(t, from)),
        climb(t, from) == from || less(t.dist[climb(t, from) as int], t.dist[from as int]),
        closest_of(t, climb(t, from), t.links[climb(t, from) as int]) == climb(t, from),
    decreases value_key(t.dist[from as int]) + 0x8000_0000,
{
    let list = t.links[from as int];
    let next = closest_of(t, from, list);
    lemma_closest_of(t, from, list);
    if next != from {
        let j = choose|j: int| 0 <= j < list.len() && list[j] == next;
        assert(t.links[from as int][j] == next);
        lemma_climb(t, next);
    }
}

// ---------------------------------------------------------------------------
// Beam search
// ---------------------------------------------------------------------------

/// What became of a node that the beam looked at.
#[derive(Clone, Copy, Debug, PartialEq, Eq, Structural)]
pub enum BeamStatus {
    /// It took a result slot.
    Admitted,
    /// It routed the beam without being a possible result.
    Routed,
    /// It was no closer than the worst of a full set of results.
    Discarded,
}

/// A beam search under way.
#[verifier::ext_equal]
pub struct Beam {
    /// Which nodes have been looked at.
    pub visited: Seq<bool>,
    /// The nodes whose neighbors are still to be looked at, closest first.
    pub frontier: Seq<Candidate>,
    /// The results so far, closest first.
    pub best: Seq<Candidate>,
    /// Every node looked at, in order.
    pub events: Seq<(Candidate, BeamStatus)>,
}

/// The distance of the farthest result; infinity as long as there is none.
pub open spec fn worst(best: Seq<Candidate>) -> u32 {
    if best.len() == 0 {
        INFINITY
    } else {
        best.last().distance
    }
}

/// The results with one more, and without the farthest if that is one too many.
pub open spec fn kept(best: Seq<Candidate>, c: Candidate, ef: int) -> Seq<Candidate> {
    let more = with_candidate(best, c);
    if more.len() > ef {
        more.drop_last()
    } else {
        more
    }
}

/// The beam at its start: only the entry node has been looked at.
pub open spec fn beam_start(t: Terrain, ep: u32) -> Beam {
    let c = t.candidate(ep);
    Beam {
        visited: Seq::new(t.size(), |i: int| i == ep),
        frontier: seq![c],
        best: if t.eligible[ep as int] {
            seq![c]
        } else {
            seq![]
        },
        events: seq![
            (
                c,
                if t.eligible[ep as int] {
                    BeamStatus::Admitted
                } else {
                    BeamStatus::Routed
                },
            ),
        ],
    }
}

/// Looking at one node. A node seen before changes nothing. A new one joins
/// the frontier while there is room among the results or it is closer than
/// the farthest result; it becomes a result only if it may be one.
pub open spec fn visit(t: Terrain, b: Beam, ef: int, n: u32) -> Beam {
    if b.visited[n as int] {
        b
    } else {
        let c = t.candidate(n);
        let visited = b.visited.update(n as int, true);
        if b.best.len() < ef || less(c.distance, worst(b.best)) {
            if t.eligible[n as int] {
                Beam {
                    visited,
                    frontier: with_candidate(b.frontier, c),
                    best: kept(b.best, c, ef),
                    events: b.events.push((c, BeamStatus::Admitted)),
                }
            } else {
                Beam {
                    visited,
                    frontier: with_candidate(b.frontier, c),
                    best: b.best,
                    events: b.events.push((c, BeamStatus::Routed)),
                }
            }
        } else {
            Beam {
                visited,
                frontier: b.frontier,
                best: b.best,
                events: b.events.push((c, BeamStatus::Discarded)),
            }
        }
    }
}

/// Looking at every node of a list, in order.
pub open spec fn visit_all(t: Terrain, b: Beam, ef: int, list: Seq<u32>) -> Beam
    decreases list.len(),
{
    if list.len() == 0 {
        b
    } else {
        visit(t, visit_all(t, b, ef, list.drop_last()), ef, list.last())
    }
}

/// The beam without the closest node of its frontier.
pub open spec fn advanced(b: Beam) -> Beam {
    Beam { frontier: b.frontier.drop_first(), ..b }
}

/// Whether the search ends with `current` as the closest node to go on from:
/// the results are full and all at least as close.
pub open spec fn settled(b: Beam, ef: int, current: Candidate) -> bool {
    b.best.len() >= ef && less(worst(b.best), current.distance)
}

/// The number of nodes not yet looked at.
pub open spec fn unvisited(visited: Seq<bool>) -> nat
    decreases visited.len(),
{
    if visited.len() == 0 {
        0
    } else {
        unvisited(visited.drop_last()) + if visited.last() {
            0nat
        } else {
            1nat
        }
    }
}

/// An upper bound on the steps still to take.
pub open spec fn steps_left(b: Beam) -> nat {
    unvisited(b.visited) + b.frontier.len()
}

/// The end of a beam search: the closest node of the frontier is expanded
/// until none is left or the search is settled.
pub open spec fn beam_run(t: Terrain, b: Beam, ef: int) -> Beam
    decreases steps_left(b),
    when t.wf() && beam_wf(t, b)
{
    if b.frontier.len() == 0 {
        b
    } else {
        let current = b.frontier[0];
        if settled(b, ef, current) {
            b
        } else {
            proof {
                lemma_advanced(t, b);
                lemma_visit_all(t, advanced(b), ef, t.links[current.label as int]);
            }
            beam_run(t, visit_all(t, advanced(b), ef, t.links[current.label as int]), ef)
        }
    }
}

/// The beam search from `ep`.
pub open spec fn beam_search(t: Terrain, ep: u32, ef: int) -> Beam {
    beam_run(t, beam_start(t, ep), ef)
}

/// Whether a candidate stands for a node of the layer that has been looked at.
pub open spec fn seen(t: Terrain, visited: Seq<bool>, c: Candidate) -> bool {
    &&& c.label < t.size()
    &&& visited[c.label as int]
    &&& t.on[c.label as int]
    &&& c.distance == t.dist[c.label as int]
}

/// What holds at every step of a beam search.
pub open spec fn beam_wf(t: Terrain, b: Beam) -> bool {
    &&& b.visited.len() == t.size()
    &&& forall|i: int| 0 <= i < t.size() && #[trigger] b.visited[i] ==> t.on[i]
    &&& ascending(b.frontier)
    &&& ascending(b.best)
    &&& forall|c: Candidate| #[trigger] b.frontier.contains(c) ==> seen(t, b.visited, c)
    &&& forall|c: Candidate| #[trigger]
        b.best.contains(c) ==> seen(t, b.visited, c) && t.eligible[c.label as int]
    &&& b.best.no_duplicates()
}

proof fn lemma_unvisited_update(visited: Seq<bool>, n: int)
    requires
        0 <= n < visited.len(),
        !visited[n],
    ensures
        unvisited(visited.update(n, true)) + 1 == unvisited(visited),
    decreases visited.len(),
{
    let last = visited.len() - 1;
    let after = visited.update(n, true);
    if n == last {
        assert(after.drop_last() =~= visited.drop_last());
    } else {
        assert(after.drop_last() =~= visited.drop_last().update(n, true));
        lemma_unvisited_update(visited.drop_last(), n);
    }
}

/// Taking the closest node off the frontier keeps the beam in order, and all
/// neighbors of that node are nodes of the layer.
pub proof fn lemma_advanced(t: Terrain, b: Beam)
    requires
        t.wf(),
        beam_wf(t, b),
        b.frontier.len() > 0,
    ensures
        beam_wf(t, advanced(b)),
        steps_left(advanced(b)) < steps_left(b),
        seen(t, b.visited, b.frontier[0]),
        forall|j: int|
            #![trigger t.links[b.frontier[0].label as int][j]]
            0 <= j < t.links[b.frontier[0].label as int].len() ==> t.holds(
                t.links[b.frontier[0].label as int][j],
            ),
{
    let rest = b.frontier.drop_first();
    assert(b.frontier.contains(b.frontier[0]));
    assert forall|c: Candidate| #[trigger] rest.contains(c) implies seen(t, b.visited, c) by {
        let i = choose|i: int| 0 <= i < rest.len() && rest[i] == c;
        assert(b.frontier[i + 1] == c);
        assert(b.frontier.contains(c));
    }
    assert forall|i: int, j: int| 0 <= i < j < rest.len() implies !before(rest[j], rest[i]) by {
        assert(rest[i] == b.frontier[i + 1]);
        assert(rest[j] == b.frontier[j + 1]);
    }
}

proof fn lemma_no_duplicates_with(s: Seq<Candidate>, c: Candidate)
    requires
        ascending(s),
        s.no_duplicates(),
        !s.contains(c),
    ensures
        with_candidate(s, c).no_duplicates(),
{
    lemma_place(s, c);
    let p = place(s, c);
    let more = with_candidate(s, c);
    assert forall|i: int, j: int| 0 <= i < more.len() && 0 <= j < more.len() && i != j implies more[i]
        != more[j] by {
        let si = if i < p {
            i
        } else {
            i - 1
        };
        let sj = if j < p {
            j
        } else {
            j - 1
        };
        if i == p {
            assert(more[j] == s[sj]);
            assert(s.contains(s[sj]));
        } else if j == p {
            assert(more[i] == s[si]);
            assert(s.contains(s[si]));
        } else {
            assert(more[i] == s[si]);
            assert(more[j] == s[sj]);
        }
    }
}

/// The kept results are still in order, free of repetition, and come from the
/// old results and the new candidate.
pub proof fn lemma_kept(best: Seq<Candidate>, c: Candidate, ef: int)
    requires
        ascending(best),
    ensures
        ascending(kept(best, c, ef)),
        forall|x: Candidate| #[trigger]
            kept(best, c, ef).contains(x) ==> best.contains(x) || x == c,
        best.no_duplicates() && !best.contains(c) ==> kept(best, c, ef).no_duplicates(),
        kept(best, c, ef).len() == if best.len() + 1 > ef {
            best.len()
        } else {
            best.len() + 1
        },
{
    lemma_with_candidate(best, c);
    let more = with_candidate(best, c);
    let out = kept(best, c, ef);
    assert forall|x: Candidate| #[trigger] out.contains(x) implies best.contains(x) || x == c by {
        let i = choose|i: int| 0 <= i < out.len() && out[i] == x;
        assert(more[i] == x);
        assert(more.contains(x));
    }
    if best.no_duplicates() && !best.contains(c) {
        lemma_no_duplicates_with(best, c);
    }
}

/// Looking at a node keeps the beam in order and takes at least as many steps
/// off what is left as it adds.
pub proof fn lemma_visit(t: Terrain, b: Beam, ef: int, n: u32)
    requires
        t.wf(),
        beam_wf(t, b),
        t.holds(n),
    ensures
        beam_wf(t, visit(t, b, ef, n)),
        steps_left(visit(t, b, ef, n)) <= steps_left(b),
        visit(t, b, ef, n).visited[n as int],
        forall|i: int|
            0 <= i < t.size() && b.visited[i] ==> #[trigger] visit(t, b, ef, n).visited[i],
{
    let c = t.candidate(n);
    let after = visit(t, b, ef, n);
    if !b.visited[n as int] {
        lemma_unvisited_update(b.visited, n as int);
        lemma_with_candidate(b.frontier, c);
        lemma_kept(b.best, c, ef);
        if b.best.contains(c) {
            assert(seen(t, b.visited, c));
        }
        assert forall|x: Candidate| #[trigger] after.frontier.contains(x) implies seen(
            t,
            after.visited,
            x,
        ) by {
            if x != c {
                assert(b.frontier.contains(x));
            }
        }
        assert forall|x: Candidate| #[trigger] after.best.contains(x) implies seen(
            t,
            after.visited,
            x,
        ) && t.eligible[x.label as int] by {
            if b.best.contains(x) {
            }
        }
    }
}

/// The same for a list of nodes.
pub proof fn lemma_visit_all(t: Terrain, b: Beam, ef: int, list: Seq<u32>)
    requires
        t.wf(),
        beam_wf(t, b),
        forall|j: int| #![trigger list[j]] 0 <= j < list.len() ==> t.holds(list[j]),
    ensures
        beam_wf(t, visit_all(t, b, ef, list)),
        steps_left(visit_all(t, b, ef, list)) <= steps_left(b),
        forall|j: int|
            #![trigger list[j]]
            0 <= j < list.len() ==> visit_all(t, b, ef, list).visited[list[j] as int],
        forall|i: int|
            0 <= i < t.size() && b.visited[i] ==> #[trigger] visit_all(t, b, ef, list).visited[i],
    decreases list.len(),
{
    if list.len() > 0 {
        let front = list.drop_last();
        assert forall|j: int| #![trigger front[j]] 0 <= j < front.len() implies t.holds(
            front[j],
        ) by {
            assert(list[j] == front[j]);
        }
        lemma_visit_all(t, b, ef, front);
        assert(t.holds(list[list.len() - 1]));
        lemma_visit(t, visit_all(t, b, ef, front), ef, list.last());
        assert forall|j: int| #![trigger list[j]] 0 <= j < list.len() implies visit_all(
            t,
            b,
            ef,
            list,
        ).visited[list[j] as int] by {
            if j < front.len() {
                assert(front[j] == list[j]);
                assert(t.holds(front[j]));
            }
        }
    }
}

/// The start of a search is in order.
pub proof fn lemma_beam_start(t: Terrain, ep: u32)
    requires
        t.wf(),
        t.holds(ep),
    ensures
        beam_wf(t, beam_start(t, ep)),
{
    let b = beam_start(t, ep);
    let c = t.candidate(ep);
    assert(b.frontier[0] == c);
}

/// One turn of the search's loop.
pub proof fn lemma_beam_turn(t: Terrain, b: Beam, ef: int)
    requires
        t.wf(),
        beam_wf(t, b),
        b.frontier.len() > 0,
    ensures
        seen(t, b.visited, b.frontier[0]),
        beam_wf(t, advanced(b)),
        ({
            let list = t.links[b.frontier[0].label as int];
            let after = visit_all(t, advanced(b), ef, list);
            &&& forall|j: int| #![trigger list[j]] 0 <= j < list.len() ==> t.holds(list[j])
            &&& beam_wf(t, after)
            &&& steps_left(after) < steps_left(b)
            &&& !settled(b, ef, b.frontier[0]) ==> beam_run(t, b, ef) == beam_run(t, after, ef)
            &&& settled(b, ef, b.frontier[0]) ==> beam_run(t, b, ef) == b
        }),
{
    lemma_advanced(t, b);
    lemma_visit_all(t, advanced(b), ef, t.links[b.frontier[0].label as int]);
}

/// A search keeps its order to the end.
pub proof fn lemma_beam_run(t: Terrain, b: Beam, ef: int)
    requires
        t.wf(),
        beam_wf(t, b),
    ensures
        beam_wf(t, beam_run(t, b, ef)),
    decreases steps_left(b),
{
    if b.frontier.len() > 0 {
        lemma_beam_turn(t, b, ef);
        if !settled(b, ef, b.frontier[0]) {
            lemma_beam_run(
                t,
                visit_all(t, advanced(b), ef, t.links[b.frontier[0].label as int]),
                ef,
            );
        }
    }
}

// ---------------------------------------------------------------------------
// The record of a search
// ---------------------------------------------------------------------------

/// Whether the record holds every node looked at, once each, at its distance.
pub open spec fn events_wf(t: Terrain, b: Beam) -> bool {
    &&& b.events.len() + unvisited(b.visited) == t.size()
    &&& forall|i: int|
        #![trigger b.events[i]]
        0 <= i < b.events.len() ==> seen(t, b.visited, b.events[i].0)
}

proof fn lemma_unvisited_none(visited: Seq<bool>)
    requires
        forall|i: int| 0 <= i < visited.len() ==> !visited[i],
    ensures
        unvisited(visited) == visited.len(),
    decreases visited.len(),
{
    if visited.len() > 0 {
        lemma_unvisited_none(visited.drop_last());
    }
}

/// The record is right at the start of a search.
pub proof fn lemma_events_start(t: Terrain, ep: u32)
    requires
        t.wf(),
        t.holds(ep),
    ensures
        events_wf(t, beam_start(t, ep)),
{
    let b = beam_start(t, ep);
    let none = Seq::new(t.size(), |i: int| false);
    lemma_unvisited_none(none);
    lemma_unvisited_update(none, ep as int);
    assert(b.visited =~= none.update(ep as int, true));
}

proof fn lemma_events_visit(t: Terrain, b: Beam, ef: int, n: u32)
    requires
        t.wf(),
        beam_wf(t, b),
        events_wf(t, b),
        t.holds(n),
    ensures
        events_wf(t, visit(t, b, ef, n)),
{
    let after = visit(t, b, ef, n);
    if !b.visited[n as int] {
        lemma_unvisited_update(b.visited, n as int);
        assert forall|i: int|
            #![trigger after.events[i]]
            0 <= i < after.events.len() implies seen(t, after.visited, after.events[i].0) by {
            if i < b.events.len() {
                assert(after.events[i] == b.events[i]);
            }
        }
    }
}

proof fn lemma_events_visit_all(t: Terrain, b: Beam, ef: int, list: Seq<u32>)
    requires
        t.wf(),
        beam_wf(t, b),
        events_wf(t, b),
        forall|j: int| #![trigger list[j]] 0 <= j < list.len() ==> t.holds(list[j]),
    ensures
        events_wf(t, visit_all(t, b, ef, list)),
    decreases list.len(),
{
    if list.len() > 0 {
        let front = list.drop_last();
        assert forall|j: int| #![trigger front[j]] 0 <= j < front.len() implies t.holds(
            front[j],
        ) by {
            assert(list[j] == front[j]);
        }
        lemma_events_visit_all(t, b, ef, front);
        lemma_visit_all(t, b, ef, front);
        assert(t.holds(list[list.len() - 1]));
        lemma_events_visit(t, visit_all(t, b, ef, front), ef, list.last());
    }
}

/// The record stays right to the end of a search.
pub proof fn lemma_events_run(t: Terrain, b: Beam, ef: int)
    requires
        t.wf(),
        beam_wf(t, b),
        events_wf(t, b),
    ensures
        events_wf(t, beam_run(t, b, ef)),
    decreases steps_left(b),
{
    if b.frontier.len() > 0 {
        lemma_beam_turn(t, b, ef);
        if !settled(b, ef, b.frontier[0]) {
            let list = t.links[b.frontier[0].label as int];
            lemma_events_visit_all(t, advanced(b), ef, list);
            lemma_events_run(t, visit_all(t, advanced(b), ef, list), ef);
        }
    }
}

} // verus!
