//! The flat index: every query looks at every vector.
use crate::candidate::{first, lemma_ranked, offer, ranked, Candidate};
use crate::distance::DistanceMetric;
use crate::error::{Result, VexError};
use crate::float::{arith_of, is_arithmetic, Arith, FloatOp};
use crate::graph::held_payload;
use crate::index::{Index, Record, SearchResult};
use crate::json::{JsonView, Payload};
use crate::payload::{lets_through, optional_filter, Filter, FilterView};
use crate::records::{
    exact_hits, holds_live, id_hits, lemma_drop_point, lemma_exact_hits, lemma_live_records,
    lemma_matches_of, lemma_push_point, live_count, live_list, live_points, live_records,
    matches_of, unique_live, Point,
};
use crate::vector::{Vector, VectorId};
use std::collections::HashMap;
use vstd::prelude::*;

verus! {

broadcast use vstd::std_specs::hash::group_hash_axioms;

/// A stored vector.
#[derive(Debug)]
pub struct Entry {
    pub id: VectorId,
    pub vector: Vector,
    pub payload: Option<Payload>,
}

/// A stored vector as mathematics.
#[verifier::ext_equal]
pub struct EntryView {
    pub id: u64,
    pub vector: Seq<u32>,
    pub payload: Option<JsonView>,
}

impl View for Entry {
    type V = EntryView;

    open spec fn view(&self) -> EntryView {
        EntryView {
            id: self.id.0,
            vector: self.vector@,
            payload: held_payload(self.payload),
        }
    }
}

/// Brute-force index: a contiguous run of entries and the place of each id.
/// A removed entry is replaced by the last one.
#[derive(Debug)]
pub struct FlatIndex {
    pub(crate) metric: DistanceMetric,
    pub(crate) dim: usize,
    pub(crate) entries: Vec<Entry>,
    pub(crate) id_to_pos: HashMap<u64, usize>,
}

/// A flat index as mathematics.
#[verifier::ext_equal]
pub struct FlatView {
    pub metric: DistanceMetric,
    pub dim: usize,
    pub entries: Seq<EntryView>,
}

impl View for FlatIndex {
    type V = FlatView;

    open(crate) spec fn view(&self) -> FlatView {
        FlatView {
            metric: self.metric,
            dim: self.dim,
            entries: self.entries@.map_values(|e: Entry| e@),
        }
    }
}

impl FlatView {
    /// Whether all vectors have the dimension and no id occurs twice.
    pub open spec fn wf(self) -> bool {
        &&& forall|i: int|
            0 <= i < self.entries.len() ==> (#[trigger] self.entries[i]).vector.len() == self.dim
        &&& forall|i: int, j: int|
            #![trigger self.entries[i], self.entries[j]]
            0 <= i < j < self.entries.len() ==> self.entries[i].id != self.entries[j].id
    }

    /// The entries as stored points.
    pub open spec fn points(self) -> Seq<Point> {
        self.entries.map_values(
            |e: EntryView|
                Point {
                    id: e.id,
                    live: true,
                    record: Record { vector: e.vector, payload: e.payload },
                },
        )
    }

    /// The index with one more entry.
    pub open spec fn added(self, e: EntryView) -> FlatView {
        FlatView { entries: self.entries.push(e), ..self }
    }

    /// The place of the entry with an id, if there is one.
    pub open spec fn place_of(self, id: u64) -> int {
        choose|i: int| #![trigger self.entries[i]] 0 <= i < self.entries.len() && self.entries[i].id == id
    }

    /// The index without the entry at a place, which the last entry takes.
    pub open spec fn removed_at(self, at: int) -> FlatView {
        FlatView { entries: self.entries.update(at, self.entries.last()).drop_last(), ..self }
    }
}

/// No two points of a flat index share an id.
pub proof fn lemma_flat_points(v: FlatView)
    requires
        v.wf(),
    ensures
        unique_live(v.points()),
        v.points().len() == v.entries.len(),
        live_count(v.points()) == v.entries.len(),
{
    let points = v.points();
    assert forall|i: int, j: int|
        #![trigger points[i], points[j]]
        0 <= i < points.len() && 0 <= j < points.len() && points[i].live && points[j].live
            && points[i].id == points[j].id implies i == j by {
        assert(v.entries[i].id == v.entries[j].id);
    }
    lemma_all_live(points);
}

proof fn lemma_all_live(points: Seq<Point>)
    requires
        forall|i: int| 0 <= i < points.len() ==> (#[trigger] points[i]).live,
    ensures
        live_count(points) == points.len(),
    decreases points.len(),
{
    if points.len() > 0 {
        assert(points[points.len() - 1].live);
        assert forall|i: int| 0 <= i < points.drop_last().len() implies (
        #[trigger] points.drop_last()[i]).live by {
            assert(points[i].live);
        }
        lemma_all_live(points.drop_last());
    }
}

impl FlatIndex {
    /// Whether the map gives the place of every id, and only that.
    pub open(crate) spec fn mapped(&self) -> bool {
        &&& forall|i: int|
            0 <= i < self.entries@.len() ==> self.id_to_pos@.contains_key(
                (#[trigger] self.entries@[i]).id.0,
            ) && self.id_to_pos@[self.entries@[i].id.0] == i
        &&& forall|id: u64| #[trigger]
            self.id_to_pos@.contains_key(id) ==> self.id_to_pos@[id] < self.entries@.len()
                && self.entries@[self.id_to_pos@[id] as int].id.0 == id
    }

    /// An index that holds nothing.
    pub fn new(dim: usize, metric: DistanceMetric) -> (r: Self)
        ensures
            r.wf(),
            r@ == (FlatView { metric, dim, entries: seq![] }),
            r.records() == Map::<u64, Record>::empty(),
    {
        let r = FlatIndex { metric, dim, entries: Vec::new(), id_to_pos: HashMap::new() };
        assert(r@.entries =~= seq![]);
        r
    }

    /// The metric of the index.
    pub fn metric(&self) -> (r: DistanceMetric)
        ensures
            r == self@.metric,
    {
        self.metric
    }

    proof fn lemma_lookup(&self, id: u64)
        requires
            self.wf(),
        ensures
            self.id_to_pos@.contains_key(id) == self.records().contains_key(id),
            self.id_to_pos@.contains_key(id) ==> {
                let at = self.id_to_pos@[id] as int;
                &&& 0 <= at < self.entries@.len()
                &&& self@.entries[at] == self.entries@[at]@
                &&& self.records()[id] == (Record {
                    vector: self@.entries[at].vector,
                    payload: self@.entries[at].payload,
                })
            },
    {
        let v = self@;
        lemma_flat_points(v);
        lemma_live_records(v.points());
        if self.id_to_pos@.contains_key(id) {
            let at = self.id_to_pos@[id] as int;
            assert(v.points()[at].live);
        }
        if self.records().contains_key(id) {
            let i = choose|i: int|
                #![trigger v.points()[i]]
                0 <= i < v.points().len() && v.points()[i].live && v.points()[i].id == id;
            assert(self.entries@[i].id.0 == id);
        }
    }

    /// Whether an id is in use.
    pub fn contains(&self, id: VectorId) -> (r: bool)
        requires
            self.wf(),
        ensures
            r == self.records().contains_key(id.0),
    {
        proof {
            self.lemma_lookup(id.0);
        }
        self.id_to_pos.contains_key(&id.0)
    }

    /// The vectors with their payloads, in the order in which they are stored.
    pub fn iter_live(&self) -> (r: Vec<(VectorId, &Vector, Option<&Payload>)>)
        requires
            self.wf(),
        ensures
            live_list(r@) == live_points(self@.points()),
    {
        let ghost points = self@.points();
        let mut out: Vec<(VectorId, &Vector, Option<&Payload>)> = Vec::new();
        let mut i: usize = 0;
        assert(points.take(0) =~= seq![]);
        assert(live_list(out@) =~= seq![]);
        while i < self.entries.len()
            invariant
                points == self@.points(),
                points.len() == self.entries@.len(),
                i <= self.entries@.len(),
                live_list(out@) == live_points(points.take(i as int)),
            decreases self.entries@.len() - i,
        {
            let entry = &self.entries[i];
            assert(self@.entries[i as int] == entry@);
            assert(points.take(i as int + 1).drop_last() =~= points.take(i as int));
            let ghost was = out@;
            out.push((entry.id, &entry.vector, entry.payload.as_ref()));
            assert(live_list(out@) =~= live_list(was).push(points[i as int]));
            i = i + 1;
        }
        assert(points.take(i as int) =~= points);
        out
    }
}

impl Index for FlatIndex {
    open(crate) spec fn wf(&self) -> bool {
        self@.wf() && self.mapped()
    }

    open spec fn spec_dim(&self) -> usize {
        self@.dim
    }

    open spec fn spec_metric(&self) -> DistanceMetric {
        self@.metric
    }

    open spec fn records(&self) -> Map<u64, Record> {
        live_records(self@.points())
    }

    open spec fn ready_for(&self, ar: Arith, n: nat) -> bool {
        true
    }

    open spec fn stored(
        &self,
        ar: Arith,
        id: u64,
        vector: Seq<u32>,
        payload: Option<JsonView>,
        after: Self,
    ) -> bool {
        after@ == self@.added(EntryView { id, vector, payload })
    }

    open spec fn dropped(&self, id: u64, after: Self) -> bool {
        after@ == self@.removed_at(self@.place_of(id))
    }

    open spec fn answer(
        &self,
        ar: Arith,
        query: Seq<u32>,
        k: usize,
        filter: Option<FilterView>,
    ) -> Seq<SearchResult> {
        exact_hits(self@.points(), self@.metric, ar, query, k as int, filter)
    }

    proof fn lemma_ready_for_less(&self, ar: Arith, n: nat, fewer: nat) {
    }

    fn can_take<F: Fn(FloatOp, u64, u64) -> u64>(&self, fpu: &F, n: usize) -> (r: bool) {
        true
    }

    fn add_with_payload<F: Fn(FloatOp, u64, u64) -> u64>(
        &mut self,
        fpu: &F,
        id: VectorId,
        vector: Vector,
        payload: Option<Payload>,
    ) -> (r: Result<()>)
        ensures
            r is Ok ==> final(self)@ == old(self)@.added(
                EntryView { id: id.0, vector: vector@, payload: held_payload(payload) },
            ),
    {
        if vector.dim() != self.dim {
            return Err(
                VexError::DimensionMismatch { expected: self.dim, actual: vector.dim() },
            );
        }
        proof {
            self.lemma_lookup(id.0);
        }
        if self.id_to_pos.contains_key(&id.0) {
            return Err(VexError::DuplicateId(id));
        }
        let ghost was = self@;
        let ghost e = EntryView { id: id.0, vector: vector@, payload: held_payload(payload) };
        let pos: usize = self.entries.len();
        self.entries.push(Entry { id, vector, payload });
        self.id_to_pos.insert(id.0, pos);
        proof {
            assert(self@.entries =~= was.entries.push(e));
            lemma_flat_points(was);
            let p = Point {
                id: e.id,
                live: true,
                record: Record { vector: e.vector, payload: e.payload },
            };
            lemma_live_records(was.points());
            assert(!holds_live(was.points(), id.0));
            lemma_push_point(was.points(), p);
            assert(self@.points() =~= was.points().push(p));
            assert forall|i: int, j: int|
                #![trigger self@.entries[i], self@.entries[j]]
                0 <= i < j < self@.entries.len() implies self@.entries[i].id
                != self@.entries[j].id by {
                assert(self@.points()[i].live && self@.points()[j].live);
            }
            assert forall|i: int| 0 <= i < self@.entries.len() implies (
            #[trigger] self@.entries[i]).vector.len() == self@.dim by {
                if i < was.entries.len() {
                    assert(was.entries[i] == self@.entries[i]);
                }
            }
        }
        Ok(())
    }

    fn remove(&mut self, id: VectorId) -> (r: Result<bool>)
        ensures
            old(self).records().contains_key(id.0) ==> {
                let at = old(self)@.place_of(id.0);
                &&& 0 <= at < old(self)@.entries.len()
                &&& old(self)@.entries[at].id == id.0
                &&& final(self)@ == old(self)@.removed_at(at)
            },
    {
        let ghost was = self@;
        let ghost places = self.id_to_pos@;
        let ghost entries = self.entries@;
        proof {
            self.lemma_lookup(id.0);
        }
        let pos: usize = match self.id_to_pos.get(&id.0) {
            Some(pos) => *pos,
            None => {
                assert(self.records() =~= self.records().remove(id.0));
                return Ok(false);
            },
        };
        self.id_to_pos.remove(&id.0);
        self.entries.swap_remove(pos);
        if pos < self.entries.len() {
            let moved: u64 = self.entries[pos].id.0;
            self.id_to_pos.insert(moved, pos);
        }
        proof {
            let last = entries.len() - 1;
            assert(was.entries[pos as int].id == id.0);
            assert(was.place_of(id.0) == pos) by {
                let at = was.place_of(id.0);
                assert(0 <= at < was.entries.len() && was.entries[at].id == id.0);
                if at < pos {
                    assert(was.entries[at].id != was.entries[pos as int].id);
                } else if pos < at {
                    assert(was.entries[pos as int].id != was.entries[at].id);
                }
            }
            assert(self@.entries =~= was.removed_at(pos as int).entries);
            lemma_flat_points(was);
            let points = was.points();
            let after = self@.points();
            assert forall|j: int| 0 <= j < after.len() implies #[trigger] after[j] == points[if j
                == pos {
                last
            } else {
                j
            }] by {
                assert(self@.entries[j] == was.entries[if j == pos {
                    last
                } else {
                    j
                }]);
            }
            assert forall|i: int, j: int|
                #![trigger after[i], after[j]]
                0 <= i < after.len() && 0 <= j < after.len() && after[i].live && after[j].live
                    && after[i].id == after[j].id implies i == j by {
                let pi = if i == pos {
                    last
                } else {
                    i
                };
                let pj = if j == pos {
                    last
                } else {
                    j
                };
                assert(points[pi].id == points[pj].id);
            }
            assert forall|j: int|
                #![trigger after[j]]
                0 <= j < after.len() && after[j].live implies exists|i: int|
                #![trigger points[i]]
                0 <= i < points.len() && i != pos && points[i] == after[j] by {
                assert(points[if j == pos {
                    last
                } else {
                    j
                }] == after[j]);
            }
            assert forall|i: int|
                #![trigger points[i]]
                0 <= i < points.len() && i != pos && points[i].live implies exists|j: int|
                #![trigger after[j]]
                0 <= j < after.len() && after[j] == points[i] by {
                assert(after[if i == last {
                    pos as int
                } else {
                    i
                }] == points[i]);
            }
            lemma_drop_point(points, after, pos as int);
            assert forall|i: int, j: int|
                #![trigger self@.entries[i], self@.entries[j]]
                0 <= i < j < self@.entries.len() implies self@.entries[i].id
                != self@.entries[j].id by {
                assert(after[i].live && after[j].live);
            }
            assert forall|i: int| 0 <= i < self@.entries.len() implies (
            #[trigger] self@.entries[i]).vector.len() == self@.dim by {
                assert(self@.entries[i] == was.entries[if i == pos {
                    last
                } else {
                    i
                }]);
            }
            assert forall|i: int| 0 <= i < self.entries@.len() implies self.id_to_pos@.contains_key(
                (#[trigger] self.entries@[i]).id.0,
            ) && self.id_to_pos@[self.entries@[i].id.0] == i by {
                let was_at = if i == pos {
                    last
                } else {
                    i
                };
                assert(self.entries@[i] == entries[was_at]);
                assert(places.contains_key(entries[was_at].id.0));
                assert(points[was_at].live && points[pos as int].live);
                assert(after[i].live);
                if pos < self.entries@.len() {
                    assert(after[pos as int].live);
                }
            }
            assert forall|x: u64| #[trigger] self.id_to_pos@.contains_key(
                x,
            ) implies self.id_to_pos@[x] < self.entries@.len()
                && self.entries@[self.id_to_pos@[x] as int].id.0 == x by {
                if pos < self.entries@.len() && x == self.entries@[pos as int].id.0 {
                } else {
                    assert(places.contains_key(x));
                    let i = places[x] as int;
                    assert(entries[i].id.0 == x);
                    assert(i != pos);
                    assert(i != last);
                    assert(self.entries@[i] == entries[i]);
                }
            }
        }
        Ok(true)
    }

    fn search_filtered<F: Fn(FloatOp, u64, u64) -> u64>(
        &self,
        fpu: &F,
        query: &[u32],
        k: usize,
        filter: Option<&Filter>,
    ) -> (r: Result<Vec<SearchResult>>) {
        if k == 0 {
            return Err(VexError::InvalidK);
        }
        if query.len() != self.dim {
            return Err(
                VexError::DimensionMismatch { expected: self.dim, actual: query.len() },
            );
        }
        let ghost ar = arith_of(*fpu);
        let ghost v = self@;
        let ghost fv = optional_filter(filter);
        let ghost points = v.points();
        let ghost cands = matches_of(points, v.metric, ar, query@, fv);
        proof {
            lemma_flat_points(v);
            lemma_matches_of(points, v.metric, ar, query@, fv);
            lemma_exact_hits(points, v.metric, ar, query@, k as int, fv);
            lemma_ranked(cands);
        }
        let n: usize = self.entries.len();
        if n == 0 {
            let none: Vec<SearchResult> = Vec::new();
            assert(none@ =~= exact_hits(points, v.metric, ar, query@, k as int, fv));
            return Ok(none);
        }
        let cap: usize = if k < n {
            k
        } else {
            n
        };
        let mut best: Vec<Candidate> = Vec::new();
        let mut i: usize = 0;
        assert(points.take(0) =~= seq![]);
        assert(best@ =~= first(ranked(seq![]), cap as int));
        while i < n
            invariant
                is_arithmetic(*fpu),
                ar == arith_of(*fpu),
                v == self@,
                v.wf(),
                points == v.points(),
                fv == optional_filter(filter),
                query@.len() == v.dim,
                n == self.entries@.len(),
                n == points.len(),
                cap > 0,
                i <= n,
                best@ == first(
                    ranked(matches_of(points.take(i as int), v.metric, ar, query@, fv)),
                    cap as int,
                ),
            decreases n - i,
        {
            let entry = &self.entries[i];
            assert(v.entries[i as int] == entry@);
            assert(points.take(i as int + 1).drop_last() =~= points.take(i as int));
            if lets_through(filter, entry.payload.as_ref()) {
                let distance: u32 = self.metric.measure(fpu, query, entry.vector.as_slice());
                offer(
                    &mut best,
                    cap,
                    Candidate { distance, label: entry.id.0 },
                    Ghost(matches_of(points.take(i as int), v.metric, ar, query@, fv)),
                );
            }
            i = i + 1;
        }
        assert(points.take(n as int) =~= points);
        assert(first(ranked(cands), cap as int) =~= first(ranked(cands), k as int));
        Ok(hits_from(&best))
    }

    fn payload(&self, id: VectorId) -> (r: Option<&Payload>) {
        proof {
            self.lemma_lookup(id.0);
        }
        match self.id_to_pos.get(&id.0) {
            Some(pos) => self.entries[*pos].payload.as_ref(),
            None => None,
        }
    }

    fn vector(&self, id: VectorId) -> (r: Option<&Vector>) {
        proof {
            self.lemma_lookup(id.0);
        }
        match self.id_to_pos.get(&id.0) {
            Some(pos) => Some(&self.entries[*pos].vector),
            None => None,
        }
    }

    fn len(&self) -> (r: usize) {
        proof {
            lemma_flat_points(self@);
            lemma_live_records(self@.points());
        }
        self.entries.len()
    }

    fn dim(&self) -> (r: usize) {
        self.dim
    }
}

/// Candidates that are ids, as hits.
pub(crate) fn hits_from(cands: &Vec<Candidate>) -> (r: Vec<SearchResult>)
    ensures
        r@ == id_hits(cands@),
{
    let mut hits: Vec<SearchResult> = Vec::new();
    let mut i: usize = 0;
    while i < cands.len()
        invariant
            i <= cands@.len(),
            hits@ == id_hits(cands@.take(i as int)),
        decreases cands@.len() - i,
    {
        let c = cands[i];
        hits.push(SearchResult { id: VectorId(c.label), distance: c.distance });
        assert(hits@ =~= id_hits(cands@.take(i as int + 1)));
        i = i + 1;
    }
    assert(cands@.take(i as int) =~= cands@);
    hits
}

} // verus!
