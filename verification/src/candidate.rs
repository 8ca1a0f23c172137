//! Candidates of a search and sequences of them in ascending order.
use crate::float::{lemma_total_order_refines_less, total_key, total_key_of};
use vstd::prelude::*;

verus! {

/// A distance and the label of what lies at it (a node's place, or an id).
/// Candidates are ordered by distance, then by label, so that every order is
/// total and every result deterministic, whatever the distances are.
#[derive(Clone, Copy, Debug, PartialEq, Eq, Structural)]
pub struct Candidate {
    pub distance: u32,
    pub label: u64,
}

/// Whether `a` comes strictly before `b`.
pub open spec fn before(a: Candidate, b: Candidate) -> bool {
    total_key(a.distance) < total_key(b.distance) || (total_key(a.distance) == total_key(
        b.distance,
    ) && a.label < b.label)
}

/// Whether no candidate comes before one that stands ahead of it.
pub open spec fn ascending(s: Seq<Candidate>) -> bool {
    forall|i: int, j: int| 0 <= i < j < s.len() ==> !before(s[j], s[i])
}

/// Where a candidate goes in an ascending sequence: behind all that do not
/// come after it.
pub open spec fn place(s: Seq<Candidate>, c: Candidate) -> int
    decreases s.len(),
{
    if s.len() == 0 {
        0
    } else if before(c, s.last()) {
        place(s.drop_last(), c)
    } else {
        s.len() as int
    }
}

/// An ascending sequence with one more candidate.
pub open spec fn with_candidate(s: Seq<Candidate>, c: Candidate) -> Seq<Candidate> {
    s.insert(place(s, c), c)
}

/// The candidates in ascending order.
pub open spec fn ranked(s: Seq<Candidate>) -> Seq<Candidate>
    decreases s.len(),
{
    if s.len() == 0 {
        s
    } else {
        with_candidate(ranked(s.drop_last()), s.last())
    }
}

/// The first `k` of a sequence, or all of it.
pub open spec fn first<T>(s: Seq<T>, k: int) -> Seq<T> {
    if k < s.len() {
        s.take(k)
    } else {
        s
    }
}

/// What stands before a candidate's place does not come after it; the rest does.
pub proof fn lemma_place(s: Seq<Candidate>, c: Candidate)
    requires
        ascending(s),
    ensures
        0 <= place(s, c) <= s.len(),
        forall|i: int| 0 <= i < place(s, c) ==> !before(c, s[i]),
        forall|i: int| place(s, c) <= i < s.len() ==> before(c, s[i]),
    decreases s.len(),
{
    if s.len() > 0 && before(c, s.last()) {
        let t = s.drop_last();
        assert(ascending(t));
        lemma_place(t, c);
        assert forall|i: int| 0 <= i < place(s, c) implies !before(c, s[i]) by {
            assert(t[i] == s[i]);
        }
        assert forall|i: int| place(s, c) <= i < s.len() implies before(c, s[i]) by {
            if i < t.len() {
                assert(t[i] == s[i]);
            }
        }
    } else if s.len() > 0 {
        assert forall|i: int| 0 <= i < s.len() implies !before(c, s[i]) by {
            if i < s.len() - 1 {
                assert(!before(s[s.len() - 1], s[i]));
            }
        }
    }
}

/// The place of a candidate is where those that come after it begin.
pub proof fn lemma_place_is(s: Seq<Candidate>, c: Candidate, p: int)
    requires
        ascending(s),
        0 <= p <= s.len(),
        forall|i: int| 0 <= i < p ==> !before(c, s[i]),
        forall|i: int| p <= i < s.len() ==> before(c, s[i]),
    ensures
        place(s, c) == p,
{
    lemma_place(s, c);
    let q = place(s, c);
    if p < q {
        assert(before(c, s[p]));
    } else if q < p {
        assert(before(c, s[q]));
    }
}

/// Inserting keeps the order.
pub proof fn lemma_with_candidate(s: Seq<Candidate>, c: Candidate)
    requires
        ascending(s),
    ensures
        ascending(with_candidate(s, c)),
        with_candidate(s, c).len() == s.len() + 1,
        with_candidate(s, c).to_multiset() == s.to_multiset().insert(c),
        forall|x: Candidate| #[trigger]
            with_candidate(s, c).contains(x) <==> s.contains(x) || x == c,
{
    lemma_place(s, c);
    let p = place(s, c);
    let t = with_candidate(s, c);
    assert forall|i: int, j: int| 0 <= i < j < t.len() implies !before(t[j], t[i]) by {
        let si = if i < p {
            i
        } else {
            i - 1
        };
        let sj = if j < p {
            j
        } else {
            j - 1
        };
        if i == p {
            assert(t[j] == s[sj]);
        } else if j == p {
            assert(t[i] == s[si]);
        } else {
            assert(t[i] == s[si]);
            assert(t[j] == s[sj]);
        }
    }
    broadcast use vstd::seq_lib::group_to_multiset_ensures;

    assert(t.to_multiset() =~= s.to_multiset().insert(c));
    assert(t[p] == c);
    assert forall|x: Candidate| #[trigger] t.contains(x) <==> s.contains(x) || x == c by {
        if s.contains(x) {
            let i = choose|i: int| 0 <= i < s.len() && s[i] == x;
            assert(t[if i < p {
                i
            } else {
                i + 1
            }] == x);
        }
        if t.contains(x) && x != c {
            let i = choose|i: int| 0 <= i < t.len() && t[i] == x;
            assert(s[if i < p {
                i
            } else {
                i - 1
            }] == x);
        }
    }
}

/// Ranking gives an ascending rearrangement.
pub proof fn lemma_ranked(s: Seq<Candidate>)
    ensures
        ascending(ranked(s)),
        ranked(s).len() == s.len(),
        ranked(s).to_multiset() == s.to_multiset(),
    decreases s.len(),
{
    broadcast use vstd::seq_lib::group_to_multiset_ensures;

    if s.len() > 0 {
        lemma_ranked(s.drop_last());
        lemma_with_candidate(ranked(s.drop_last()), s.last());
        assert(s =~= s.drop_last().push(s.last()));
        assert(s.to_multiset() =~= s.drop_last().to_multiset().insert(s.last()));
    }
}

/// Whether two sequences have the same distance at every place.
pub open spec fn same_distances(s: Seq<Candidate>, t: Seq<Candidate>) -> bool {
    &&& s.len() == t.len()
    &&& forall|i: int|
        #![trigger s[i]]
        #![trigger t[i]]
        0 <= i < s.len() ==> s[i].distance == t[i].distance
}

proof fn lemma_with_candidate_distances(
    s: Seq<Candidate>,
    t: Seq<Candidate>,
    c: Candidate,
    d: Candidate,
)
    requires
        ascending(s),
        ascending(t),
        same_distances(s, t),
        c.distance == d.distance,
        place(s, c) <= place(t, d),
    ensures
        same_distances(with_candidate(s, c), with_candidate(t, d)),
{
    lemma_place(s, c);
    lemma_place(t, d);
    let p = place(s, c);
    let q = place(t, d);
    let more_s = with_candidate(s, c);
    let more_t = with_candidate(t, d);
    assert forall|i: int| p <= i < q implies s[i].distance == c.distance && t[i].distance
        == c.distance by {
        assert(before(c, s[i]));
        assert(!before(d, t[i]));
        lemma_total_order_refines_less(c.distance, s[i].distance);
    }
    assert forall|i: int|
        #![trigger more_s[i]]
        #![trigger more_t[i]]
        0 <= i < more_s.len() implies more_s[i].distance == more_t[i].distance by {
        if i < p {
            assert(s[i].distance == t[i].distance);
        } else if i < q {
            if i > p {
                assert(s[i - 1].distance == c.distance);
            }
            assert(t[i].distance == c.distance);
        } else if i == q {
            if q > p {
                assert(s[i - 1].distance == c.distance);
            }
        } else {
            assert(s[i - 1].distance == t[i - 1].distance);
        }
    }
}

/// Candidates at the same distances are at the same distances when ranked,
/// whatever their labels.
pub proof fn lemma_ranked_distances(s: Seq<Candidate>, t: Seq<Candidate>)
    requires
        same_distances(s, t),
    ensures
        same_distances(ranked(s), ranked(t)),
    decreases s.len(),
{
    if s.len() > 0 {
        let front_s = s.drop_last();
        let front_t = t.drop_last();
        assert forall|i: int|
            #![trigger front_s[i]]
            #![trigger front_t[i]]
            0 <= i < front_s.len() implies front_s[i].distance == front_t[i].distance by {
            assert(s[i].distance == t[i].distance);
        }
        assert(s[s.len() - 1].distance == t[t.len() - 1].distance);
        lemma_ranked_distances(front_s, front_t);
        lemma_ranked(front_s);
        lemma_ranked(front_t);
        if place(ranked(front_s), s.last()) <= place(ranked(front_t), t.last()) {
            lemma_with_candidate_distances(ranked(front_s), ranked(front_t), s.last(), t.last());
        } else {
            lemma_with_candidate_distances(ranked(front_t), ranked(front_s), t.last(), s.last());
        }
    }
}

/// Two ascending rearrangements of the same candidates are equal.
pub proof fn lemma_ascending_unique(s: Seq<Candidate>, t: Seq<Candidate>)
    requires
        ascending(s),
        ascending(t),
        s.to_multiset() == t.to_multiset(),
    ensures
        s == t,
    decreases s.len(),
{
    broadcast use vstd::seq_lib::group_to_multiset_ensures;

    assert(s.len() == s.to_multiset().len());
    assert(t.len() == t.to_multiset().len());
    if s.len() == 0 {
        assert(s =~= t);
    } else {
        let a = s.last();
        let b = t.last();
        assert(s.contains(a) && t.contains(b)) by {
            assert(s[s.len() - 1] == a);
            assert(t[t.len() - 1] == b);
        }
        assert(t.to_multiset().count(a) > 0 && s.to_multiset().count(b) > 0);
        assert(t.contains(a) && s.contains(b));
        let i = choose|i: int| 0 <= i < t.len() && t[i] == a;
        let j = choose|j: int| 0 <= j < s.len() && s[j] == b;
        assert(!before(b, a)) by {
            if i < t.len() - 1 {
                assert(!before(t[t.len() - 1], t[i]));
            }
        }
        assert(!before(a, b)) by {
            if j < s.len() - 1 {
                assert(!before(s[s.len() - 1], s[j]));
            }
        }
        crate::float::lemma_total_order_refines_less(a.distance, b.distance);
        assert(a == b);
        let s1 = s.drop_last();
        let t1 = t.drop_last();
        assert(s =~= s1.push(a));
        assert(t =~= t1.push(b));
        assert(s.to_multiset() =~= s1.to_multiset().insert(a));
        assert(t.to_multiset() =~= t1.to_multiset().insert(a));
        assert(s1.to_multiset() =~= t1.to_multiset()) by {
            assert forall|x: Candidate| #[trigger]
                s1.to_multiset().count(x) == t1.to_multiset().count(x) by {
                assert(s1.to_multiset().insert(a).count(x) == t1.to_multiset().insert(a).count(x));
            }
        }
        assert(ascending(s1));
        assert(ascending(t1));
        lemma_ascending_unique(s1, t1);
    }
}

/// Whether `a` comes strictly before `b`, computed.
pub fn comes_before(a: Candidate, b: Candidate) -> (r: bool)
    ensures
        r == before(a, b),
{
    let ka: i64 = total_key_of(a.distance);
    let kb: i64 = total_key_of(b.distance);
    ka < kb || (ka == kb && a.label < b.label)
}

/// Puts a candidate in its place.
pub fn insert_candidate(v: &mut Vec<Candidate>, c: Candidate)
    requires
        ascending(old(v)@),
    ensures
        final(v)@ == with_candidate(old(v)@, c),
        ascending(final(v)@),
        final(v)@.len() == old(v)@.len() + 1,
{
    let ghost s = v@;
    let mut lo: usize = 0;
    let mut hi: usize = v.len();
    while lo < hi
        invariant
            v@ == s,
            ascending(s),
            lo <= hi <= s.len(),
            forall|i: int| 0 <= i < lo ==> !before(c, s[i]),
            forall|i: int| hi <= i < s.len() ==> before(c, s[i]),
        decreases hi - lo,
    {
        let mid: usize = lo + (hi - lo) / 2;
        if comes_before(c, v[mid]) {
            assert forall|i: int| mid <= i < s.len() implies before(c, s[i]) by {
                if i > mid {
                    assert(!before(s[i], s[mid as int]));
                }
            }
            hi = mid;
        } else {
            assert forall|i: int| 0 <= i < mid + 1 implies !before(c, s[i]) by {
                if i < mid {
                    assert(!before(s[mid as int], s[i]));
                }
            }
            lo = mid + 1;
        }
    }
    proof {
        lemma_place_is(s, c, lo as int);
        lemma_with_candidate(s, c);
    }
    v.insert(lo, c);
}

/// Puts candidates in ascending order.
pub fn rank(v: &Vec<Candidate>) -> (r: Vec<Candidate>)
    ensures
        r@ == ranked(v@),
{
    let mut r: Vec<Candidate> = Vec::new();
    let mut i: usize = 0;
    assert(v@.take(0) =~= Seq::<Candidate>::empty());
    while i < v.len()
        invariant
            i <= v@.len(),
            r@ == ranked(v@.take(i as int)),
            ascending(r@),
        decreases v@.len() - i,
    {
        insert_candidate(&mut r, v[i]);
        assert(v@.take(i as int + 1).drop_last() =~= v@.take(i as int));
        i = i + 1;
    }
    assert(v@.take(i as int) =~= v@);
    r
}

proof fn lemma_offer(s: Seq<Candidate>, c: Candidate, cap: int)
    requires
        ascending(s),
        cap > 0,
    ensures
        ascending(first(s, cap)),
        first(with_candidate(s, c), cap) == if s.len() < cap {
            with_candidate(s, c)
        } else if before(c, s[cap - 1]) {
            with_candidate(s.take(cap - 1), c)
        } else {
            s.take(cap)
        },
{
    lemma_place(s, c);
    lemma_with_candidate(s, c);
    let p = place(s, c);
    if s.len() >= cap {
        if before(c, s[cap - 1]) {
            let t = s.take(cap - 1);
            lemma_place_is(t, c, p);
            assert(s.insert(p, c).take(cap) =~= t.insert(p, c));
        } else {
            assert(s.insert(p, c).take(cap) =~= s.take(cap));
        }
    }
}

/// Offers a candidate to the `cap` closest of those seen so far.
pub(crate) fn offer(
    best: &mut Vec<Candidate>,
    cap: usize,
    c: Candidate,
    Ghost(seen): Ghost<Seq<Candidate>>,
)
    requires
        cap > 0,
        old(best)@ == first(ranked(seen), cap as int),
    ensures
        final(best)@ == first(ranked(seen.push(c)), cap as int),
{
    let ghost all = ranked(seen);
    proof {
        lemma_ranked(seen);
        lemma_offer(all, c, cap as int);
        assert(seen.push(c).drop_last() =~= seen);
    }
    if best.len() < cap {
        insert_candidate(best, c);
    } else if comes_before(c, best[cap - 1]) {
        best.pop();
        assert(best@ =~= all.take(cap - 1));
        insert_candidate(best, c);
    }
}

} // verus!
