//! What the distance metrics promise.
use crate::distance::{
    lane_sum, lanes_total, summed, summed_to, DistanceMetric, Term, LANES,
};
use crate::float::{negated, single, Arith, FloatOp, ZERO};
use vstd::arithmetic::div_mod::{lemma_add_mod_noop, lemma_mul_mod_noop};
use vstd::prelude::*;

verus! {

/// The number of patterns of a single.
pub open spec fn patterns() -> int {
    0x1_0000_0000
}

/// Whether the arithmetic adds, subtracts and multiplies patterns as integers,
/// up to a multiple of their number. Whatever the order of the operations,
/// sums then come to the same; roots and quotients are left open.
pub open spec fn modular(ar: Arith) -> bool {
    forall|a: u32, b: u32|
        #![trigger single(ar, FloatOp::Add, a, b)]
        #![trigger single(ar, FloatOp::Sub, a, b)]
        #![trigger single(ar, FloatOp::Mul, a, b)]
        {
            &&& single(ar, FloatOp::Add, a, b) == (a + b) % patterns()
            &&& single(ar, FloatOp::Sub, a, b) == (a - b) % patterns()
            &&& single(ar, FloatOp::Mul, a, b) == (a * b) % patterns()
        }
}

/// The sum of the products of the first `n` coordinates.
pub open spec fn products(a: Seq<u32>, b: Seq<u32>, n: nat) -> int
    decreases n,
{
    if n == 0 {
        0
    } else {
        products(a, b, (n - 1) as nat) + a[n - 1] * b[n - 1]
    }
}

/// The sum of the squares of the differences of the first `n` coordinates.
pub open spec fn squared_differences(a: Seq<u32>, b: Seq<u32>, n: nat) -> int
    decreases n,
{
    if n == 0 {
        0
    } else {
        squared_differences(a, b, (n - 1) as nat) + (a[n - 1] - b[n - 1]) * (a[n - 1] - b[n - 1])
    }
}

/// What a term comes to as an integer.
spec fn worth(term: Term, x: u32, y: u32) -> int {
    match term {
        Term::Product => x * y,
        Term::SquaredDifference => (x - y) * (x - y),
        Term::LeftSquare => x * x,
        Term::RightSquare => y * y,
    }
}

/// The sum of every `step`-th term from a place on.
spec fn strided(term: Term, a: Seq<u32>, b: Seq<u32>, from: int, step: int, n: nat) -> int
    decreases n,
{
    if n == 0 {
        0
    } else {
        strided(term, a, b, from, step, (n - 1) as nat) + worth(
            term,
            a[from + step * (n - 1)],
            b[from + step * (n - 1)],
        )
    }
}

/// The sum over the first lanes of what each has summed in some rounds.
spec fn lanes_worth(term: Term, a: Seq<u32>, b: Seq<u32>, lanes: nat, rounds: nat) -> int
    decreases lanes,
{
    if lanes == 0 {
        0
    } else {
        lanes_worth(term, a, b, (lanes - 1) as nat, rounds) + strided(
            term,
            a,
            b,
            lanes - 1,
            LANES as int,
            rounds,
        )
    }
}

proof fn lemma_term(ar: Arith, term: Term, x: u32, y: u32)
    requires
        modular(ar),
    ensures
        term.of(ar, x, y) == worth(term, x, y) % patterns(),
{
    match term {
        Term::SquaredDifference => {
            let d = single(ar, FloatOp::Sub, x, y);
            lemma_mul_mod_noop(x - y, x - y, patterns());
            assert(d == (x - y) % patterns());
        },
        _ => {},
    }
}

proof fn lemma_add(ar: Arith, x: u32, s: int, y: u32, t: int)
    requires
        modular(ar),
        x == s % patterns(),
        y == t % patterns(),
    ensures
        single(ar, FloatOp::Add, x, y) == (s + t) % patterns(),
{
    lemma_add_mod_noop(s, t, patterns());
}

proof fn lemma_lane(
    ar: Arith,
    term: Term,
    a: Seq<u32>,
    b: Seq<u32>,
    lane: int,
    rounds: nat,
)
    requires
        modular(ar),
    ensures
        lane_sum(ar, term, a, b, lane, rounds) == strided(
            term,
            a,
            b,
            lane,
            LANES as int,
            rounds,
        ) % patterns(),
    decreases rounds,
{
    if rounds > 0 {
        let i = LANES * (rounds - 1) + lane;
        lemma_lane(ar, term, a, b, lane, (rounds - 1) as nat);
        lemma_term(ar, term, a[i], b[i]);
        assert(lane + LANES as int * (rounds - 1) == i);
        lemma_add(
            ar,
            lane_sum(ar, term, a, b, lane, (rounds - 1) as nat),
            strided(term, a, b, lane, LANES as int, (rounds - 1) as nat),
            term.of(ar, a[i], b[i]),
            worth(term, a[i], b[i]),
        );
    }
}

proof fn lemma_lanes(ar: Arith, term: Term, a: Seq<u32>, b: Seq<u32>, lanes: nat)
    requires
        modular(ar),
    ensures
        lanes_total(ar, term, a, b, lanes) == lanes_worth(
            term,
            a,
            b,
            lanes,
            a.len() / LANES as nat,
        ) % patterns(),
    decreases lanes,
{
    if lanes > 0 {
        let rounds = a.len() / LANES as nat;
        lemma_lanes(ar, term, a, b, (lanes - 1) as nat);
        lemma_lane(ar, term, a, b, lanes - 1, rounds);
        lemma_add(
            ar,
            lanes_total(ar, term, a, b, (lanes - 1) as nat),
            lanes_worth(term, a, b, (lanes - 1) as nat, rounds),
            lane_sum(ar, term, a, b, lanes - 1, rounds),
            strided(term, a, b, lanes - 1, LANES as int, rounds),
        );
    }
}

/// One more round adds one more term to every lane.
proof fn lemma_one_more_round(
    term: Term,
    a: Seq<u32>,
    b: Seq<u32>,
    lanes: nat,
    rounds: nat,
)
    ensures
        lanes_worth(term, a, b, lanes, rounds + 1) == lanes_worth(term, a, b, lanes, rounds)
            + strided(term, a, b, LANES as int * rounds, 1, lanes),
    decreases lanes,
{
    if lanes > 0 {
        lemma_one_more_round(term, a, b, (lanes - 1) as nat, rounds);
        assert((lanes - 1) + LANES as int * rounds == LANES as int * rounds + 1 * (lanes - 1));
    }
}

proof fn lemma_no_rounds(term: Term, a: Seq<u32>, b: Seq<u32>, lanes: nat)
    ensures
        lanes_worth(term, a, b, lanes, 0) == 0,
    decreases lanes,
{
    if lanes > 0 {
        lemma_no_rounds(term, a, b, (lanes - 1) as nat);
    }
}

proof fn lemma_joined(term: Term, a: Seq<u32>, b: Seq<u32>, n: nat, m: nat)
    ensures
        strided(term, a, b, 0, 1, n + m) == strided(term, a, b, 0, 1, n) + strided(
            term,
            a,
            b,
            n as int,
            1,
            m,
        ),
    decreases m,
{
    if m > 0 {
        lemma_joined(term, a, b, n, (m - 1) as nat);
        assert(0 + 1 * (n + m - 1) == n + 1 * (m - 1));
    }
}

/// All lanes together have summed every term once.
proof fn lemma_rounds(term: Term, a: Seq<u32>, b: Seq<u32>, rounds: nat)
    ensures
        lanes_worth(term, a, b, LANES as nat, rounds) == strided(
            term,
            a,
            b,
            0,
            1,
            LANES as nat * rounds,
        ),
    decreases rounds,
{
    if rounds == 0 {
        lemma_no_rounds(term, a, b, LANES as nat);
    } else {
        let before = (rounds - 1) as nat;
        lemma_rounds(term, a, b, before);
        lemma_one_more_round(term, a, b, LANES as nat, before);
        lemma_joined(term, a, b, LANES as nat * before, LANES as nat);
        assert(LANES as nat * before + LANES as nat == LANES as nat * rounds) by (nonlinear_arith)
            requires
                before + 1 == rounds,
        ;
    }
}

proof fn lemma_summed_to(ar: Arith, term: Term, a: Seq<u32>, b: Seq<u32>, upto: int)
    requires
        modular(ar),
        a.len() - a.len() % LANES as nat <= upto <= a.len(),
    ensures
        summed_to(ar, term, a, b, upto) == strided(term, a, b, 0, 1, upto as nat) % patterns(),
    decreases upto,
{
    let even = a.len() - a.len() % LANES as nat;
    if upto <= even {
        lemma_lanes(ar, term, a, b, LANES as nat);
        lemma_rounds(term, a, b, a.len() / LANES as nat);
        assert(LANES as nat * (a.len() / LANES as nat) == even);
    } else {
        lemma_summed_to(ar, term, a, b, upto - 1);
        lemma_term(ar, term, a[upto - 1], b[upto - 1]);
        lemma_add(
            ar,
            summed_to(ar, term, a, b, upto - 1),
            strided(term, a, b, 0, 1, (upto - 1) as nat),
            term.of(ar, a[upto - 1], b[upto - 1]),
            worth(term, a[upto - 1], b[upto - 1]),
        );
    }
}

proof fn lemma_worths(a: Seq<u32>, b: Seq<u32>, n: nat)
    ensures
        strided(Term::Product, a, b, 0, 1, n) == products(a, b, n),
        strided(Term::SquaredDifference, a, b, 0, 1, n) == squared_differences(a, b, n),
        strided(Term::LeftSquare, a, b, 0, 1, n) == products(a, a, n),
        strided(Term::RightSquare, a, b, 0, 1, n) == products(b, b, n),
    decreases n,
{
    if n > 0 {
        lemma_worths(a, b, (n - 1) as nat);
    }
}

proof fn lemma_summed(ar: Arith, a: Seq<u32>, b: Seq<u32>)
    requires
        modular(ar),
    ensures
        summed(ar, Term::Product, a, b) == products(a, b, a.len()) % patterns(),
        summed(ar, Term::SquaredDifference, a, b) == squared_differences(a, b, a.len())
            % patterns(),
        summed(ar, Term::LeftSquare, a, b) == products(a, a, a.len()) % patterns(),
        summed(ar, Term::RightSquare, a, b) == products(b, b, a.len()) % patterns(),
{
    lemma_summed_to(ar, Term::Product, a, b, a.len() as int);
    lemma_summed_to(ar, Term::SquaredDifference, a, b, a.len() as int);
    lemma_summed_to(ar, Term::LeftSquare, a, b, a.len() as int);
    lemma_summed_to(ar, Term::RightSquare, a, b, a.len() as int);
    lemma_worths(a, b, a.len());
}

/// The dot distance is the sum of the products of all coordinates, each once,
/// with its sign turned.
pub proof fn law_dot_sums_the_products(ar: Arith, a: Seq<u32>, b: Seq<u32>)
    requires
        modular(ar),
        a.len() == b.len(),
    ensures
        ({
            let dot = products(a, b, a.len()) % patterns();
            DistanceMetric::Dot.between(ar, a, b) == if dot < 0x8000_0000 {
                dot + 0x8000_0000
            } else {
                dot - 0x8000_0000
            }
        }),
{
    lemma_summed(ar, a, b);
}

/// The Euclidean distance is the root of the sum of the squared differences of
/// all coordinates, each once.
pub proof fn law_l2_is_the_root_of_squared_differences(ar: Arith, a: Seq<u32>, b: Seq<u32>)
    requires
        modular(ar),
        a.len() == b.len(),
    ensures
        DistanceMetric::L2.between(ar, a, b) == single(
            ar,
            FloatOp::Sqrt,
            (squared_differences(a, b, a.len()) % patterns()) as u32,
            0,
        ),
{
    lemma_summed(ar, a, b);
}

/// The cosine distance is one less the dot product over the product of the
/// roots of both squared norms; it is one where that product is zero.
pub proof fn law_cosine_divides_by_both_norms(ar: Arith, a: Seq<u32>, b: Seq<u32>)
    requires
        modular(ar),
        a.len() == b.len(),
    ensures
        ({
            let dot = (products(a, b, a.len()) % patterns()) as u32;
            let norms = single(
                ar,
                FloatOp::Mul,
                single(ar, FloatOp::Sqrt, (products(a, a, a.len()) % patterns()) as u32, 0),
                single(ar, FloatOp::Sqrt, (products(b, b, b.len()) % patterns()) as u32, 0),
            );
            DistanceMetric::Cosine.between(ar, a, b) == if norms == 0 || norms == 0x8000_0000 {
                0x3f80_0000u32
            } else {
                single(ar, FloatOp::Sub, 0x3f80_0000u32, single(ar, FloatOp::Div, dot, norms))
            }
        }),
{
    lemma_summed(ar, a, b);
}

// ---------------------------------------------------------------------------
// Whatever the arithmetic
// ---------------------------------------------------------------------------

/// Whether factors may change places, and the sign of a difference does not
/// matter to its square.
pub open spec fn even_handed(ar: Arith) -> bool {
    forall|x: u32, y: u32|
        #![trigger single(ar, FloatOp::Mul, x, y)]
        #![trigger single(ar, FloatOp::Sub, x, y)]
        {
            let there = single(ar, FloatOp::Sub, x, y);
            let back = single(ar, FloatOp::Sub, y, x);
            &&& single(ar, FloatOp::Mul, x, y) == single(ar, FloatOp::Mul, y, x)
            &&& single(ar, FloatOp::Mul, there, there) == single(ar, FloatOp::Mul, back, back)
        }
}

/// The term that a term becomes when its factors change places.
spec fn mirrored(term: Term) -> Term {
    match term {
        Term::LeftSquare => Term::RightSquare,
        Term::RightSquare => Term::LeftSquare,
        _ => term,
    }
}

proof fn lemma_mirrored_lane(
    ar: Arith,
    term: Term,
    a: Seq<u32>,
    b: Seq<u32>,
    lane: int,
    rounds: nat,
)
    requires
        even_handed(ar),
    ensures
        lane_sum(ar, term, a, b, lane, rounds) == lane_sum(
            ar,
            mirrored(term),
            b,
            a,
            lane,
            rounds,
        ),
    decreases rounds,
{
    if rounds > 0 {
        lemma_mirrored_lane(ar, term, a, b, lane, (rounds - 1) as nat);
        let i = LANES * (rounds - 1) + lane;
        assert(term.of(ar, a[i], b[i]) == mirrored(term).of(ar, b[i], a[i]));
    }
}

proof fn lemma_mirrored_lanes(ar: Arith, term: Term, a: Seq<u32>, b: Seq<u32>, lanes: nat)
    requires
        even_handed(ar),
        a.len() == b.len(),
    ensures
        lanes_total(ar, term, a, b, lanes) == lanes_total(ar, mirrored(term), b, a, lanes),
    decreases lanes,
{
    if lanes > 0 {
        lemma_mirrored_lanes(ar, term, a, b, (lanes - 1) as nat);
        lemma_mirrored_lane(ar, term, a, b, lanes - 1, a.len() / LANES as nat);
    }
}

proof fn lemma_mirrored(ar: Arith, term: Term, a: Seq<u32>, b: Seq<u32>, upto: int)
    requires
        even_handed(ar),
        a.len() == b.len(),
    ensures
        summed_to(ar, term, a, b, upto) == summed_to(ar, mirrored(term), b, a, upto),
    decreases upto,
{
    if upto <= a.len() - a.len() % LANES as nat {
        lemma_mirrored_lanes(ar, term, a, b, LANES as nat);
    } else {
        lemma_mirrored(ar, term, a, b, upto - 1);
        assert(term.of(ar, a[upto - 1], b[upto - 1]) == mirrored(term).of(
            ar,
            b[upto - 1],
            a[upto - 1],
        ));
    }
}

/// A distance is the same both ways.
pub proof fn law_distance_is_symmetric(
    metric: DistanceMetric,
    ar: Arith,
    a: Seq<u32>,
    b: Seq<u32>,
)
    requires
        even_handed(ar),
        a.len() == b.len(),
    ensures
        metric.between(ar, a, b) == metric.between(ar, b, a),
{
    lemma_mirrored(ar, Term::Product, a, b, a.len() as int);
    lemma_mirrored(ar, Term::SquaredDifference, a, b, a.len() as int);
    lemma_mirrored(ar, Term::LeftSquare, a, b, a.len() as int);
    lemma_mirrored(ar, Term::RightSquare, a, b, a.len() as int);
}

/// Vectors without coordinates are at the distance of an empty sum.
pub proof fn law_empty_vectors(ar: Arith)
    requires
        single(ar, FloatOp::Add, ZERO, ZERO) == ZERO,
    ensures
        DistanceMetric::Dot.between(ar, seq![], seq![]) == negated(0),
        DistanceMetric::L2.between(ar, seq![], seq![]) == single(ar, FloatOp::Sqrt, 0, 0),
{
    assert forall|term: Term| #[trigger] summed(ar, term, seq![], seq![]) == ZERO by {
        lemma_empty_lanes(ar, term, LANES as nat);
    }
}

proof fn lemma_empty_lanes(ar: Arith, term: Term, lanes: nat)
    requires
        single(ar, FloatOp::Add, ZERO, ZERO) == ZERO,
    ensures
        lanes_total(ar, term, seq![], seq![], lanes) == ZERO,
    decreases lanes,
{
    if lanes > 0 {
        lemma_empty_lanes(ar, term, (lanes - 1) as nat);
    }
}

// ---------------------------------------------------------------------------
// The order of the operations
// ---------------------------------------------------------------------------

proof fn lemma_same_lane(
    ar: Arith,
    term: Term,
    a: Seq<u32>,
    b: Seq<u32>,
    more_a: Seq<u32>,
    more_b: Seq<u32>,
    lane: int,
    rounds: nat,
)
    requires
        a.len() == b.len(),
        0 <= lane < 8,
        8 * rounds <= a.len(),
        a.len() <= more_a.len(),
        a.len() <= more_b.len(),
        forall|i: int| 0 <= i < a.len() ==> #[trigger] more_a[i] == a[i],
        forall|i: int| 0 <= i < a.len() ==> #[trigger] more_b[i] == b[i],
    ensures
        lane_sum(ar, term, more_a, more_b, lane, rounds) == lane_sum(ar, term, a, b, lane, rounds),
    decreases rounds,
{
    if rounds > 0 {
        lemma_same_lane(ar, term, a, b, more_a, more_b, lane, (rounds - 1) as nat);
        let i = 8 * (rounds - 1) + lane;
        assert(more_a[i] == a[i] && more_b[i] == b[i]);
    }
}

proof fn lemma_same_lanes(
    ar: Arith,
    term: Term,
    a: Seq<u32>,
    b: Seq<u32>,
    more_a: Seq<u32>,
    more_b: Seq<u32>,
    lanes: nat,
)
    requires
        a.len() == b.len(),
        lanes <= 8,
        a.len() <= more_a.len(),
        more_a.len() == more_b.len(),
        more_a.len() / 8 == a.len() / 8,
        forall|i: int| 0 <= i < a.len() ==> #[trigger] more_a[i] == a[i],
        forall|i: int| 0 <= i < a.len() ==> #[trigger] more_b[i] == b[i],
    ensures
        lanes_total(ar, term, more_a, more_b, lanes) == lanes_total(ar, term, a, b, lanes),
    decreases lanes,
{
    if lanes > 0 {
        lemma_same_lanes(ar, term, a, b, more_a, more_b, (lanes - 1) as nat);
        lemma_same_lane(ar, term, a, b, more_a, more_b, lanes - 1, a.len() / 8);
    }
}

proof fn lemma_same_sum(
    ar: Arith,
    term: Term,
    a: Seq<u32>,
    b: Seq<u32>,
    more_a: Seq<u32>,
    more_b: Seq<u32>,
    upto: int,
)
    requires
        a.len() == b.len(),
        upto <= a.len() <= more_a.len(),
        more_a.len() == more_b.len(),
        more_a.len() / 8 == a.len() / 8,
        forall|i: int| 0 <= i < a.len() ==> #[trigger] more_a[i] == a[i],
        forall|i: int| 0 <= i < a.len() ==> #[trigger] more_b[i] == b[i],
    ensures
        summed_to(ar, term, more_a, more_b, upto) == summed_to(ar, term, a, b, upto),
    decreases upto,
{
    assert(more_a.len() - more_a.len() % 8 == a.len() - a.len() % 8);
    if upto <= a.len() - a.len() % 8 {
        lemma_same_lanes(ar, term, a, b, more_a, more_b, 8);
    } else {
        lemma_same_sum(ar, term, a, b, more_a, more_b, upto - 1);
        assert(more_a[upto - 1] == a[upto - 1] && more_b[upto - 1] == b[upto - 1]);
    }
}

/// Coordinates that do not complete a chunk of eight are added one by one, in
/// their order, behind everything else.
pub proof fn law_last_coordinates_are_added_in_turn(
    ar: Arith,
    term: Term,
    a: Seq<u32>,
    b: Seq<u32>,
    x: u32,
    y: u32,
)
    requires
        a.len() == b.len(),
        a.len() % 8 != 7,
    ensures
        summed(ar, term, a.push(x), b.push(y)) == single(
            ar,
            FloatOp::Add,
            summed(ar, term, a, b),
            term.of(ar, x, y),
        ),
{
    let more_a = a.push(x);
    let more_b = b.push(y);
    assert(more_a.len() / 8 == a.len() / 8);
    lemma_same_sum(ar, term, a, b, more_a, more_b, a.len() as int);
    assert(more_a[a.len() as int] == x && more_b[a.len() as int] == y);
}

/// Whether eight running sums are those of two vectors, chunk by chunk: they
/// start at zero, and each chunk adds its first coordinate to the first of
/// them, its second to the second, and so on.
pub open spec fn runs_in_lanes(
    ar: Arith,
    term: Term,
    a: Seq<u32>,
    b: Seq<u32>,
    sums: Seq<Seq<u32>>,
) -> bool {
    &&& sums.len() == a.len() / 8 + 1
    &&& forall|l: int| 0 <= l < 8 ==> (#[trigger] sums[0][l]) == 0
    &&& forall|r: int, l: int|
        #![trigger sums[r][l]]
        0 < r < sums.len() && 0 <= l < 8 ==> sums[r][l] == single(
            ar,
            FloatOp::Add,
            sums[r - 1][l],
            term.of(ar, a[8 * (r - 1) + l], b[8 * (r - 1) + l]),
        )
}

/// Of vectors that are whole chunks of eight coordinates, eight sums are kept
/// side by side and added up at the end, the first of them first.
pub proof fn law_chunks_are_summed_in_eight_lanes(
    ar: Arith,
    term: Term,
    a: Seq<u32>,
    b: Seq<u32>,
    sums: Seq<Seq<u32>>,
)
    requires
        a.len() == b.len(),
        a.len() % 8 == 0,
        runs_in_lanes(ar, term, a, b, sums),
    ensures
        ({
            let s = sums[a.len() as int / 8];
            let s0 = single(ar, FloatOp::Add, 0, s[0]);
            let s1 = single(ar, FloatOp::Add, s0, s[1]);
            let s2 = single(ar, FloatOp::Add, s1, s[2]);
            let s3 = single(ar, FloatOp::Add, s2, s[3]);
            let s4 = single(ar, FloatOp::Add, s3, s[4]);
            let s5 = single(ar, FloatOp::Add, s4, s[5]);
            let s6 = single(ar, FloatOp::Add, s5, s[6]);
            summed(ar, term, a, b) == single(ar, FloatOp::Add, s6, s[7])
        }),
{
    let rounds = a.len() / 8;
    assert forall|l: int| 0 <= l < 8 implies lane_sum(ar, term, a, b, l, rounds)
        == #[trigger] sums[rounds as int][l] by {
        lemma_lane_runs(ar, term, a, b, sums, l, rounds);
    }
    reveal_with_fuel(lanes_total, 9);
    reveal_with_fuel(summed_to, 2);
}

proof fn lemma_lane_runs(
    ar: Arith,
    term: Term,
    a: Seq<u32>,
    b: Seq<u32>,
    sums: Seq<Seq<u32>>,
    lane: int,
    rounds: nat,
)
    requires
        runs_in_lanes(ar, term, a, b, sums),
        0 <= lane < 8,
        rounds < sums.len(),
    ensures
        lane_sum(ar, term, a, b, lane, rounds) == sums[rounds as int][lane],
    decreases rounds,
{
    if rounds > 0 {
        lemma_lane_runs(ar, term, a, b, sums, lane, (rounds - 1) as nat);
    } else {
        assert(sums[0][lane] == 0);
    }
}

} // verus!
