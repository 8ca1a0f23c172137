//! Distance metrics. Smaller is more similar for every metric.
use crate::error::{Result, VexError};
use crate::float::{
    arith_of, is_arithmetic, negate, negated, single, single_op, value_key, Arith, FloatOp, ONE,
    ZERO,
};
use crate::text::{joined, lower, same_text};
use vstd::prelude::*;
use vstd::string::StringExecFns;

verus! {

/// How far apart two vectors are: cosine distance `1 - cos`, Euclidean
/// distance, or the negated dot product.
#[derive(Clone, Copy, Debug, PartialEq, Eq, Structural)]
pub enum DistanceMetric {
    Cosine,
    L2,
    Dot,
}

/// Independent partial sums that a kernel keeps.
pub const LANES: usize = 8;

/// The summand that a kernel forms of two coordinates.
#[derive(Clone, Copy, Debug, PartialEq, Eq, Structural)]
pub enum Term {
    Product,
    SquaredDifference,
    LeftSquare,
    RightSquare,
}

impl Term {
    /// The summand of the coordinates `x` and `y`.
    pub open spec fn of(self, ar: Arith, x: u32, y: u32) -> u32 {
        match self {
            Term::Product => single(ar, FloatOp::Mul, x, y),
            Term::SquaredDifference => {
                let d = single(ar, FloatOp::Sub, x, y);
                single(ar, FloatOp::Mul, d, d)
            },
            Term::LeftSquare => single(ar, FloatOp::Mul, x, x),
            Term::RightSquare => single(ar, FloatOp::Mul, y, y),
        }
    }

    fn compute<F: Fn(FloatOp, u64, u64) -> u64>(self, fpu: &F, x: u32, y: u32) -> (r: u32)
        requires
            is_arithmetic(*fpu),
        ensures
            r == self.of(arith_of(*fpu), x, y),
    {
        match self {
            Term::Product => single_op(fpu, FloatOp::Mul, x, y),
            Term::SquaredDifference => {
                let d: u32 = single_op(fpu, FloatOp::Sub, x, y);
                single_op(fpu, FloatOp::Mul, d, d)
            },
            Term::LeftSquare => single_op(fpu, FloatOp::Mul, x, x),
            Term::RightSquare => single_op(fpu, FloatOp::Mul, y, y),
        }
    }
}

/// Lane `lane` after `rounds` chunks: the running sum of the summands at
/// `lane`, `lane + 8`, `lane + 16`, ...
pub open spec fn lane_sum(
    ar: Arith,
    term: Term,
    a: Seq<u32>,
    b: Seq<u32>,
    lane: int,
    rounds: nat,
) -> u32
    decreases rounds,
{
    if rounds == 0 {
        ZERO
    } else {
        let i = LANES * (rounds - 1) + lane;
        single(
            ar,
            FloatOp::Add,
            lane_sum(ar, term, a, b, lane, (rounds - 1) as nat),
            term.of(ar, a[i], b[i]),
        )
    }
}

/// The first `lanes` lanes added up, from lane 0 on.
pub open spec fn lanes_total(
    ar: Arith,
    term: Term,
    a: Seq<u32>,
    b: Seq<u32>,
    lanes: nat,
) -> u32
    decreases lanes,
{
    if lanes == 0 {
        ZERO
    } else {
        single(
            ar,
            FloatOp::Add,
            lanes_total(ar, term, a, b, (lanes - 1) as nat),
            lane_sum(ar, term, a, b, lanes - 1, a.len() / LANES as nat),
        )
    }
}

/// The sum over the first `upto` coordinates: the lanes over the whole chunks,
/// then the coordinates that fill no chunk, one by one.
pub open spec fn summed_to(
    ar: Arith,
    term: Term,
    a: Seq<u32>,
    b: Seq<u32>,
    upto: int,
) -> u32
    decreases upto,
{
    if upto <= a.len() - a.len() % LANES as nat {
        lanes_total(ar, term, a, b, LANES as nat)
    } else {
        single(
            ar,
            FloatOp::Add,
            summed_to(ar, term, a, b, upto - 1),
            term.of(ar, a[upto - 1], b[upto - 1]),
        )
    }
}

/// The sum of a summand over all coordinates, in the kernels' order.
pub open spec fn summed(ar: Arith, term: Term, a: Seq<u32>, b: Seq<u32>) -> u32 {
    summed_to(ar, term, a, b, a.len() as int)
}

/// Cosine distance from a dot product and two squared norms; a zero vector is
/// at distance 1.
pub open spec fn cosine_of_terms(ar: Arith, dot_ab: u32, norm_a: u32, norm_b: u32) -> u32 {
    let denom = single(
        ar,
        FloatOp::Mul,
        single(ar, FloatOp::Sqrt, norm_a, 0),
        single(ar, FloatOp::Sqrt, norm_b, 0),
    );
    if value_key(denom) == 0 {
        ONE
    } else {
        single(ar, FloatOp::Sub, ONE, single(ar, FloatOp::Div, dot_ab, denom))
    }
}

/// One kernel: the sum of a summand over two runs of coordinates.
fn lane_kernel<F: Fn(FloatOp, u64, u64) -> u64>(
    fpu: &F,
    term: Term,
    a: &[u32],
    b: &[u32],
) -> (r: u32)
    requires
        is_arithmetic(*fpu),
        a@.len() == b@.len(),
    ensures
        r == summed(arith_of(*fpu), term, a@, b@),
{
    let ghost ar = arith_of(*fpu);
    let n: usize = a.len();
    let rounds: usize = n / LANES;
    let mut total: u32 = ZERO;
    let mut lane: usize = 0;
    while lane < LANES
        invariant
            is_arithmetic(*fpu),
            ar == arith_of(*fpu),
            a@.len() == b@.len(),
            n == a@.len(),
            rounds == n / LANES,
            lane <= LANES,
            total == lanes_total(ar, term, a@, b@, lane as nat),
        decreases LANES - lane,
    {
        let mut acc: u32 = ZERO;
        let mut round: usize = 0;
        while round < rounds
            invariant
                is_arithmetic(*fpu),
                ar == arith_of(*fpu),
                a@.len() == b@.len(),
                n == a@.len(),
                rounds == n / LANES,
                lane < LANES,
                round <= rounds,
                acc == lane_sum(ar, term, a@, b@, lane as int, round as nat),
            decreases rounds - round,
        {
            let i: usize = LANES * round + lane;
            let t: u32 = term.compute(fpu, a[i], b[i]);
            acc = single_op(fpu, FloatOp::Add, acc, t);
            round = round + 1;
        }
        total = single_op(fpu, FloatOp::Add, total, acc);
        lane = lane + 1;
    }
    let mut i: usize = n - n % LANES;
    while i < n
        invariant
            is_arithmetic(*fpu),
            ar == arith_of(*fpu),
            a@.len() == b@.len(),
            n == a@.len(),
            n - n % LANES <= i <= n,
            total == summed_to(ar, term, a@, b@, i as int),
        decreases n - i,
    {
        let t: u32 = term.compute(fpu, a[i], b[i]);
        total = single_op(fpu, FloatOp::Add, total, t);
        i = i + 1;
    }
    total
}

/// The dot product.
pub fn dot_scalar<F: Fn(FloatOp, u64, u64) -> u64>(fpu: &F, a: &[u32], b: &[u32]) -> (r: u32)
    requires
        is_arithmetic(*fpu),
        a@.len() == b@.len(),
    ensures
        r == summed(arith_of(*fpu), Term::Product, a@, b@),
{
    lane_kernel(fpu, Term::Product, a, b)
}

/// The squared Euclidean distance.
pub fn l2_sq_scalar<F: Fn(FloatOp, u64, u64) -> u64>(fpu: &F, a: &[u32], b: &[u32]) -> (r: u32)
    requires
        is_arithmetic(*fpu),
        a@.len() == b@.len(),
    ensures
        r == summed(arith_of(*fpu), Term::SquaredDifference, a@, b@),
{
    lane_kernel(fpu, Term::SquaredDifference, a, b)
}

/// The dot product and the two squared norms.
pub fn cosine_terms_scalar<F: Fn(FloatOp, u64, u64) -> u64>(
    fpu: &F,
    a: &[u32],
    b: &[u32],
) -> (r: (u32, u32, u32))
    requires
        is_arithmetic(*fpu),
        a@.len() == b@.len(),
    ensures
        r.0 == summed(arith_of(*fpu), Term::Product, a@, b@),
        r.1 == summed(arith_of(*fpu), Term::LeftSquare, a@, b@),
        r.2 == summed(arith_of(*fpu), Term::RightSquare, a@, b@),
{
    let dot_ab: u32 = lane_kernel(fpu, Term::Product, a, b);
    let norm_a: u32 = lane_kernel(fpu, Term::LeftSquare, a, b);
    let norm_b: u32 = lane_kernel(fpu, Term::RightSquare, a, b);
    (dot_ab, norm_a, norm_b)
}

/// Cosine distance from its terms.
pub fn cosine_from_terms<F: Fn(FloatOp, u64, u64) -> u64>(
    fpu: &F,
    dot_ab: u32,
    norm_a: u32,
    norm_b: u32,
) -> (r: u32)
    requires
        is_arithmetic(*fpu),
    ensures
        r == cosine_of_terms(arith_of(*fpu), dot_ab, norm_a, norm_b),
{
    let root_a: u32 = single_op(fpu, FloatOp::Sqrt, norm_a, 0);
    let root_b: u32 = single_op(fpu, FloatOp::Sqrt, norm_b, 0);
    let denom: u32 = single_op(fpu, FloatOp::Mul, root_a, root_b);
    if denom == 0 || denom == 0x8000_0000 {
        return ONE;
    }
    let cosine: u32 = single_op(fpu, FloatOp::Div, dot_ab, denom);
    single_op(fpu, FloatOp::Sub, ONE, cosine)
}

impl DistanceMetric {
    /// The distance between two vectors of one length.
    pub open spec fn between(self, ar: Arith, a: Seq<u32>, b: Seq<u32>) -> u32 {
        match self {
            DistanceMetric::L2 => single(
                ar,
                FloatOp::Sqrt,
                summed(ar, Term::SquaredDifference, a, b),
                0,
            ),
            DistanceMetric::Cosine => cosine_of_terms(
                ar,
                summed(ar, Term::Product, a, b),
                summed(ar, Term::LeftSquare, a, b),
                summed(ar, Term::RightSquare, a, b),
            ),
            DistanceMetric::Dot => negated(summed(ar, Term::Product, a, b)),
        }
    }

    /// Computes the distance between two vectors; refuses vectors of two
    /// lengths.
    pub fn distance<F: Fn(FloatOp, u64, u64) -> u64>(
        self,
        fpu: &F,
        a: &[u32],
        b: &[u32],
    ) -> (r: Result<u32>)
        requires
            is_arithmetic(*fpu),
        ensures
            r == if a@.len() == b@.len() {
                Ok::<u32, VexError>(self.between(arith_of(*fpu), a@, b@))
            } else {
                Err(
                    VexError::DimensionMismatch {
                        expected: a@.len() as usize,
                        actual: b@.len() as usize,
                    },
                )
            },
    {
        if a.len() != b.len() {
            return Err(VexError::DimensionMismatch { expected: a.len(), actual: b.len() });
        }
        Ok(self.measure(fpu, a, b))
    }

    /// The distance between two vectors known to have one length.
    pub fn measure<F: Fn(FloatOp, u64, u64) -> u64>(
        self,
        fpu: &F,
        a: &[u32],
        b: &[u32],
    ) -> (r: u32)
        requires
            is_arithmetic(*fpu),
            a@.len() == b@.len(),
        ensures
            r == self.between(arith_of(*fpu), a@, b@),
    {
        match self {
            DistanceMetric::L2 => {
                let sq: u32 = l2_sq_scalar(fpu, a, b);
                single_op(fpu, FloatOp::Sqrt, sq, 0)
            },
            DistanceMetric::Cosine => {
                let (dot_ab, norm_a, norm_b): (u32, u32, u32) = cosine_terms_scalar(fpu, a, b);
                cosine_from_terms(fpu, dot_ab, norm_a, norm_b)
            },
            DistanceMetric::Dot => negate(dot_scalar(fpu, a, b)),
        }
    }

    /// The byte that stands for the metric in a snapshot.
    pub open spec fn tag(self) -> u8 {
        match self {
            DistanceMetric::Cosine => 0,
            DistanceMetric::L2 => 1,
            DistanceMetric::Dot => 2,
        }
    }

    /// The byte that stands for the metric in a snapshot.
    pub fn to_tag(self) -> (r: u8)
        ensures
            r == self.tag(),
    {
        match self {
            DistanceMetric::Cosine => 0,
            DistanceMetric::L2 => 1,
            DistanceMetric::Dot => 2,
        }
    }

    /// The metric that a byte stands for, if any.
    pub open spec fn of_tag(tag: u8) -> Option<Self> {
        if tag == 0 {
            Some(DistanceMetric::Cosine)
        } else if tag == 1 {
            Some(DistanceMetric::L2)
        } else if tag == 2 {
            Some(DistanceMetric::Dot)
        } else {
            None
        }
    }

    /// The metric that a byte stands for, if any.
    pub fn from_tag(tag: u8) -> (r: Option<Self>)
        ensures
            r == Self::of_tag(tag),
    {
        match tag {
            0 => Some(DistanceMetric::Cosine),
            1 => Some(DistanceMetric::L2),
            2 => Some(DistanceMetric::Dot),
            _ => None,
        }
    }

    /// The metric that a name in lower case stands for, if any.
    pub open spec fn of_name(name: Seq<char>) -> Option<Self> {
        if name == "cosine"@ {
            Some(DistanceMetric::Cosine)
        } else if name == "l2"@ || name == "euclidean"@ {
            Some(DistanceMetric::L2)
        } else if name == "dot"@ || name == "ip"@ || name == "inner_product"@ {
            Some(DistanceMetric::Dot)
        } else {
            None
        }
    }

    /// What a name, in whatever case, is read as.
    pub open spec fn parsed(name: Seq<char>) -> std::result::Result<Self, Seq<char>> {
        let folded = name.map_values(|c: char| lower(c));
        match Self::of_name(folded) {
            Some(metric) => Ok(metric),
            None => Err("unknown distance metric: "@ + folded),
        }
    }

    /// Reads the name of a metric; the case of the letters does not matter.
    pub fn from_str(s: &str) -> (r: std::result::Result<Self, String>)
        ensures
            match r {
                Ok(metric) => Self::parsed(s@) == Ok::<Self, Seq<char>>(metric),
                Err(message) => Self::parsed(s@) == Err::<Self, Seq<char>>(message@),
            },
    {
        let folded = s.to_ascii_lowercase();
        let name = folded.as_str();
        if same_text(name, "cosine") {
            Ok(DistanceMetric::Cosine)
        } else if same_text(name, "l2") || same_text(name, "euclidean") {
            Ok(DistanceMetric::L2)
        } else if same_text(name, "dot") || same_text(name, "ip") || same_text(
            name,
            "inner_product",
        ) {
            Ok(DistanceMetric::Dot)
        } else {
            Err(joined("unknown distance metric: ", name))
        }
    }

    /// The name that [`DistanceMetric::from_str`] reads first.
    pub open spec fn name(self) -> Seq<char> {
        match self {
            DistanceMetric::Cosine => "cosine"@,
            DistanceMetric::L2 => "l2"@,
            DistanceMetric::Dot => "dot"@,
        }
    }

    /// The metric's name in lower case.
    pub fn name_text(self) -> (r: String)
        ensures
            r@ == self.name(),
    {
        match self {
            DistanceMetric::Cosine => String::from_str("cosine"),
            DistanceMetric::L2 => String::from_str("l2"),
            DistanceMetric::Dot => String::from_str("dot"),
        }
    }
}

impl std::str::FromStr for DistanceMetric {
    type Err = String;

    fn from_str(s: &str) -> (r: std::result::Result<Self, String>)
        ensures
            match r {
                Ok(metric) => Self::parsed(s@) == Ok::<Self, Seq<char>>(metric),
                Err(message) => Self::parsed(s@) == Err::<Self, Seq<char>>(message@),
            },
    {
        DistanceMetric::from_str(s)
    }
}

/// The snapshot byte of a metric stands for that metric, and for no other.
pub proof fn law_metric_tag_reads_back(metric: DistanceMetric, tag: u8)
    ensures
        DistanceMetric::of_tag(metric.tag()) == Some(metric),
        DistanceMetric::of_tag(tag) matches Some(m) ==> m.tag() == tag,
{
}

} // verus!
