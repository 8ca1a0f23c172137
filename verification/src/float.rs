//! Floating-point values as bit patterns.
//!
//! The library holds every single- and double-precision number as the integer
//! that encodes it. Ordering, sign and zero tests are integer arithmetic on
//! those patterns and are proved here; the rounding operations (sums,
//! products, roots, logarithms) come from an arithmetic unit that the caller
//! passes in as a closure, so a contract can name their results without
//! giving them a definition.
use vstd::arithmetic::power2::{lemma2_to64, lemma_pow2_adds, lemma_pow2_unfold, pow2};
use vstd::prelude::*;

verus! {

/// One operation of the arithmetic unit.
///
/// `Add` to `Sqrt` work on single-precision patterns in the low 32 bits of
/// their operands and of their result; the `Wide` operations work on
/// double-precision patterns. One-operand operations ignore the second
/// operand. `WideTrunc` drops the fraction of a double and gives an integer,
/// clamped to the range of `u64`, with 0 for a NaN.
#[derive(Clone, Copy, Debug, PartialEq, Eq, Structural)]
pub enum FloatOp {
    Add,
    Sub,
    Mul,
    Div,
    Sqrt,
    WideMul,
    WideDiv,
    WideLn,
    WideTrunc,
}

/// What an arithmetic unit computes, as a mathematical function.
pub type Arith = spec_fn(FloatOp, u64, u64) -> u64;

/// A closure can serve as arithmetic unit when it takes every input and never
/// gives two answers for one input.
pub open spec fn is_arithmetic<F: Fn(FloatOp, u64, u64) -> u64>(f: F) -> bool {
    &&& forall|op: FloatOp, a: u64, b: u64| call_requires(f, (op, a, b))
    &&& forall|op: FloatOp, a: u64, b: u64, x: u64, y: u64|
        #![trigger call_ensures(f, (op, a, b), x), call_ensures(f, (op, a, b), y)]
        call_ensures(f, (op, a, b), x) && call_ensures(f, (op, a, b), y) ==> x == y
}

/// The function that an arithmetic unit computes.
pub open spec fn arith_of<F: Fn(FloatOp, u64, u64) -> u64>(f: F) -> Arith {
    |op: FloatOp, a: u64, b: u64| choose|r: u64| call_ensures(f, (op, a, b), r)
}

/// One operation on the unit.
pub fn float_op<F: Fn(FloatOp, u64, u64) -> u64>(f: &F, op: FloatOp, a: u64, b: u64) -> (r: u64)
    requires
        is_arithmetic(*f),
    ensures
        r == arith_of(*f)(op, a, b),
{
    f(op, a, b)
}

/// The low 32 bits of an operation's result, which hold a single.
pub open spec fn low(x: u64) -> u32 {
    (x % 0x1_0000_0000) as u32
}

/// A single-precision operation, as a mathematical function on patterns.
pub open spec fn single(ar: Arith, op: FloatOp, a: u32, b: u32) -> u32 {
    low(ar(op, a as u64, b as u64))
}

/// A single-precision operation.
pub fn single_op<F: Fn(FloatOp, u64, u64) -> u64>(f: &F, op: FloatOp, a: u32, b: u32) -> (r: u32)
    requires
        is_arithmetic(*f),
    ensures
        r == single(arith_of(*f), op, a, b),
{
    (float_op(f, op, a as u64, b as u64) % 0x1_0000_0000) as u32
}

/// Single-precision `0.0`.
pub const ZERO: u32 = 0;

/// Single-precision `1.0`.
pub const ONE: u32 = 0x3f80_0000;

/// Single-precision positive infinity.
pub const INFINITY: u32 = 0x7f80_0000;

/// The pattern of a single without its sign bit.
pub open spec fn magnitude(bits: u32) -> int {
    if bits < 0x8000_0000 {
        bits as int
    } else {
        bits - 0x8000_0000
    }
}

/// Whether a single is not a number.
pub open spec fn is_nan(bits: u32) -> bool {
    magnitude(bits) > INFINITY
}

/// An integer that orders singles other than NaN as their values are ordered;
/// the two zeros get the same integer.
pub open spec fn value_key(bits: u32) -> int {
    if bits < 0x8000_0000 {
        bits as int
    } else {
        0x8000_0000 - bits
    }
}

/// An integer that orders all singles: negative NaNs, negative numbers, `-0.0`,
/// `0.0`, positive numbers, positive NaNs.
pub open spec fn total_key(bits: u32) -> int {
    if bits < 0x8000_0000 {
        bits as int
    } else {
        0x7fff_ffff - bits
    }
}

/// The floating-point comparison `a < b`; false whenever a NaN takes part.
pub open spec fn less(a: u32, b: u32) -> bool {
    !is_nan(a) && !is_nan(b) && value_key(a) < value_key(b)
}

/// The value of `total_key`, computed.
pub fn total_key_of(bits: u32) -> (r: i64)
    ensures
        r == total_key(bits),
{
    if bits < 0x8000_0000 {
        bits as i64
    } else {
        0x7fff_ffff - bits as i64
    }
}

/// Compares two singles as `a < b` does.
pub fn is_less(a: u32, b: u32) -> (r: bool)
    ensures
        r == less(a, b),
{
    let (ka, ma): (i64, i64) = signed(a);
    let (kb, mb): (i64, i64) = signed(b);
    ma <= 0x7f80_0000 && mb <= 0x7f80_0000 && ka < kb
}

fn signed(bits: u32) -> (r: (i64, i64))
    ensures
        r.0 == value_key(bits),
        r.1 == magnitude(bits),
{
    if bits < 0x8000_0000 {
        (bits as i64, bits as i64)
    } else {
        (0x8000_0000 - bits as i64, bits as i64 - 0x8000_0000)
    }
}

/// The pattern with its sign bit flipped.
pub open spec fn negated(bits: u32) -> u32 {
    if bits < 0x8000_0000 {
        (bits + 0x8000_0000) as u32
    } else {
        (bits - 0x8000_0000) as u32
    }
}

/// Negates a single.
pub fn negate(bits: u32) -> (r: u32)
    ensures
        r == negated(bits),
{
    if bits < 0x8000_0000 {
        bits + 0x8000_0000
    } else {
        bits - 0x8000_0000
    }
}

/// The total order refines the comparison `<`.
pub proof fn lemma_total_order_refines_less(a: u32, b: u32)
    ensures
        less(a, b) ==> total_key(a) < total_key(b),
        total_key(a) == total_key(b) ==> a == b,
{
}

/// Single-precision `2.0`.
pub const TWO: u32 = 0x4000_0000;

/// The single that is the 24th power of two.
pub const TWO_POW_24: u32 = 0x4b80_0000;

/// The single that is an integer below the 24th power of two: the integer
/// itself, scaled so that its highest bit stands at place 23.
pub open spec fn exact_single(n: nat) -> int {
    let hidden: nat = 0x80_0000;
    if n == 0 {
        0
    } else {
        (top_bit(n) + 127) * hidden + n * (hidden / pow2(top_bit(n))) - hidden
    }
}

/// Converts a small integer to a single.
pub fn small_integer_to_single(n: u32) -> (r: u32)
    requires
        n < 0x100_0000,
    ensures
        r == exact_single(n as nat),
{
    if n == 0 {
        return 0;
    }
    let mut e: u32 = 0;
    let mut top: u32 = 1;
    proof {
        lemma2_to64();
    }
    while top <= n / 2
        invariant
            top == pow2(e as nat),
            1 <= top <= n,
            n < 0x100_0000,
            e < 24,
        decreases n - top,
    {
        proof {
            lemma_pow2_unfold((e + 1) as nat);
            lemma2_to64();
        }
        top = top * 2;
        e = e + 1;
    }
    let hidden: u32 = 0x80_0000;
    proof {
        lemma_top_bit(n as nat, e as nat);
        lemma2_to64();
        lemma_pow2_adds(e as nat, (23 - e) as nat);
        let c = pow2((23 - e) as nat);
        assert(hidden == top * c);
        assert(hidden / top == c) by (nonlinear_arith)
            requires
                hidden == top * c,
                top >= 1,
        ;
        assert(n * c >= hidden && n * c < 2 * hidden) by (nonlinear_arith)
            requires
                hidden == top * c,
                top <= n < 2 * top,
                c >= 0,
                hidden > 0,
        ;
    }
    (e + 126) * hidden + n * (hidden / top)
}

// ---------------------------------------------------------------------------
// Doubles
// ---------------------------------------------------------------------------

/// Double-precision `1.0`.
pub const WIDE_ONE: u64 = 0x3ff0_0000_0000_0000;

/// The least positive normal double.
pub const WIDE_MIN_POSITIVE: u64 = 0x0010_0000_0000_0000;

/// The double that is the 53rd power of two.
pub const WIDE_TWO_POW_53: u64 = 0x4340_0000_0000_0000;

/// The pattern of a double without its sign bit.
pub open spec fn wide_magnitude(bits: u64) -> int {
    if bits < 0x8000_0000_0000_0000 {
        bits as int
    } else {
        bits - 0x8000_0000_0000_0000
    }
}

/// Whether a double is not a number.
pub open spec fn wide_is_nan(bits: u64) -> bool {
    wide_magnitude(bits) > 0x7ff0_0000_0000_0000
}

/// An integer that orders doubles other than NaN as their values are ordered.
pub open spec fn wide_key(bits: u64) -> int {
    if bits < 0x8000_0000_0000_0000 {
        bits as int
    } else {
        0x8000_0000_0000_0000 - bits
    }
}

/// The floating-point comparison `a <= b` on doubles; false for a NaN.
pub open spec fn wide_at_most(a: u64, b: u64) -> bool {
    !wide_is_nan(a) && !wide_is_nan(b) && wide_key(a) <= wide_key(b)
}

/// The floating-point comparison `a == b` on doubles; false for a NaN.
pub open spec fn wide_same(a: u64, b: u64) -> bool {
    !wide_is_nan(a) && !wide_is_nan(b) && wide_key(a) == wide_key(b)
}

fn wide_signed(bits: u64) -> (r: (i128, i128))
    ensures
        r.0 == wide_key(bits),
        r.1 == wide_magnitude(bits),
{
    if bits < 0x8000_0000_0000_0000 {
        (bits as i128, bits as i128)
    } else {
        (0x8000_0000_0000_0000 - bits as i128, bits as i128 - 0x8000_0000_0000_0000)
    }
}

/// Compares two doubles as `a <= b` does.
pub fn is_wide_at_most(a: u64, b: u64) -> (r: bool)
    ensures
        r == wide_at_most(a, b),
{
    let (ka, ma): (i128, i128) = wide_signed(a);
    let (kb, mb): (i128, i128) = wide_signed(b);
    ma <= 0x7ff0_0000_0000_0000 && mb <= 0x7ff0_0000_0000_0000 && ka <= kb
}

/// Compares two doubles as `a == b` does.
pub fn is_wide_same(a: u64, b: u64) -> (r: bool)
    ensures
        r == wide_same(a, b),
{
    let (ka, ma): (i128, i128) = wide_signed(a);
    let (kb, mb): (i128, i128) = wide_signed(b);
    ma <= 0x7ff0_0000_0000_0000 && mb <= 0x7ff0_0000_0000_0000 && ka == kb
}

/// The pattern of a double with its sign bit flipped.
pub open spec fn wide_negated(bits: u64) -> u64 {
    if bits < 0x8000_0000_0000_0000 {
        (bits + 0x8000_0000_0000_0000) as u64
    } else {
        (bits - 0x8000_0000_0000_0000) as u64
    }
}

/// Negates a double.
pub fn wide_negate(bits: u64) -> (r: u64)
    ensures
        r == wide_negated(bits),
{
    if bits < 0x8000_0000_0000_0000 {
        bits + 0x8000_0000_0000_0000
    } else {
        bits - 0x8000_0000_0000_0000
    }
}

/// The place of the highest bit that is set in `n`.
pub open spec fn top_bit(n: nat) -> nat
    decreases n,
{
    if n < 2 {
        0
    } else {
        1 + top_bit(n / 2)
    }
}

/// The double nearest to `n`, the one with an even last bit where two are
/// equally near.
///
/// Below 2^53 that is `n` itself, scaled so that its highest bit stands at
/// place 52; above, `n` in units of the last place, rounded.
pub open spec fn nearest_double(n: nat) -> int {
    let hidden: nat = 0x10_0000_0000_0000;
    let top = pow2(top_bit(n));
    let exponent = (top_bit(n) + 1023) * hidden;
    if n == 0 {
        0
    } else if top <= hidden {
        exponent + n * (hidden / top) - hidden
    } else {
        let unit = top / hidden;
        let whole = n / unit;
        let rest = n % unit;
        if 2 * rest > unit || (2 * rest == unit && whole % 2 == 1) {
            exponent + whole + 1 - hidden
        } else {
            exponent + whole - hidden
        }
    }
}

pub(crate) proof fn lemma_top_bit(n: nat, e: nat)
    requires
        pow2(e) <= n < 2 * pow2(e),
    ensures
        top_bit(n) == e,
    decreases e,
{
    lemma2_to64();
    if e == 0 {
        assert(n == 1);
    } else {
        lemma_pow2_unfold(e);
        let h = pow2((e - 1) as nat);
        assert(h <= n / 2 < 2 * h);
        assert(h >= 1) by {
            if h == 0 {
                assert(pow2(e) == 0);
            }
        }
        lemma_top_bit(n / 2, (e - 1) as nat);
    }
}

/// Converts an integer to the nearest double.
pub fn integer_to_double(n: u64) -> (r: u64)
    ensures
        r == nearest_double(n as nat),
        r < 0x8000_0000_0000_0000,
{
    if n == 0 {
        return 0;
    }
    let mut e: u64 = 0;
    let mut top: u64 = 1;
    proof {
        lemma2_to64();
    }
    while top <= n / 2
        invariant
            top == pow2(e as nat),
            1 <= top <= n,
            e < 64,
        decreases n - top,
    {
        proof {
            lemma_pow2_unfold((e + 1) as nat);
            lemma2_to64();
            if e == 63 {
                assert(pow2(63) == 0x8000_0000_0000_0000) by {
                    vstd::arithmetic::power2::lemma2_to64_rest();
                }
            }
        }
        top = top * 2;
        e = e + 1;
    }
    proof {
        lemma_top_bit(n as nat, e as nat);
    }
    let hidden: u64 = 0x10_0000_0000_0000;
    assert(pow2(52) == hidden) by {
        vstd::arithmetic::power2::lemma2_to64_rest();
    }
    let exponent: u64 = (e + 1023) * hidden;
    if top <= hidden {
        proof {
            if e > 52 {
                vstd::arithmetic::power2::lemma_pow2_strictly_increases(52, e as nat);
            }
            lemma_pow2_adds(e as nat, (52 - e) as nat);
            let c = pow2((52 - e) as nat);
            assert(hidden == top * c);
            assert(hidden / top == c) by (nonlinear_arith)
                requires
                    hidden == top * c,
                    top >= 1,
            ;
            assert(n * c >= hidden && n * c < 2 * hidden) by (nonlinear_arith)
                requires
                    hidden == top * c,
                    top <= n < 2 * top,
                    c >= 1 || hidden > 0,
                    c >= 0,
            ;
        }
        exponent - hidden + n * (hidden / top)
    } else {
        let unit: u64 = top / hidden;
        proof {
            if e < 52 {
                vstd::arithmetic::power2::lemma_pow2_strictly_increases(e as nat, 52);
            }
            lemma_pow2_adds(52, (e - 52) as nat);
            let c = pow2((e - 52) as nat);
            assert(top == hidden * c);
            assert(top / hidden == c) by (nonlinear_arith)
                requires
                    top == hidden * c,
                    hidden == 0x10_0000_0000_0000,
            ;
            assert(c >= 1) by (nonlinear_arith)
                requires
                    top == hidden * c,
                    top >= 1,
                    c >= 0,
            ;
            assert(hidden <= n / unit < 2 * hidden) by (nonlinear_arith)
                requires
                    top == hidden * c,
                    c >= 1,
                    unit == c,
                    top <= n < 2 * top,
            ;
        }
        let whole: u64 = n / unit;
        let rest: u64 = n % unit;
        let over: u64 = unit - rest;
        if rest > over || (rest == over && whole % 2 == 1) {
            exponent - hidden + whole + 1
        } else {
            exponent - hidden + whole
        }
    }
}

} // verus!
