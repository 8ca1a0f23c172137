//! What the numbers by their bit patterns promise.
use crate::float::{
    exact_single, is_nan, lemma_top_bit, less, nearest_double, negated, total_key, wide_at_most,
    wide_negated, wide_same,
};
use crate::json::Number;
use vstd::arithmetic::power2::{lemma2_to64, lemma2_to64_rest, lemma_pow2_adds, pow2};
use vstd::prelude::*;

verus! {

/// The pattern of a single is no number exactly if its exponent is full and
/// something follows it; then it is neither below nor above anything.
pub proof fn law_what_is_no_number_compares_to_nothing(a: u32, b: u32)
    ensures
        is_nan(a) <==> (0x7f80_0000 < a < 0x8000_0000 || 0xff80_0000 < a),
        is_nan(a) ==> !less(a, b) && !less(b, a),
{
}

/// How two singles compare, by their signs: of two without a sign the one with
/// the smaller pattern is below, of two with a sign the one with the larger;
/// a number with a sign is below one without, unless both are zero.
pub proof fn law_singles_compare_as_numbers(a: u32, b: u32)
    requires
        !is_nan(a),
        !is_nan(b),
    ensures
        a < 0x8000_0000 && b < 0x8000_0000 ==> (less(a, b) <==> a < b),
        a >= 0x8000_0000 && b >= 0x8000_0000 ==> (less(a, b) <==> a > b),
        a >= 0x8000_0000 && b < 0x8000_0000 ==> (less(a, b) <==> !(a == 0x8000_0000 && b == 0)),
        a < 0x8000_0000 && b >= 0x8000_0000 ==> !less(a, b),
{
}

/// Below is a strict order.
pub proof fn law_below_is_a_strict_order(a: u32, b: u32, c: u32)
    ensures
        !less(a, a),
        less(a, b) ==> !less(b, a),
        less(a, b) && less(b, c) ==> less(a, c),
        !less(a, b) && !less(b, c) && !is_nan(b) && !is_nan(a) && !is_nan(c) ==> !less(a, c),
{
}

/// The total order tells any two patterns apart, and puts a number that is
/// below another in front of it.
pub proof fn law_total_order_is_total(a: u32, b: u32)
    ensures
        a != b <==> total_key(a) < total_key(b) || total_key(b) < total_key(a),
        less(a, b) ==> total_key(a) < total_key(b),
        a < 0x8000_0000 && b < 0x8000_0000 ==> (total_key(a) < total_key(b) <==> a < b),
        a >= 0x8000_0000 && b >= 0x8000_0000 ==> (total_key(a) < total_key(b) <==> a > b),
        a >= 0x8000_0000 && b < 0x8000_0000 ==> total_key(a) < total_key(b),
{
}

/// Negating turns the order round, and twice is not at all.
pub proof fn law_negating_turns_the_order_round(a: u32, b: u32)
    ensures
        negated(negated(a)) == a,
        negated(a) != a,
        less(a, b) <==> less(negated(b), negated(a)),
        is_nan(a) <==> is_nan(negated(a)),
{
}

/// How two doubles compare, by their signs.
pub proof fn law_doubles_compare_as_numbers(a: u64, b: u64)
    ensures
        wide_at_most(a, a) <==> (a <= 0x7ff0_0000_0000_0000 || 0x8000_0000_0000_0000 <= a
            <= 0xfff0_0000_0000_0000),
        wide_at_most(a, b) ==> wide_at_most(a, a) && wide_at_most(b, b),
        wide_at_most(a, a) && wide_at_most(b, b) ==> {
            &&& a < 0x8000_0000_0000_0000 && b < 0x8000_0000_0000_0000 ==> (wide_at_most(a, b)
                <==> a <= b)
            &&& a >= 0x8000_0000_0000_0000 && b >= 0x8000_0000_0000_0000 ==> (wide_at_most(a, b)
                <==> a >= b)
            &&& a >= 0x8000_0000_0000_0000 && b < 0x8000_0000_0000_0000 ==> wide_at_most(a, b)
            &&& a < 0x8000_0000_0000_0000 && b >= 0x8000_0000_0000_0000 ==> (wide_at_most(a, b)
                <==> a == 0 && b == 0x8000_0000_0000_0000)
        },
        wide_same(a, b) <==> wide_at_most(a, b) && wide_at_most(b, a),
        wide_negated(wide_negated(a)) == a,
        wide_at_most(a, b) <==> wide_at_most(wide_negated(b), wide_negated(a)),
{
}

/// A small integer is a single exactly: the fraction of the single, with its
/// hidden bit and at its exponent, is the integer.
pub proof fn law_small_integers_are_exact_singles(n: nat, e: nat)
    requires
        pow2(e) <= n < 2 * pow2(e),
        e <= 23,
    ensures
        exact_single(n) / 0x80_0000 == e + 127,
        (0x80_0000 + exact_single(n) % 0x80_0000) * pow2(e) == n * 0x80_0000,
        exact_single(0) == 0,
{
    lemma_top_bit(n, e);
    lemma2_to64();
    lemma_pow2_adds(e, (23 - e) as nat);
    let hidden: int = 0x80_0000;
    let top = pow2(e) as int;
    let c = pow2((23 - e) as nat) as int;
    let b = exact_single(n);
    assert(hidden == top * c);
    assert(top >= 1) by (nonlinear_arith)
        requires
            hidden == top * c,
            hidden > 0,
            top >= 0,
    ;
    assert(hidden / top == c) by (nonlinear_arith)
        requires
            hidden == top * c,
            top >= 1,
    ;
    let f = n * c - hidden;
    assert(0 <= f < hidden) by (nonlinear_arith)
        requires
            f == n * c - hidden,
            hidden == top * c,
            top <= n < 2 * top,
            c >= 0,
            hidden > 0,
    ;
    assert(b == (e + 127) * hidden + f);
    assert(b / hidden == e + 127 && b % hidden == f) by (nonlinear_arith)
        requires
            b == (e + 127) * hidden + f,
            0 <= f < hidden,
    ;
    assert((hidden + f) * top == n * hidden) by (nonlinear_arith)
        requires
            f == n * c - hidden,
            hidden == top * c,
    ;
}

/// An integer below the 53rd power of two is a double exactly.
pub proof fn law_integers_are_exact_doubles(n: nat, e: nat)
    requires
        pow2(e) <= n < 2 * pow2(e),
        e <= 52,
    ensures
        nearest_double(n) / 0x10_0000_0000_0000 == e + 1023,
        (0x10_0000_0000_0000 + nearest_double(n) % 0x10_0000_0000_0000) * pow2(e) == n
            * 0x10_0000_0000_0000,
        nearest_double(0) == 0,
{
    lemma_top_bit(n, e);
    lemma2_to64_rest();
    lemma_pow2_adds(e, (52 - e) as nat);
    let hidden: int = 0x10_0000_0000_0000;
    let top = pow2(e) as int;
    let c = pow2((52 - e) as nat) as int;
    let b = nearest_double(n);
    assert(hidden == top * c);
    assert(top >= 1) by (nonlinear_arith)
        requires
            hidden == top * c,
            hidden > 0,
            top >= 0,
    ;
    assert(c >= 1) by (nonlinear_arith)
        requires
            hidden == top * c,
            hidden > 0,
            c >= 0,
    ;
    assert(hidden / top == c && top <= hidden) by (nonlinear_arith)
        requires
            hidden == top * c,
            top >= 1,
            c >= 1,
    ;
    let f = n * c - hidden;
    assert(0 <= f < hidden) by (nonlinear_arith)
        requires
            f == n * c - hidden,
            hidden == top * c,
            top <= n < 2 * top,
            c >= 1,
    ;
    assert(b == (e + 1023) * hidden + f);
    assert(b / hidden == e + 1023 && b % hidden == f) by (nonlinear_arith)
        requires
            b == (e + 1023) * hidden + f,
            0 <= f < hidden,
    ;
    assert((hidden + f) * top == n * hidden) by (nonlinear_arith)
        requires
            f == n * c - hidden,
            hidden == top * c,
    ;
}

/// A larger integer is rounded to the double that is nearest: its fraction,
/// in units of the last place, is no more than half a unit away, and even
/// where two are equally near.
pub proof fn law_large_integers_round_to_the_nearest_double(n: nat, e: nat)
    requires
        pow2(e) <= n < 2 * pow2(e),
        e > 52,
    ensures
        ({
            let unit = pow2((e - 52) as nat) as int;
            let fraction = nearest_double(n) - (e + 1023) * 0x10_0000_0000_0000;
            let value = (0x10_0000_0000_0000 + fraction) * unit;
            &&& 0 <= fraction <= 0x10_0000_0000_0000
            &&& 2 * (value - n) <= unit
            &&& 2 * (n - value) <= unit
            &&& 2 * (value - n) == unit || 2 * (n - value) == unit ==> fraction % 2 == 0
        }),
{
    lemma_top_bit(n, e);
    lemma2_to64_rest();
    lemma_pow2_adds(52, (e - 52) as nat);
    vstd::arithmetic::power2::lemma_pow2_strictly_increases(52, e);
    let hidden: int = 0x10_0000_0000_0000;
    let top = pow2(e) as int;
    let unit = pow2((e - 52) as nat) as int;
    assert(top == hidden * unit);
    assert(unit >= 1) by (nonlinear_arith)
        requires
            top == hidden * unit,
            top >= 1,
            hidden > 0,
    ;
    assert(top / hidden == unit) by (nonlinear_arith)
        requires
            top == hidden * unit,
            hidden > 0,
    ;
    let whole = n as int / unit;
    let rest = n as int % unit;
    assert(n == whole * unit + rest && 0 <= rest < unit) by (nonlinear_arith)
        requires
            whole == n as int / unit,
            rest == n as int % unit,
            unit >= 1,
    ;
    assert(hidden <= whole < 2 * hidden) by (nonlinear_arith)
        requires
            top == hidden * unit,
            unit >= 1,
            top <= n < 2 * top,
            n == whole * unit + rest,
            0 <= rest < unit,
    ;
    assert((whole + 1) * unit == whole * unit + unit) by (nonlinear_arith);
}

/// A JSON integer is compared as the double that is nearest to it, with its
/// sign; other numbers as they are.
pub proof fn law_json_numbers_are_compared_as_doubles(n: u64, i: i64, bits: u64)
    ensures
        Number::PosInt(n).as_double() == nearest_double(n as nat),
        i < 0 ==> Number::NegInt(i).as_double() == 0x8000_0000_0000_0000 + nearest_double(
            (-i) as nat,
        ),
        Number::Float(bits).as_double() == bits,
{
}

} // verus!
