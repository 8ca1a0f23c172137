//! What is drawn from the generator.
use crate::bench::{coordinate, drawn_vector};
use crate::float::{
    exact_single, nearest_double, single, wide_at_most, Arith, FloatOp,
};
use crate::hnsw::HnswView;
use crate::rng::{level_of, levels_fit, next_state, scrambled, state_after};
use vstd::prelude::*;

verus! {

/// The state that a drawn number was drawn in.
pub open spec fn unscrambled(z: u64) -> u64 {
    let b = z ^ (z >> 31) ^ (z >> 62);
    let c = b.wrapping_mul(0x3196_42b2_d24d_8ec3);
    let a = c ^ (c >> 27) ^ (c >> 54);
    let d = a.wrapping_mul(0x96de_1b17_3f11_9089);
    d ^ (d >> 30) ^ (d >> 60)
}

proof fn lemma_product_undone(x: u64, factor: u64, inverse: u64, turns: int)
    requires
        factor * inverse == turns * 0x1_0000_0000_0000_0000 + 1,
    ensures
        x.wrapping_mul(factor).wrapping_mul(inverse) == x,
{
    let m: int = 0x1_0000_0000_0000_0000;
    let y = x.wrapping_mul(factor);
    assert(y == (x * factor) % m);
    assert(y.wrapping_mul(inverse) == (y * inverse) % m);
    let q = (x * factor) / m;
    assert(y * inverse == x + m * (x * turns - q * inverse)) by (nonlinear_arith)
        requires
            factor * inverse == turns * m + 1,
            y == x * factor - m * q,
    ;
    vstd::arithmetic::div_mod::lemma_mod_multiples_vanish(
        x * turns - q * inverse,
        x as int,
        m,
    );
    vstd::arithmetic::div_mod::lemma_small_mod(x as nat, m as nat);
}

/// A drawn number tells the state that it was drawn in: no two states give the
/// same number.
pub proof fn law_drawn_number_tells_its_state(state: u64)
    ensures
        unscrambled(scrambled(state)) == state,
{
    let s = state ^ (state >> 30);
    let a = s.wrapping_mul(0xbf58_476d_1ce4_e5b9);
    let t = a ^ (a >> 27);
    let b = t.wrapping_mul(0x94d0_49bb_1331_11eb);
    let z = b ^ (b >> 31);
    assert(z ^ (z >> 31) ^ (z >> 62) == b) by (bit_vector)
        requires
            z == b ^ (b >> 31),
    ;
    lemma_product_undone(t, 0x94d0_49bb_1331_11eb, 0x3196_42b2_d24d_8ec3, 2077064247507883091);
    assert(t ^ (t >> 27) ^ (t >> 54) == a) by (bit_vector)
        requires
            t == a ^ (a >> 27),
    ;
    lemma_product_undone(s, 0xbf58_476d_1ce4_e5b9, 0x96de_1b17_3f11_9089, 8125545580553827436);
    assert(s ^ (s >> 30) ^ (s >> 60) == state) by (bit_vector)
        requires
            s == state ^ (state >> 30),
    ;
}

/// The state goes on by the same odd number with every step.
pub proof fn law_state_goes_on_evenly(state: u64, n: nat)
    ensures
        state_after(state, n) == (state + n * 0x9e37_79b9_7f4a_7c15) % 0x1_0000_0000_0000_0000,
    decreases n,
{
    let m: int = 0x1_0000_0000_0000_0000;
    let c: int = 0x9e37_79b9_7f4a_7c15;
    if n == 0 {
        vstd::arithmetic::div_mod::lemma_small_mod(state as nat, m as nat);
    } else {
        let next = next_state(state);
        law_state_goes_on_evenly(next, (n - 1) as nat);
        assert(next == (state + c) % m);
        vstd::arithmetic::div_mod::lemma_add_mod_noop(state + c, (n - 1) * c, m);
        vstd::arithmetic::div_mod::lemma_add_mod_noop(next as int, (n - 1) * c, m);
        vstd::arithmetic::div_mod::lemma_small_mod(next as nat, m as nat);
        assert(state + c + (n - 1) * c == state + n * c) by (nonlinear_arith);
    }
}

/// Where dividing by a number is multiplying by its reciprocal, and what is
/// drawn is not too small, the level of a node is the whole part of the
/// logarithm, to the base `m`, of one over the even number that the upper 53
/// bits stand for.
pub proof fn law_level_is_a_logarithm_to_base_m(ar: Arith, m: usize, z: u64)
    requires
        forall|a: u64, b: u64|
            #![trigger ar(FloatOp::WideDiv, a, b)]
            ar(FloatOp::WideMul, a, ar(FloatOp::WideDiv, 0x3ff0_0000_0000_0000, b)) == ar(
                FloatOp::WideDiv,
                a,
                b,
            ),
    ensures
        ({
            let top = (z / 0x800) as nat;
            let even = ar(FloatOp::WideDiv, nearest_double(top) as u64, 0x4340_0000_0000_0000);
            let u = if wide_at_most(0x0010_0000_0000_0000, even) {
                even
            } else {
                0x0010_0000_0000_0000
            };
            let ln_u = ar(FloatOp::WideLn, u, 0);
            let minus = (ln_u + 0x8000_0000_0000_0000) % 0x1_0000_0000_0000_0000;
            let ln_m = ar(FloatOp::WideLn, nearest_double(m as nat) as u64, 0);
            let level = ar(
                FloatOp::WideTrunc,
                ar(FloatOp::WideDiv, minus as u64, ln_m),
                0,
            );
            &&& level <= usize::MAX ==> level_of(ar, m, z) == level
            &&& level > usize::MAX ==> level_of(ar, m, z) == usize::MAX
        }),
{
    assert(z >> 11 == z / 0x800) by (bit_vector);
    let even = ar(FloatOp::WideDiv, nearest_double((z >> 11) as nat) as u64, 0x4340_0000_0000_0000);
    let u = if wide_at_most(0x0010_0000_0000_0000, even) {
        even
    } else {
        0x0010_0000_0000_0000
    };
    let ln_u = ar(FloatOp::WideLn, u, 0);
    let ln_m = ar(FloatOp::WideLn, nearest_double(m as nat) as u64, 0);
    let minus = crate::float::wide_negated(ln_u);
    assert(minus == (ln_u + 0x8000_0000_0000_0000) % 0x1_0000_0000_0000_0000);
    assert(ar(FloatOp::WideMul, minus, ar(FloatOp::WideDiv, 0x3ff0_0000_0000_0000, ln_m)) == ar(
        FloatOp::WideDiv,
        minus,
        ln_m,
    ));
}

/// Only the upper 53 bits of a drawn number matter to a level.
pub proof fn law_level_goes_by_the_upper_bits(ar: Arith, m: usize, a: u64, b: u64)
    requires
        a / 0x800 == b / 0x800,
    ensures
        level_of(ar, m, a) == level_of(ar, m, b),
{
    assert(a >> 11 == a / 0x800) by (bit_vector);
    assert(b >> 11 == b / 0x800) by (bit_vector);
}

/// Where doubling a number is adding it to itself, a coordinate is twice the
/// even number that the upper 24 bits stand for, less one.
pub proof fn law_coordinate_is_spread_around_zero(ar: Arith, state: u64)
    requires
        forall|x: u32|
            #![trigger single(ar, FloatOp::Mul, x, 0x4000_0000)]
            single(ar, FloatOp::Mul, x, 0x4000_0000) == single(ar, FloatOp::Add, x, x),
    ensures
        ({
            let top = (scrambled(state) / 0x100_0000_0000) as nat;
            let even = single(ar, FloatOp::Div, exact_single(top) as u32, 0x4b80_0000);
            coordinate(ar, state) == single(
                ar,
                FloatOp::Sub,
                single(ar, FloatOp::Add, even, even),
                0x3f80_0000,
            )
        }),
{
    let z = scrambled(state);
    assert(z >> 40 == z / 0x100_0000_0000) by (bit_vector);
}

/// Each coordinate of a drawn vector is drawn in a state of its own, one step
/// behind the one before.
pub proof fn law_coordinates_are_drawn_in_turn(ar: Arith, state: u64, dim: nat, i: int, next: u64)
    requires
        0 <= i < dim,
        next == (state + (i + 1) * 0x9e37_79b9_7f4a_7c15) % 0x1_0000_0000_0000_0000,
    ensures
        drawn_vector(ar, state, dim).len() == dim,
        drawn_vector(ar, state, dim)[i] == coordinate(ar, next),
{
    law_state_goes_on_evenly(state, (i + 1) as nat);
}

/// An index has room for `n` vectors more exactly if twice its `m` can be
/// counted, if the places of all nodes fit 32 bits, and if every layer that will
/// be sampled leaves room for one above.
pub proof fn law_room_is_counted_draw_by_draw(v: HnswView, ar: Arith, n: nat)
    ensures
        v.ready_for(ar, n) <==> {
            &&& v.config.m * 2 <= usize::MAX
            &&& v.nodes.len() + n <= 0x1_0000_0000
            &&& forall|i: nat|
                i < n ==> level_of(ar, v.config.m, scrambled(#[trigger] state_after(v.rng, i + 1)))
                    < usize::MAX
        },
{
    lemma_levels_draw_by_draw(ar, v.config.m, v.rng, n);
}

proof fn lemma_levels_draw_by_draw(ar: Arith, m: usize, state: u64, n: nat)
    ensures
        levels_fit(ar, m, state, n) <==> forall|i: nat|
            i < n ==> level_of(ar, m, scrambled(#[trigger] state_after(state, i + 1)))
                < usize::MAX,
    decreases n,
{
    reveal_with_fuel(state_after, 2);
    if n > 0 {
        let next = next_state(state);
        lemma_levels_draw_by_draw(ar, m, next, (n - 1) as nat);
        assert(state_after(state, 1) == next);
        assert forall|i: nat| #[trigger] state_after(next, i + 1) == state_after(
            state,
            i + 2,
        ) by {}
        if levels_fit(ar, m, state, n) {
            assert forall|i: nat| i < n implies level_of(
                ar,
                m,
                scrambled(#[trigger] state_after(state, i + 1)),
            ) < usize::MAX by {
                if i > 0 {
                    let j = (i - 1) as nat;
                    assert(state_after(next, j + 1) == state_after(state, j + 2));
                }
            }
        }
        if forall|i: nat|
            i < n ==> level_of(ar, m, scrambled(#[trigger] state_after(state, i + 1)))
                < usize::MAX {
            assert(level_of(ar, m, scrambled(state_after(state, 0 + 1))) < usize::MAX);
            assert forall|i: nat| i < n - 1 implies level_of(
                ar,
                m,
                scrambled(#[trigger] state_after(next, i + 1)),
            ) < usize::MAX by {
                let j = i + 1;
                assert(state_after(next, i + 1) == state_after(state, i + 2));
                assert(state_after(state, j + 1) == state_after(state, i + 2));
            }
        }
    }
}

} // verus!
