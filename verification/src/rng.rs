//! The splitmix64 generator, and what is drawn from it.
use crate::float::{
    arith_of, float_op, integer_to_double, is_arithmetic, is_wide_at_most, nearest_double,
    wide_at_most, wide_negate, wide_negated, Arith, FloatOp, WIDE_MIN_POSITIVE, WIDE_ONE,
    WIDE_TWO_POW_53,
};
use vstd::prelude::*;

verus! {

/// The state after one step.
pub open spec fn next_state(state: u64) -> u64 {
    state.wrapping_add(0x9e37_79b9_7f4a_7c15)
}

/// The state after `n` steps.
pub open spec fn state_after(state: u64, n: nat) -> u64
    decreases n,
{
    if n == 0 {
        state
    } else {
        state_after(next_state(state), (n - 1) as nat)
    }
}

/// Steps add up.
pub proof fn lemma_state_after_sum(state: u64, a: nat, b: nat)
    ensures
        state_after(state_after(state, a), b) == state_after(state, a + b),
    decreases a,
{
    if a > 0 {
        lemma_state_after_sum(next_state(state), (a - 1) as nat, b);
    }
}

/// The number drawn in a state.
pub open spec fn scrambled(state: u64) -> u64 {
    let a = (state ^ (state >> 30)).wrapping_mul(0xbf58_476d_1ce4_e5b9);
    let b = (a ^ (a >> 27)).wrapping_mul(0x94d0_49bb_1331_11eb);
    b ^ (b >> 31)
}

/// Steps the generator and draws a number.
pub fn splitmix(state: &mut u64) -> (r: u64)
    ensures
        *final(state) == next_state(*old(state)),
        r == scrambled(*final(state)),
{
    *state = state.wrapping_add(0x9e37_79b9_7f4a_7c15);
    let z: u64 = *state;
    let a: u64 = (z ^ (z >> 30)).wrapping_mul(0xbf58_476d_1ce4_e5b9);
    let b: u64 = (a ^ (a >> 27)).wrapping_mul(0x94d0_49bb_1331_11eb);
    b ^ (b >> 31)
}

/// The top layer that a node gets from the number `z`: with `u` drawn evenly
/// between 0 and 1, the whole part of `-ln(u) / ln(m)`, so that each layer
/// holds about one `m`-th of the one below.
pub open spec fn level_of(ar: Arith, m: usize, z: u64) -> usize {
    let even = ar(FloatOp::WideDiv, nearest_double((z >> 11) as nat) as u64, WIDE_TWO_POW_53);
    let u = if wide_at_most(WIDE_MIN_POSITIVE, even) {
        even
    } else {
        WIDE_MIN_POSITIVE
    };
    let scale = ar(
        FloatOp::WideDiv,
        WIDE_ONE,
        ar(FloatOp::WideLn, nearest_double(m as nat) as u64, 0),
    );
    let level = ar(
        FloatOp::WideTrunc,
        ar(FloatOp::WideMul, wide_negated(ar(FloatOp::WideLn, u, 0)), scale),
        0,
    );
    if level <= usize::MAX {
        level as usize
    } else {
        usize::MAX
    }
}

/// Computes a node's top layer from the number `z`.
pub fn sample_level<F: Fn(FloatOp, u64, u64) -> u64>(fpu: &F, m: usize, z: u64) -> (r: usize)
    requires
        is_arithmetic(*fpu),
    ensures
        r == level_of(arith_of(*fpu), m, z),
{
    let even: u64 = float_op(
        fpu,
        FloatOp::WideDiv,
        integer_to_double(z >> 11),
        WIDE_TWO_POW_53,
    );
    let u: u64 = if is_wide_at_most(WIDE_MIN_POSITIVE, even) {
        even
    } else {
        WIDE_MIN_POSITIVE
    };
    let ln_m: u64 = float_op(fpu, FloatOp::WideLn, integer_to_double(m as u64), 0);
    let scale: u64 = float_op(fpu, FloatOp::WideDiv, WIDE_ONE, ln_m);
    let ln_u: u64 = float_op(fpu, FloatOp::WideLn, u, 0);
    let product: u64 = float_op(fpu, FloatOp::WideMul, wide_negate(ln_u), scale);
    let level: u64 = float_op(fpu, FloatOp::WideTrunc, product, 0);
    if level <= usize::MAX as u64 {
        level as usize
    } else {
        usize::MAX
    }
}

/// Whether each of the next `n` levels drawn leaves room for one layer more.
pub open spec fn levels_fit(ar: Arith, m: usize, state: u64, n: nat) -> bool
    decreases n,
{
    n == 0 || (level_of(ar, m, scrambled(next_state(state))) < usize::MAX && levels_fit(
        ar,
        m,
        next_state(state),
        (n - 1) as nat,
    ))
}

/// Where `n` levels fit, fewer fit.
pub proof fn lemma_levels_fit_less(ar: Arith, m: usize, state: u64, n: nat, fewer: nat)
    requires
        levels_fit(ar, m, state, n),
        fewer <= n,
    ensures
        levels_fit(ar, m, state, fewer),
    decreases n,
{
    if fewer > 0 {
        lemma_levels_fit_less(ar, m, next_state(state), (n - 1) as nat, (fewer - 1) as nat);
    }
}

/// Draws ahead to see whether the next `n` levels fit.
pub fn check_levels<F: Fn(FloatOp, u64, u64) -> u64>(
    fpu: &F,
    m: usize,
    state: u64,
    n: usize,
) -> (r: bool)
    requires
        is_arithmetic(*fpu),
    ensures
        r == levels_fit(arith_of(*fpu), m, state, n as nat),
{
    let ghost ar = arith_of(*fpu);
    let mut now: u64 = state;
    let mut left: usize = n;
    while left > 0
        invariant
            is_arithmetic(*fpu),
            ar == arith_of(*fpu),
            levels_fit(ar, m, state, n as nat) == levels_fit(ar, m, now, left as nat),
        decreases left,
    {
        let z: u64 = splitmix(&mut now);
        if sample_level(fpu, m, z) == usize::MAX {
            return false;
        }
        left = left - 1;
    }
    true
}

} // verus!
