//! The queries with which an index is warmed up.

use crate::vector::D;
use vstd::prelude::*;

verus! {

/// The state before the first warm-up query.
pub const WARM_SEED: u32 = 0xDEAD_BEEF;

/// The next state of the linear congruential generator.
pub open spec fn next_state(state: u32) -> u32 {
    ((state * 1664525 + 1013904223) % 0x1_0000_0000) as u32
}

/// The state after `k` steps.
pub open spec fn state_after(state: u32, k: nat) -> u32
    decreases k,
{
    if k == 0 {
        state
    } else {
        next_state(state_after(state, (k - 1) as nat))
    }
}

/// Component `k` for a state: the upper 24 bits, as parts of 2^24; in the two components on the
/// last transaction an even state stands for the sentinel.
pub open spec fn warm_component(state: u32, k: int) -> Option<u32> {
    if (k == 5 || k == 6) && state % 2 == 0 {
        None
    } else {
        Some(state / 256)
    }
}

/// The next state of the generator.
fn step(state: u32) -> (r: u32)
    ensures
        r == next_state(state),
{
    let product: u32 = state.wrapping_mul(1664525);
    let r: u32 = product.wrapping_add(1013904223);
    proof {
        vstd::arithmetic::div_mod::lemma_add_mod_noop(
            state * 1664525,
            1013904223,
            0x1_0000_0000,
        );
    }
    r
}

/// A warm-up query, and the state after it. Each component is the numerator of a fraction of
/// 2^24, or `None` for the sentinel.
pub fn warm_query(state: u32) -> (r: (Vec<Option<u32>>, u32))
    ensures
        r.0@ == Seq::new(D as nat, |k: int| warm_component(state_after(state, (k + 1) as nat), k)),
        r.1 == state_after(state, D as nat),
{
    let mut v: Vec<Option<u32>> = Vec::new();
    let mut s: u32 = state;
    let mut k: usize = 0;
    while k < D
        invariant
            k <= D,
            v@.len() == k,
            s == state_after(state, k as nat),
            forall|i: int|
                0 <= i < k ==> #[trigger] v@[i] == warm_component(
                    state_after(state, (i + 1) as nat),
                    i,
                ),
        decreases D - k,
    {
        s = step(s);
        if (k == 5 || k == 6) && s % 2 == 0 {
            v.push(None);
        } else {
            v.push(Some(s / 256));
        }
        k += 1;
    }
    assert(v@ =~= Seq::new(
        D as nat,
        |k: int| warm_component(state_after(state, (k + 1) as nat), k),
    ));
    (v, s)
}


/// Each step of the generator multiplies and adds, and keeps the lower 32 bits.
pub proof fn law_the_generator_is_linear(state: u32, k: nat)
    ensures
        state_after(state, 0) == state,
        (state_after(state, k + 1) - 1664525 * state_after(state, k) - 1013904223) % 0x1_0000_0000
            == 0,
{
    let s = state_after(state, k);
    let x = s * 1664525 + 1013904223;
    assert(state_after(state, k + 1) == next_state(s));
    vstd::arithmetic::div_mod::lemma_fundamental_div_mod(x, 0x1_0000_0000);
    let q = x / 0x1_0000_0000;
    assert(next_state(s) - x == -(0x1_0000_0000 * q));
    vstd::arithmetic::div_mod::lemma_mod_multiples_basic(-q, 0x1_0000_0000);
    assert((-q) * 0x1_0000_0000 == -(0x1_0000_0000 * q));
}

/// A component of a warm-up query lies between 0 and 1 and is that part of 2^32 which its state
/// is, to 24 bits; only the two components on the last transaction can be the sentinel, and they
/// are for every other state.
pub proof fn law_components_are_parts_of_their_states(state: u32, k: int)
    ensures
        warm_component(state, k) is None <==> (k == 5 || k == 6) && state % 2 == 0,
        warm_component(state, k) matches Some(x) ==> 256 * x <= state < 256 * (x + 1),
{
}


/// The states of a warm-up follow from one that is fixed.
pub proof fn law_warm_ups_begin_with_a_fixed_state()
    ensures
        WARM_SEED == 0xDEAD_BEEFu32,
        state_after(WARM_SEED, 0) == 0xDEAD_BEEFu32,
{
}

} // verus!
