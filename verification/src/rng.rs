//! The randomness seam: one trusted wrapper draws raw 64-bit values from the
//! process's random generator, and verified code maps them into the roll and
//! direction samples one tick consumes.  Nothing is assumed of a drawn
//! value, so every contract downstream holds for every possible outcome.

use vstd::prelude::*;
use vstd::arithmetic::div_mod::lemma_mod_division_less_than_divisor;
use crate::vec2::Vec2;
use crate::sim::{Sim, TickOutcome, tick, tick_post};

verus! {

/// Relies on rand::random::<u64>: draws a value from the thread-local
/// generator, uniformly over all 64-bit values.  Nothing can be promised of
/// a random result, so no contract is stated.
#[verifier::external_body]
fn random_u64() -> u64 {
    rand::random::<u64>()
}

/// Draws one tick's randomness: the spawn roll and a direction sample with
/// both components in `[-1000, 1000]` (a unit-square sample at a fixed
/// resolution; the direction is normalized when a body is spawned).
pub fn sample_tick_inputs() -> (inp: (u64, Vec2))
    ensures
        -1000 <= inp.1.x <= 1000,
        -1000 <= inp.1.y <= 1000,
{
    let roll: u64 = random_u64();
    let rx: u64 = random_u64();
    let ry: u64 = random_u64();
    proof {
        lemma_mod_division_less_than_divisor(rx as int, 2001);
        lemma_mod_division_less_than_divisor(ry as int, 2001);
    }
    let dx: i128 = (rx % 2001) as i128 - 1000;
    let dy: i128 = (ry % 2001) as i128 - 1000;
    (roll, Vec2 { x: dx, y: dy })
}

/// One tick with freshly drawn randomness; returns the samples that were
/// used together with the outcome, so the caller knows exactly which tick
/// was taken.
pub fn tick_with_random(sim: &mut Sim, dt: i128) -> (r: ((u64, Vec2), TickOutcome))
    requires
        old(sim).wf(),
        0 <= dt,
    ensures
        final(sim).wf(),
        tick_post(*old(sim), *final(sim), r.1, dt as int, r.0.0, r.0.1),
{
    let inp: (u64, Vec2) = sample_tick_inputs();
    let out: TickOutcome = tick(sim, dt, inp.0, inp.1);
    ((inp.0, inp.1), out)
}

} // verus!
