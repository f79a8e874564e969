//! Seeded pseudo-random numbers, drawn from the `frand` crate.

use vstd::prelude::*;

verus! {

/// The generator of the `frand` crate.
#[verifier::external_type_specification]
#[verifier::external_body]
pub struct ExRand(frand::Rand);

/// The 64-bit state that a generator holds.
pub uninterp spec fn state_of(rng: frand::Rand) -> u64;

pub open spec fn wrapping_sum(a: u64, b: u64) -> u64 {
    ((a + b) % 0x1_0000_0000_0000_0000) as u64
}

pub open spec fn wrapping_product(a: u64, b: u64) -> u64 {
    ((a * b) % 0x1_0000_0000_0000_0000) as u64
}

pub open spec fn scrambled(x: u64) -> u64 {
    wrapping_product(x ^ (x >> 32), 4997996261773036203)
}

/// The state of a generator that was made from `seed`.
pub open spec fn seeded_state(seed: u64) -> u64 {
    let h = scrambled(scrambled(seed));
    h ^ (h >> 32)
}

/// The state after a draw.
pub open spec fn next_state(state: u64) -> u64 {
    wrapping_sum(state, 12964901029718341801)
}

/// The 64-bit number drawn from `state`.
pub open spec fn draw64(state: u64) -> u64 {
    let v = next_state(state);
    let x = wrapping_product(v, 149988720821803190u64 ^ v);
    x ^ (x >> 32)
}

/// The 32-bit number drawn from `state`.
pub open spec fn draw32(state: u64) -> u32 {
    let v = next_state(state);
    (wrapping_product(v, 18162115696561729952u64 ^ v) >> 32) as u32
}

/// `frand::Rand::with_seed`: the generator starts in the hash of the seed.
#[verifier::external_body]
pub(crate) fn with_seed(seed: u64) -> (r: frand::Rand)
    ensures
        state_of(r) == seeded_state(seed),
{
    frand::Rand::with_seed(seed)
}

/// `frand::Rand::gen_range` on `0..n` of `u64`: one draw, reduced modulo `n`.
#[verifier::external_body]
pub(crate) fn below_u64(rng: &mut frand::Rand, n: u64) -> (r: u64)
    requires
        n > 0,
    ensures
        state_of(*final(rng)) == next_state(state_of(*old(rng))),
        r == draw64(state_of(*old(rng))) % n,
{
    rng.gen_range(0..n)
}

/// `frand::Rand::gen_range` on `0..n` of `u32`: one draw, reduced modulo `n`.
#[verifier::external_body]
pub(crate) fn below_u32(rng: &mut frand::Rand, n: u32) -> (r: u32)
    requires
        n > 0,
    ensures
        state_of(*final(rng)) == next_state(state_of(*old(rng))),
        r == draw32(state_of(*old(rng))) % n,
{
    rng.gen_range(0..n)
}

/// `frand::Rand::gen_range` on `start..end` of `i16`: the low half of one
/// draw, reduced modulo the width of the range, counted from its start.
#[verifier::external_body]
pub(crate) fn between_i16(rng: &mut frand::Rand, start: i16, end: i16) -> (r: i16)
    requires
        start < end,
    ensures
        state_of(*final(rng)) == next_state(state_of(*old(rng))),
        r == start + (draw32(state_of(*old(rng))) % 0x1_0000) as int % (end - start),
{
    rng.gen_range(start..end)
}

/// `frand::Rand::gen_range` on `start..end` of `i32`: one draw, reduced modulo
/// the width of the range, counted from its start.
#[verifier::external_body]
pub(crate) fn between_i32(rng: &mut frand::Rand, start: i32, end: i32) -> (r: i32)
    requires
        start < end,
    ensures
        state_of(*final(rng)) == next_state(state_of(*old(rng))),
        r == start + draw32(state_of(*old(rng))) as int % (end - start),
{
    rng.gen_range(start..end)
}

/// The state after `k` draws.
pub open spec fn state_after(state: u64, k: nat) -> u64
    decreases k,
{
    if k == 0 {
        state
    } else {
        next_state(state_after(state, (k - 1) as nat))
    }
}

/// Draws follow one another.
pub proof fn lemma_state_after(state: u64, i: nat, j: nat)
    ensures
        state_after(state_after(state, i), j) == state_after(state, i + j),
    decreases j,
{
    if j > 0 {
        lemma_state_after(state, i, (j - 1) as nat);
    }
}

} // verus!
