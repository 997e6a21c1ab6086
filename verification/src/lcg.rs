//! A linear congruential generator with Knuth's MMIX parameters.

use vstd::prelude::*;

verus! {

/// The multiplier of the recurrence.
pub const RAND_A: u64 = 6364136223846793005;

/// The increment of the recurrence.
pub const RAND_C: u64 = 1442695040888963407;

/// The state that follows `state`: `state * RAND_A + RAND_C` modulo 2^64.
pub open spec fn next_state(state: u64) -> u64 {
    ((state as int * RAND_A as int + RAND_C as int) % 0x1_0000_0000_0000_0000) as u64
}

/// The value drawn on reaching `state`: its upper 32 bits.
pub open spec fn output(state: u64) -> u32 {
    (state as int / 0x1_0000_0000) as u32
}

/// The state reached from `seed` after `n` draws.
pub open spec fn state_after(seed: u64, n: nat) -> u64
    decreases n,
{
    if n == 0 {
        seed
    } else {
        next_state(state_after(seed, (n - 1) as nat))
    }
}

/// The first `n` values drawn from a generator seeded with `seed`.
pub open spec fn draws(seed: u64, n: nat) -> Seq<u32> {
    Seq::new(n, |i: int| output(state_after(seed, (i + 1) as nat)))
}

/// A deterministic pseudo-random generator over a 64-bit state.
pub struct LCG {
    state: u64,
}

impl View for LCG {
    type V = u64;

    closed spec fn view(&self) -> u64 {
        self.state
    }
}

impl LCG {
    /// A generator whose state is `seed`.
    pub fn new(seed: u64) -> (lcg: Self)
        ensures
            lcg@ == seed,
    {
        Self { state: seed }
    }

    /// Advances the state once and returns the upper half of the new state.
    pub fn random_u32(&mut self) -> (value: u32)
        ensures
            final(self)@ == next_state(old(self)@),
            value == output(final(self)@),
    {
        let product: u64 = self.state.wrapping_mul(RAND_A);
        let sum: u64 = product.wrapping_add(RAND_C);
        proof {
            lemma_step(self.state, product, sum);
        }
        self.state = sum;
        let high: u64 = sum >> 32;
        assert(high == sum / 0x1_0000_0000 && high <= 0xffff_ffff) by (bit_vector)
            requires
                high == sum >> 32,
        ;
        high as u32
    }
}

/// The values drawn from a seed are a function of the seed alone: one more
/// draw appends the output of the next state to the draws before it.
pub proof fn lemma_draws_extend(seed: u64, n: nat)
    ensures
        draws(seed, n).len() == n,
        state_after(seed, n + 1) == next_state(state_after(seed, n)),
        draws(seed, n + 1) == draws(seed, n).push(output(state_after(seed, n + 1))),
{
    assert(draws(seed, n + 1) =~= draws(seed, n).push(output(state_after(seed, n + 1))));
}

proof fn lemma_step(state: u64, product: u64, sum: u64)
    requires
        product == vstd::wrapping::u64_specs::wrapping_mul(state, RAND_A),
        sum == vstd::wrapping::u64_specs::wrapping_add(product, RAND_C),
    ensures
        sum == next_state(state),
{
}

} // verus!
