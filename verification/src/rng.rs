//! splitmix64 PRNG used to deterministically generate static tables (Zobrist
//! keys).

use vstd::prelude::*;
use vstd::wrapping::u64_specs::{wrapping_add, wrapping_mul};

verus! {

/// The splitmix64 state increment.
pub const GAMMA: u64 = 0x9E37_79B9_7F4A_7C15;

/// The splitmix64 output function.
pub open spec fn mix_spec(z: u64) -> u64 {
    let a = wrapping_mul(z ^ (z >> 30u64), 0xBF58_476D_1CE4_E5B9u64);
    let b = wrapping_mul(a ^ (a >> 27u64), 0x94D0_49BB_1331_11EBu64);
    b ^ (b >> 31u64)
}

/// The state of a generator seeded with `seed` after `n` draws.
pub open spec fn state_after(seed: u64, n: nat) -> u64
    decreases n,
{
    if n == 0 {
        seed
    } else {
        wrapping_add(state_after(seed, (n - 1) as nat), GAMMA)
    }
}

/// The `n`-th draw (counting from 1) of a generator seeded with `seed`.
pub open spec fn nth_draw(seed: u64, n: nat) -> u64 {
    mix_spec(state_after(seed, n))
}

pub fn mix(z: u64) -> (r: u64)
    ensures
        r == mix_spec(z),
{
    let a = (z ^ (z >> 30)).wrapping_mul(0xBF58_476D_1CE4_E5B9);
    let b = (a ^ (a >> 27)).wrapping_mul(0x94D0_49BB_1331_11EB);
    b ^ (b >> 31)
}

/// The state after `n` draws, in closed form: `seed + n * GAMMA` modulo 2^64.
pub proof fn lemma_state_after(seed: u64, n: nat)
    ensures
        state_after(seed, n) as int == (seed + n * GAMMA) % 0x1_0000_0000_0000_0000,
    decreases n,
{
    if n > 0 {
        lemma_state_after(seed, (n - 1) as nat);
        let p = state_after(seed, (n - 1) as nat) as int;
        let m = 0x1_0000_0000_0000_0000int;
        let x = seed + (n - 1) * GAMMA;
        assert(n * GAMMA == (n - 1) * GAMMA + GAMMA) by (nonlinear_arith);
        assert(p == x % m);
        assert((x % m + GAMMA) % m == (x + GAMMA) % m) by {
            vstd::arithmetic::div_mod::lemma_add_mod_noop(x, GAMMA as int, m);
            vstd::arithmetic::div_mod::lemma_mod_twice(x, m);
            vstd::arithmetic::div_mod::lemma_small_mod(GAMMA as nat, m as nat);
        }
        assert((n - 1) * GAMMA >= 0) by (nonlinear_arith)
            requires
                n >= 1,
        ;
        vstd::arithmetic::div_mod::lemma_mod_bound(x, m);
    }
}

pub(crate) struct SplitMix64(pub(crate) u64);

impl SplitMix64 {
    pub(crate) fn new(seed: u64) -> (r: SplitMix64)
        ensures
            r.0 == seed,
    {
        SplitMix64(seed)
    }

    pub(crate) fn next(&mut self) -> (r: u64)
        ensures
            final(self).0 == wrapping_add(old(self).0, GAMMA),
            r == mix_spec(final(self).0),
    {
        self.0 = self.0.wrapping_add(GAMMA);
        mix(self.0)
    }

    /// Sparse random number (AND of three draws) — good magic candidates.
    pub(crate) fn sparse(&mut self) -> (r: u64)
        ensures
            final(self).0 == wrapping_add(wrapping_add(wrapping_add(old(self).0, GAMMA), GAMMA), GAMMA),
            r == mix_spec(wrapping_add(old(self).0, GAMMA)) & mix_spec(
                wrapping_add(wrapping_add(old(self).0, GAMMA), GAMMA),
            ) & mix_spec(final(self).0),
    {
        let a = self.next();
        let b = self.next();
        let c = self.next();
        a & b & c
    }
}

} // verus!
