use vstd::prelude::*;
use vstd::arithmetic::div_mod::{lemma_add_mod_noop, lemma_mod_multiples_vanish, lemma_small_mod};

verus! {

/// The constant that Mulberry32 adds to its state on every step.
pub const MULBERRY_INCREMENT: u32 = 0x6D2B79F5;

/// Mulberry32: a small, fast, seedable pseudo-random generator whose whole
/// state is one `u32`.
pub struct Rng(u32);

impl View for Rng {
    type V = u32;

    closed spec fn view(&self) -> u32 {
        self.0
    }
}

/// The state that follows `state`.
pub open spec fn next_state(state: u32) -> u32 {
    state.wrapping_add(MULBERRY_INCREMENT)
}

/// The number that Mulberry32 emits once its state has become `state`.
pub open spec fn mulberry_output(state: u32) -> u32 {
    let z1 = (state ^ (state >> 15u32)).wrapping_mul(state | 1u32);
    let z2 = z1 ^ z1.wrapping_add((z1 ^ (z1 >> 7u32)).wrapping_mul(z1 | 61u32));
    z2 ^ (z2 >> 14u32)
}

/// The state after `k` steps from `state`.
pub open spec fn state_after(state: u32, k: nat) -> u32
    decreases k,
{
    if k == 0 {
        state
    } else {
        next_state(state_after(state, (k - 1) as nat))
    }
}

/// `k` steps of the generator add `k` times the increment to its state,
/// modulo 2^32: `k` calls of `next_u32` on a generator seeded with `s` leave
/// it where a fresh generator seeded with `s + k * MULBERRY_INCREMENT` (mod
/// 2^32) starts.
pub proof fn lemma_state_after(state: u32, k: nat)
    ensures
        state_after(state, k) as int == (state + k * MULBERRY_INCREMENT) % 0x1_0000_0000,
    decreases k,
{
    let m: int = 0x1_0000_0000;
    let c: int = MULBERRY_INCREMENT as int;
    if k == 0 {
        lemma_small_mod(state as nat, m as nat);
    } else {
        let j = (k - 1) as nat;
        lemma_state_after(state, j);
        let a: int = state + j * c;
        assert(a + c == state + k * c) by (nonlinear_arith)
            requires
                a == state + j * c,
                j == k - 1,
        ;
        lemma_small_mod(c as nat, m as nat);
        lemma_add_mod_noop(a, c, m);
    }
}

/// The generator's state comes back to where it began after 2^32 steps.
pub proof fn lemma_state_period(state: u32)
    ensures
        state_after(state, 0x1_0000_0000) == state,
{
    let m: int = 0x1_0000_0000;
    lemma_state_after(state, m as nat);
    lemma_mod_multiples_vanish(MULBERRY_INCREMENT as int, state as int, m);
    lemma_small_mod(state as nat, m as nat);
    assert(m * MULBERRY_INCREMENT + state == state + m * MULBERRY_INCREMENT);
}

/// One more step first is one more step.
pub proof fn lemma_state_after_next(state: u32, k: nat)
    ensures
        state_after(next_state(state), k) == state_after(state, k + 1),
    decreases k,
{
    assert(state_after(state, 0) == state);
    if k > 0 {
        lemma_state_after_next(state, (k - 1) as nat);
        assert(state_after(state, k) == next_state(state_after(state, (k - 1) as nat)));
    }
}

/// The number drawn by one call of `next_u32` on a generator in `state`.
pub open spec fn draw_u32(state: u32) -> u32 {
    mulberry_output(next_state(state))
}

/// The number drawn by one call of `next_usize(n)` on a generator in `state`.
pub open spec fn draw_below(state: u32, n: usize) -> usize
    recommends
        n > 0,
{
    ((draw_u32(state) as usize) % n) as usize
}

impl Rng {
    /// A generator seeded with `seed`.
    pub fn new(seed: u32) -> (r: Self)
        ensures
            r@ == seed,
    {
        Rng(seed)
    }

    /// Returns the next pseudo-random `u32`.
    pub fn next_u32(&mut self) -> (r: u32)
        ensures
            final(self)@ == next_state(old(self)@),
            r == draw_u32(old(self)@),
    {
        self.0 = self.0.wrapping_add(MULBERRY_INCREMENT);
        let mut z = self.0;
        z = (z ^ (z >> 15u32)).wrapping_mul(z | 1u32);
        z ^= z.wrapping_add((z ^ (z >> 7u32)).wrapping_mul(z | 61u32));
        z ^ (z >> 14u32)
    }

    /// Returns a value in `[0, n)`.
    pub fn next_usize(&mut self, n: usize) -> (r: usize)
        requires
            n > 0,
        ensures
            final(self)@ == next_state(old(self)@),
            r == draw_below(old(self)@, n),
            r < n,
    {
        (self.next_u32() as usize) % n
    }
}

} // verus!
