//! Deterministic pseudo-random sampler state.
//!
//! The sampler is a scalar xorshift-style generator. Each draw is an exact
//! function of the previous state, so renders are reproducible: the same
//! seed always yields the same stream. The state update is guaranteed never
//! to map a state to itself.

use vstd::prelude::*;

verus! {

/// One raw xorshift step, before fixed-point avoidance.
pub open spec fn xorshift_step(s: u32) -> u32 {
    let a = s.wrapping_add(42);
    let b = a ^ (a << 13u32);
    let c = b ^ (b >> 17u32);
    c ^ (c << 5u32)
}

/// The state that follows `s`: the xorshift step, perturbed when the step
/// would leave the state unchanged.
pub open spec fn next_state(s: u32) -> u32 {
    if xorshift_step(s) == s {
        s.wrapping_add(1)
    } else {
        xorshift_step(s)
    }
}

/// The state after `n` draws from initial state `s`.
pub open spec fn state_after(s: u32, n: nat) -> u32
    decreases n,
{
    if n == 0 {
        s
    } else {
        next_state(state_after(s, (n - 1) as nat))
    }
}

/// The raw values that `n` successive draws yield from initial state `s`.
pub open spec fn draw_stream(s: u32, n: nat) -> Seq<u32>
    decreases n,
{
    if n == 0 {
        Seq::empty()
    } else {
        draw_stream(s, (n - 1) as nat).push(state_after(s, n))
    }
}

/// The state update never has a fixed point: every draw changes the state.
pub proof fn lemma_no_fixed_point(s: u32)
    ensures
        next_state(s) != s,
{
    if xorshift_step(s) == s {
        if s == u32::MAX {
            assert(s.wrapping_add(1) == 0);
        } else {
            assert(s.wrapping_add(1) == s + 1);
        }
    }
}

pub struct Rng {
    pub seed: u32,
}

impl Rng {
    pub fn new(seed: u32) -> (r: Self)
        ensures
            r.seed == seed,
    {
        Rng { seed }
    }

    /// Advance the state once and return the new raw value.
    pub fn next_raw(&mut self) -> (r: u32)
        ensures
            final(self).seed == next_state(old(self).seed),
            r == final(self).seed,
    {
        let a = self.seed.wrapping_add(42);
        let b = a ^ (a << 13u32);
        let c = b ^ (b >> 17u32);
        let mut d = c ^ (c << 5u32);
        if d == self.seed {
            d = self.seed.wrapping_add(1);
        }
        self.seed = d;
        d
    }

    /// One draw reduced to its top 24 bits: the numerator of a uniform
    /// sample with denominator 2^24, so the scaled value always lies in
    /// [0, 1).
    pub fn uniform_bits(&mut self) -> (r: u32)
        ensures
            final(self).seed == next_state(old(self).seed),
            r == final(self).seed >> 8u32,
            r < 16777216,
    {
        let v = self.next_raw();
        proof {
            assert(v >> 8u32 < 16777216) by (bit_vector);
        }
        v >> 8u32
    }

    /// Draw `n` raw values in a row.
    pub fn draw_many(&mut self, n: usize) -> (r: Vec<u32>)
        ensures
            r@ == draw_stream(old(self).seed, n as nat),
            final(self).seed == state_after(old(self).seed, n as nat),
    {
        let mut out: Vec<u32> = Vec::new();
        let mut i: usize = 0;
        while i < n
            invariant
                i <= n,
                out@ == draw_stream(old(self).seed, i as nat),
                self.seed == state_after(old(self).seed, i as nat),
            decreases n - i,
        {
            let v = self.next_raw();
            out.push(v);
            i = i + 1;
        }
        out
    }
}

/// Two samplers started from the same seed yield the same draw stream,
/// however many draws are taken: the stream is a function of the seed alone.
pub proof fn lemma_sampler_deterministic(a: Rng, b: Rng, n: nat)
    requires
        a.seed == b.seed,
    ensures
        draw_stream(a.seed, n) == draw_stream(b.seed, n),
{
}

} // verus!
