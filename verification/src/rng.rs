//! The linear congruential generator that picks the computer's moves.

use vstd::prelude::*;

verus! {

/// The multiplier of the recurrence.
pub const MULTIPLIER: u64 = 6364136223846793005;

/// The increment of the recurrence.
pub const INCREMENT: u64 = 1442695040888963407;

/// One step of the recurrence: `state * MULTIPLIER + INCREMENT` modulo 2^64.
pub open spec fn lcg_next(state: u64) -> u64 {
    ((state as int * MULTIPLIER as int + INCREMENT as int) % 0x1_0000_0000_0000_0000) as u64
}

/// The state after `n` steps from `state`.
pub open spec fn lcg_nth(state: u64, n: nat) -> u64
    decreases n,
{
    if n == 0 {
        state
    } else {
        lcg_next(lcg_nth(state, (n - 1) as nat))
    }
}

/// The first `n` values drawn from a generator that starts at `state`.
pub open spec fn draws(state: u64, n: nat) -> Seq<u64> {
    Seq::new(n, |i: int| lcg_nth(state, (i + 1) as nat))
}

/// The value that a draw in `min..=max` maps the raw value `raw` to.
pub open spec fn in_range(raw: u64, min: usize, max: usize) -> int {
    raw as int % (max - min + 1) + min
}

/// A 64-bit linear congruential generator.
pub struct SimpleRNG {
    pub state: u64,
}

impl SimpleRNG {
    /// A generator whose state is `seed`.
    pub fn new(seed: u64) -> (rng: SimpleRNG)
        ensures
            rng.state == seed,
    {
        SimpleRNG { state: seed }
    }

    /// Advances the state by one step of the recurrence and returns it.
    pub fn next(&mut self) -> (value: u64)
        ensures
            final(self).state == lcg_next(old(self).state),
            value == final(self).state,
    {
        let product: u64 = self.state.wrapping_mul(MULTIPLIER);
        self.state = product.wrapping_add(INCREMENT);
        assert(self.state == lcg_next(old(self).state)) by {
            let s = old(self).state as int;
            let m = MULTIPLIER as int;
            let c = INCREMENT as int;
            let r = 0x1_0000_0000_0000_0000int;
            assert(product as int == (s * m) % r);
            assert(((s * m) % r + c) % r == (s * m + c) % r) by {
                vstd::arithmetic::div_mod::lemma_add_mod_noop(s * m, c, r);
                vstd::arithmetic::div_mod::lemma_small_mod(c as nat, r as nat);
                vstd::arithmetic::div_mod::lemma_mod_twice(s * m, r);
                vstd::arithmetic::div_mod::lemma_add_mod_noop((s * m) % r, c, r);
            }
        }
        self.state
    }

    /// Draws once and maps the value into `min..=max`.
    pub fn rand_range(&mut self, min: usize, max: usize) -> (value: usize)
        requires
            min <= max,
        ensures
            final(self).state == lcg_next(old(self).state),
            value as int == in_range(final(self).state, min, max),
            min <= value <= max,
    {
        let span: u128 = (max - min) as u128 + 1;
        let raw: u64 = self.next();
        let offset: u128 = raw as u128 % span;
        (offset as usize) + min
    }

    /// As `rand_range`, but answers `None`, without drawing, when `max < min`.
    pub fn checked_rand_range(&mut self, min: usize, max: usize) -> (value: Option<usize>)
        ensures
            max < min ==> value is None && *final(self) == *old(self),
            min <= max ==> final(self).state == lcg_next(old(self).state) && value == Some(
                in_range(final(self).state, min, max) as usize,
            ),
    {
        if max < min {
            None
        } else {
            Some(self.rand_range(min, max))
        }
    }
}

/// Drawing once more appends one step of the recurrence from the last state.
pub proof fn lemma_draws_step(state: u64, n: nat)
    ensures
        draws(state, n + 1) == draws(state, n).push(lcg_next(lcg_nth(state, n))),
{
    assert(draws(state, n + 1) =~= draws(state, n).push(lcg_next(lcg_nth(state, n))));
}

/// Two generators with the same seed give the same values, draw for draw, and
/// are left in the same state, however many values are drawn.
pub proof fn lemma_draws_reproducible(first: SimpleRNG, second: SimpleRNG, n: nat)
    requires
        first.state == second.state,
    ensures
        draws(first.state, n) == draws(second.state, n),
        lcg_nth(first.state, n) == lcg_nth(second.state, n),
{
}

} // verus!
