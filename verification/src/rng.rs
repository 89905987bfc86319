//! A xorshift64 pseudo-random generator for reproducible sampling.

use vstd::prelude::*;
use crate::rounding::{round_to_f64, round_to_f64_exact, scaled_index, lemma_scaled_index_in_range};

verus! {

/// One transition of the xorshift64 generator: shifts by 13 left, 7 right
/// and 17 left, each folded back in with exclusive or (bits shifted past
/// the top are dropped).
pub open spec fn xorshift_step(x: u64) -> u64 {
    let a = x ^ (x << 13u64);
    let b = a ^ (a >> 7u64);
    b ^ (b << 17u64)
}

/// Zero is a fixed point of the transition: a generator in state zero only
/// ever produces zero, which is why a seed must be non-zero.
pub proof fn lemma_zero_is_fixed_point()
    ensures
        xorshift_step(0) == 0,
{
    assert(xorshift_step(0) == 0) by (bit_vector);
}

/// The transition is one-to-one: distinct states have distinct successors.
pub proof fn lemma_step_injective(x: u64, y: u64)
    ensures
        xorshift_step(x) == xorshift_step(y) ==> x == y,
{
    let ax = x ^ (x << 13u64);
    let ay = y ^ (y << 13u64);
    let bx = ax ^ (ax >> 7u64);
    let by = ay ^ (ay >> 7u64);
    assert(bx ^ (bx << 17u64) == by ^ (by << 17u64) ==> bx == by) by (bit_vector);
    assert(ax ^ (ax >> 7u64) == ay ^ (ay >> 7u64) ==> ax == ay) by (bit_vector);
    assert(x ^ (x << 13u64) == y ^ (y << 13u64) ==> x == y) by (bit_vector);
}

/// The transition is the xorshift64 recurrence with shifts 13, 7 and 17:
/// x1 = x ^ (x << 13), x2 = x1 ^ (x1 >> 7), result = x2 ^ (x2 << 17).
pub proof fn lemma_step_is_xorshift_13_7_17(x: u64)
    ensures
        ({
            let x1 = x ^ (x << 13u64);
            let x2 = x1 ^ (x1 >> 7u64);
            xorshift_step(x) == x2 ^ (x2 << 17u64)
        }),
{
}

/// Undoes `y = x ^ (x << 17)`.
pub open spec fn undo_shl17(y: u64) -> u64 {
    y ^ (y << 17u64) ^ (y << 34u64) ^ (y << 51u64)
}

/// Undoes `y = x ^ (x >> 7)`.
pub open spec fn undo_shr7(y: u64) -> u64 {
    y ^ (y >> 7u64) ^ (y >> 14u64) ^ (y >> 21u64) ^ (y >> 28u64) ^ (y >> 35u64) ^ (y >> 42u64)
        ^ (y >> 49u64) ^ (y >> 56u64) ^ (y >> 63u64)
}

/// Undoes `y = x ^ (x << 13)`.
pub open spec fn undo_shl13(y: u64) -> u64 {
    y ^ (y << 13u64) ^ (y << 26u64) ^ (y << 39u64) ^ (y << 52u64)
}

/// The state a generator was in one transition before it reached `y`.
pub open spec fn previous_state(y: u64) -> u64 {
    undo_shl13(undo_shr7(undo_shl17(y)))
}

/// Stepping back from the value a generator produced recovers the state it
/// had: the stream can be rewound, and stepping forward again from the
/// recovered state reproduces the value.
pub proof fn lemma_previous_state_inverts_step(x: u64)
    ensures
        previous_state(xorshift_step(x)) == x,
        xorshift_step(previous_state(x)) == x,
{
    let x1 = x ^ (x << 13u64);
    let x2 = x1 ^ (x1 >> 7u64);
    let x3 = x2 ^ (x2 << 17u64);
    assert(undo_shl17(x3) == x2) by (bit_vector)
        requires
            x3 == x2 ^ (x2 << 17u64),
    ;
    assert(undo_shr7(x2) == x1) by (bit_vector)
        requires
            x2 == x1 ^ (x1 >> 7u64),
    ;
    assert(undo_shl13(x1) == x) by (bit_vector)
        requires
            x1 == x ^ (x << 13u64),
    ;
    let y1 = undo_shl17(x);
    let y2 = undo_shr7(y1);
    let y3 = undo_shl13(y2);
    assert(y3 ^ (y3 << 13u64) == y2) by (bit_vector)
        requires
            y3 == y2 ^ (y2 << 13u64) ^ (y2 << 26u64) ^ (y2 << 39u64) ^ (y2 << 52u64),
    ;
    assert(y2 ^ (y2 >> 7u64) == y1) by (bit_vector)
        requires
            y2 == y1 ^ (y1 >> 7u64) ^ (y1 >> 14u64) ^ (y1 >> 21u64) ^ (y1 >> 28u64) ^ (y1
                >> 35u64) ^ (y1 >> 42u64) ^ (y1 >> 49u64) ^ (y1 >> 56u64) ^ (y1 >> 63u64),
    ;
    assert(y1 ^ (y1 << 17u64) == x) by (bit_vector)
        requires
            y1 == x ^ (x << 17u64) ^ (x << 34u64) ^ (x << 51u64),
    ;
}

/// A non-zero state never turns into zero, so a generator seeded with a
/// non-zero value never gets stuck at the fixed point.
pub proof fn lemma_nonzero_state_stays_nonzero(x: u64)
    requires
        x != 0,
    ensures
        xorshift_step(x) != 0,
{
    lemma_zero_is_fixed_point();
    lemma_step_injective(x, 0);
}

/// The state after `k` transitions from `seed`: the `k`-th value a
/// generator seeded with `seed` produces (the seed itself for `k == 0`).
pub open spec fn state_after(seed: u64, k: nat) -> u64
    decreases k,
{
    if k == 0 {
        seed
    } else {
        xorshift_step(state_after(seed, (k - 1) as nat))
    }
}

/// However long it runs, a generator seeded with a non-zero value never
/// produces zero.
pub proof fn lemma_stream_never_zero(seed: u64, k: nat)
    requires
        seed != 0,
    ensures
        state_after(seed, k) != 0,
    decreases k,
{
    if k > 0 {
        lemma_stream_never_zero(seed, (k - 1) as nat);
        lemma_nonzero_state_stays_nonzero(state_after(seed, (k - 1) as nat));
    }
}

/// A simple xorshift64 PRNG for reproducible sampling.
///
/// Not cryptographically secure. Its whole state is one `u64`; the view of
/// a generator is that state.
#[derive(Debug)]
pub struct Xorshift64 {
    state: u64,
}

impl View for Xorshift64 {
    type V = u64;

    closed spec fn view(&self) -> u64 {
        self.state
    }
}

impl Clone for Xorshift64 {
    /// A generator in the same state, which yields the same stream.
    fn clone(&self) -> (r: Self)
        ensures
            r@ == self@,
    {
        Xorshift64 { state: self.state }
    }
}

/// The seed of [`Xorshift64::default_seed`].
pub const DEFAULT_SEED: u64 = 0xDEAD_BEEF_CAFE_BABE;

impl Xorshift64 {
    /// Create a new generator with the given seed. The seed must be non-zero:
    /// zero is a fixed point of the transition.
    pub fn new(seed: u64) -> (r: Self)
        requires
            seed != 0,
        ensures
            r@ == seed,
    {
        Xorshift64 { state: seed }
    }

    /// Create a generator seeded with [`DEFAULT_SEED`] (useful for deterministic tests).
    pub fn default_seed() -> (r: Self)
        ensures
            r@ == DEFAULT_SEED,
    {
        Self::new(DEFAULT_SEED)
    }

    /// A generator resumed in `state`, as a saved generator is restored. A
    /// zero state is taken as it is and yields zero forever.
    pub fn from_state(state: u64) -> (r: Self)
        ensures
            r@ == state,
    {
        Xorshift64 { state }
    }

    /// The current state: the seed, or the last value produced.
    pub fn state(&self) -> (r: u64)
        ensures
            r == self@,
    {
        self.state
    }

    /// Generate the next pseudo-random `u64`: the new state.
    pub fn next_u64(&mut self) -> (r: u64)
        ensures
            r == xorshift_step(old(self)@),
            final(self)@ == r,
            // The xorshift64 recurrence with shifts 13, 7, 17, on the previous state.
            r == ({
                let s = old(self)@;
                let x1 = s ^ (s << 13u64);
                let x2 = x1 ^ (x1 >> 7u64);
                x2 ^ (x2 << 17u64)
            }),
    {
        let mut x = self.state;
        x ^= x << 13u64;
        x ^= x >> 7u64;
        x ^= x << 17u64;
        self.state = x;
        x
    }

    /// The numerator `k` of the next uniform sample `k / 2^53` in [0, 1):
    /// the top 53 bits of the next `u64`.
    pub fn next_unit_numerator(&mut self) -> (k: u64)
        ensures
            final(self)@ == xorshift_step(old(self)@),
            k == xorshift_step(old(self)@) >> 11u64,
            k < 0x20_0000_0000_0000,
    {
        let x = self.next_u64();
        assert(x >> 11u64 < 0x20_0000_0000_0000u64) by (bit_vector);
        x >> 11u64
    }

    /// Generate a pseudo-random `usize` in [0, n), as the `f64` expression
    /// `((k as f64 / 2^53) * (n as f64)) as usize` of the next numerator `k`
    /// computes it. For `n == 0` the result is 0.
    pub fn next_usize(&mut self, n: usize) -> (r: usize)
        ensures
            final(self)@ == xorshift_step(old(self)@),
            r == scaled_index((xorshift_step(old(self)@) >> 11u64) as nat, n as nat),
            // The numerator times n rounded to an f64, that product rounded
            // again, then floored after dividing by 2^53.
            r == round_to_f64(((xorshift_step(old(self)@) >> 11u64) as nat) * round_to_f64(n as nat))
                / 0x20_0000_0000_0000nat,
            n > 0 ==> r < n,
            n == 0 ==> r == 0,
    {
        let k = self.next_unit_numerator();
        let rounded_n = round_to_f64_exact(n as u128);
        assert(k as u128 * rounded_n <= u128::MAX / 2) by (nonlinear_arith)
            requires
                k < 0x20_0000_0000_0000,
                rounded_n <= 2 * (n as u128) + 1,
                n <= usize::MAX,
                usize::MAX <= u64::MAX,
        ;
        let product = round_to_f64_exact(k as u128 * rounded_n);
        let index = product / 0x20_0000_0000_0000;
        proof {
            lemma_scaled_index_in_range(k as nat, n as nat);
        }
        index as usize
    }
}

} // verus!
