//! A small deterministic generator.
use crate::binary32::Binary32;
use vstd::arithmetic::mul::*;
use vstd::arithmetic::power2::*;
use vstd::prelude::*;

verus! {

/// SplitMix64. A research run has to be reproducible from a seed, and this is
/// the whole requirement.
#[derive(Clone, Copy, Debug)]
pub struct Rng {
    state: u64,
}

/// The state after one draw.
pub open spec fn advanced(state: u64) -> u64 {
    state.wrapping_add(0x9E37_79B9_7F4A_7C15)
}

/// The state after `draws` draws.
pub open spec fn advanced_by(state: u64, draws: nat) -> u64
    decreases draws,
{
    if draws == 0 {
        state
    } else {
        advanced(advanced_by(state, (draws - 1) as nat))
    }
}

/// The first mixing step.
pub open spec fn mix_first(z: u64) -> u64 {
    (z ^ (z >> 30)).wrapping_mul(0xBF58_476D_1CE4_E5B9)
}

/// The second mixing step.
pub open spec fn mix_second(z: u64) -> u64 {
    (z ^ (z >> 27)).wrapping_mul(0x94D0_49BB_1331_11EB)
}

/// The value drawn at a state that has been advanced.
pub open spec fn mixed(state: u64) -> u64 {
    let z = mix_second(mix_first(state));
    z ^ (z >> 31)
}

/// The value that a draw from `state` gives.
pub open spec fn drawn(state: u64) -> u64 {
    mixed(advanced(state))
}

/// The word of the number in `[0, 1)` that a draw from `state` gives: its
/// upper 24 bits over `2^24`.
pub open spec fn drawn_unit_bits(state: u64) -> u32 {
    Binary32::ratio_bits((drawn(state) >> 40) as nat, 0x100_0000)
}

impl Rng {
    /// The state that the next draw starts from.
    pub closed spec fn seed(self) -> u64 {
        self.state
    }

    /// Seed the generator.
    pub fn new(seed: u64) -> (rng: Self)
        ensures
            rng.seed() == seed,
    {
        Rng { state: seed }
    }

    /// Next raw value.
    pub fn next_u64(&mut self) -> (v: u64)
        ensures
            v == drawn(old(self).seed()),
            final(self).seed() == advanced(old(self).seed()),
    {
        self.state = self.state.wrapping_add(0x9E37_79B9_7F4A_7C15);
        let mut z: u64 = self.state;
        z = (z ^ (z >> 30)).wrapping_mul(0xBF58_476D_1CE4_E5B9);
        z = (z ^ (z >> 27)).wrapping_mul(0x94D0_49BB_1331_11EB);
        z ^ (z >> 31)
    }

    /// Uniform in `[0, 1)`.
    pub fn next_f32(&mut self) -> (x: Binary32)
        ensures
            x.bits == drawn_unit_bits(old(self).seed()),
            final(self).seed() == advanced(old(self).seed()),
    {
        Binary32::ratio(self.next_u64() >> 40, 0x100_0000)
    }

    /// Uniform in `0..n`.
    pub fn below(&mut self, n: usize) -> (i: usize)
        ensures
            n == 0 ==> i == 0 && final(self).seed() == old(self).seed(),
            n > 0 ==> i == drawn(old(self).seed()) % (n as u64) && i < n && final(self).seed()
                == advanced(old(self).seed()),
    {
        if n == 0 {
            0
        } else {
            (self.next_u64() % n as u64) as usize
        }
    }
}

/// A draw in the unit interval is at least zero and below one.
pub proof fn law_unit_draws_are_below_one(state: u64)
    ensures
        ({
            let x = Binary32 { bits: drawn_unit_bits(state) };
            &&& x.finite()
            &&& 0 <= x.units() < crate::binary32::one_units()
            &&& x.bits <= 0x3F7F_FFFF
        }),
{
    let v = drawn(state);
    let k = v >> 40;
    assert(k <= 0xFF_FFFF) by (bit_vector)
        requires
            k == v >> 40,
    ;
    let top: nat = 0xFF_FFFF;
    crate::arithmetic::lemma_ratio_monotone(k as nat, top, 0x100_0000);
    lemma_largest_unit();
    crate::binary32::lemma_one_units();
    let x = Binary32 { bits: drawn_unit_bits(state) };
    crate::binary32::lemma_magnitude_compares(x.word(), crate::binary32::ONE_BITS as nat);
}

/// The largest draw: `2^24 - 1` over `2^24`.
proof fn lemma_largest_unit()
    ensures
        Binary32::ratio_bits(0xFF_FFFF, 0x100_0000) == 0x3F7F_FFFF,
{
    let m: nat = 0xFF_FFFF;
    lemma2_to64();
    lemma_mul_basics(m as int);
    crate::arithmetic::lemma_exact_count(m, m, 149);
    assert(0x100_0000 == 0x80_0000 * pow2(1));
    crate::arithmetic::lemma_exact_count(0x100_0000, 0x80_0000, 150);
    // Both sides are `m * 2^298`.
    lemma_pow2_adds(149, 149);
    lemma_pow2_adds(23, 150);
    lemma_pow2_adds(125, 173);
    let (one, x, y) = (pow2(149), pow2(125), pow2(150));
    assert((m * one) * one == m * (one * one)) by (nonlinear_arith);
    assert((m * x) * (0x80_0000 * y) == m * (x * (0x80_0000 * y))) by (nonlinear_arith);
    crate::arithmetic::lemma_exact_quotient(m, 149, 0x80_0000, 150, m, 125);
}

/// The uniform noise draw is never clean: one less a draw is above zero.
pub proof fn law_one_less_a_draw_is_positive(state: u64)
    ensures
        ({
            let t = Binary32 {
                bits: (Binary32 { bits: crate::binary32::ONE_BITS }).difference_bits(
                    (Binary32 { bits: drawn_unit_bits(state) }),
                ),
            };
            t.finite() && 0 < t.units() <= crate::binary32::one_units()
        }),
{
    law_unit_draws_are_below_one(state);
    let r = drawn_unit_bits(state);
    crate::arithmetic::lemma_one_minus(r);
    crate::binary32::lemma_one_units();
    let one = crate::binary32::one_units();
    let v = (one - crate::binary32::magnitude(r as nat)) as nat;
    let t = (Binary32 { bits: crate::binary32::ONE_BITS }).difference_bits((Binary32 { bits: r }));
    // The least unit is itself a word, so a whole number of units above zero
    // rounds to a word above zero.
    crate::binary32::lemma_magnitude_step(0);
    lemma2_to64();
    crate::binary32::lemma_nearest_exact(1, 1, 1);
    crate::binary32::lemma_nearest_monotone(1, 1, v, 1);
    crate::binary32::lemma_magnitude_compares(0, t as nat);
    crate::binary32::lemma_magnitude_compares(t as nat, crate::binary32::ONE_BITS as nat);
}

/// A draw adds a fixed odd step to the state, modulo `2^64`, and scrambles the
/// sum: twice it is folded over its own upper part and multiplied, modulo `2^64`,
/// and once more it is folded. The folds drop the lowest 30, 27 and 31 bits.
pub proof fn law_a_draw_scrambles_the_stepped_state(state: u64)
    ensures
        ({
            let step = 0x9E37_79B9_7F4A_7C15u64 as int;
            let s = ((state + step) % 0x1_0000_0000_0000_0000) as u64;
            let a = (((s ^ (s / 0x4000_0000)) * 0xBF58_476D_1CE4_E5B9u64)
                % 0x1_0000_0000_0000_0000) as u64;
            let b = (((a ^ (a / 0x800_0000)) * 0x94D0_49BB_1331_11EBu64)
                % 0x1_0000_0000_0000_0000) as u64;
            &&& advanced(state) == s
            &&& drawn(state) == b ^ (b / 0x8000_0000)
        }),
{
    let s = advanced(state);
    let a = mix_first(s);
    let b = mix_second(a);
    assert(s >> 30 == s / 0x4000_0000) by (bit_vector);
    assert(a >> 27 == a / 0x800_0000) by (bit_vector);
    assert(b >> 31 == b / 0x8000_0000) by (bit_vector);
}

} // verus!
