//! A fast pseudorandom number generator.

use vstd::prelude::*;
use vstd::arithmetic::power2::{
    lemma2_to64,
    lemma_pow2_adds,
    lemma_pow2_strictly_increases,
    lemma_pow2_unfold,
    pow2,
};
use crate::number::magnitude::{units_of_bits, Magnitude};
use crate::number::rounding::one;

verus! {

/// What is taken off the seed.
pub const NUMS_0: u64 = 0x9E377A00;

/// By what the seed is multiplied.
pub const NUMS_1: u64 = 0x5851F42D4C957F2D;

/// The step from one state to the next, an odd number.
pub const NUMS_2: u64 = 0xA0761D6478BD642F;

/// By what a state is multiplied for its number.
pub const NUMS_3: u64 = 0xE7037ED1A0B428DB;

/// `x` with its bits moved right by seven places, the low seven coming in
/// again at the top.
pub open spec fn rotate_right_seven(x: u64) -> u64 {
    (x / 0x80 + (x % 0x80) * 0x200_0000_0000_0000) as u64
}

/// `a + b` modulo 2^64.
pub open spec fn add_mod64(a: u64, b: u64) -> u64 {
    ((a + b) % 0x1_0000_0000_0000_0000) as u64
}

/// `a * b` modulo 2^64.
pub open spec fn mul_mod64(a: u64, b: u64) -> u64 {
    ((a as nat * b as nat) % 0x1_0000_0000_0000_0000) as u64
}

/// The state that a generator starts from with the given seed.
pub open spec fn seeded_state(seed: u64) -> u64 {
    mul_mod64(
        rotate_right_seven(((seed - NUMS_0) % 0x1_0000_0000_0000_0000) as u64),
        NUMS_1,
    )
}

/// The state after `state`.
pub open spec fn next_state(state: u64) -> u64 {
    add_mod64(state, NUMS_2)
}

/// The number that the generator gives in the state `state`: the two halves
/// of the 128 bit product of the state and a multiple of it, combined by
/// exclusive or.
pub open spec fn state_output(state: u64) -> u64 {
    let product = state as nat * mul_mod64(state, NUMS_3) as nat;
    ((product / 0x1_0000_0000_0000_0000) as u64) ^ ((product % 0x1_0000_0000_0000_0000) as u64)
}

/// The low 32 bits of the number that the generator gives in the state
/// `state`.
pub open spec fn state_output32(state: u64) -> u32 {
    (state_output(state) % 0x1_0000_0000) as u32
}

/// The high 32 bits of the product of two 32 bit numbers.
pub open spec fn mul_high(a: u32, b: u32) -> u32 {
    ((a as nat * b as nat) / 0x1_0000_0000) as u32
}

/// The low 32 bits of the product of two 32 bit numbers.
pub open spec fn mul_low(a: u32, b: u32) -> u32 {
    ((a as nat * b as nat) % 0x1_0000_0000) as u32
}

/// The number of 32 bit numbers that are left over when the 2^32 of them are
/// dealt out evenly to `cap` values: 2^32 modulo `cap`.
pub open spec fn rejection_threshold(cap: u32) -> int {
    if cap == 0 {
        0
    } else {
        (0x1_0000_0000 - cap) % (cap as int)
    }
}

/// Whether the number of the state `state` is taken for a number below
/// `cap`. It is not where it is one of the first few of those that give the
/// same number below `cap`, which would make that number more likely than
/// others.
pub open spec fn accepts(state: u64, cap: u32) -> bool {
    mul_low(state_output32(state), cap) >= rejection_threshold(cap)
}

/// A state whose number is taken under every cap: its low 32 bits are 1.
pub open spec fn accepted_everywhere() -> u64 {
    0x8099_C4FE
}

/// The number of steps that lead from `state` to the state
/// [`accepted_everywhere`]. The generator goes through all 2^64 states in
/// turn, so there is such a number.
pub open spec fn steps_to_accepted(state: u64) -> nat {
    ((((accepted_everywhere() - state) % 0x1_0000_0000_0000_0000) * 0x939C_72E4_AF1E_62CF)
        % 0x1_0000_0000_0000_0000) as nat
}

/// The first state from `state` on whose number is taken for a number below
/// `cap`.
pub open spec fn accepted_state(state: u64, cap: u32) -> u64
    decreases steps_to_accepted(state),
    via accepted_state_decreases
{
    if accepts(state, cap) {
        state
    } else {
        accepted_state(next_state(state), cap)
    }
}

#[via_fn]
proof fn accepted_state_decreases(state: u64, cap: u32) {
    if !accepts(state, cap) {
        lemma_accepted_everywhere(cap);
        lemma_step_towards_accepted(state);
    }
}

/// The number of the state [`accepted_everywhere`] is taken under every
/// cap.
pub proof fn lemma_accepted_everywhere(cap: u32)
    ensures
        state_output32(accepted_everywhere()) == 1,
        accepts(accepted_everywhere(), cap),
{
    let state: u64 = 0x8099_C4FE;
    let multiple: u64 = 0x7E33_7321_4CEB_354A;
    assert(0x8099_C4FEnat * 0xE703_7ED1_A0B4_28DBnat == 0x740C_8243nat
        * 0x1_0000_0000_0000_0000nat + 0x7E33_7321_4CEB_354Anat) by (nonlinear_arith);
    assert(mul_mod64(state, 0xE703_7ED1_A0B4_28DB) == multiple);
    assert(0x8099_C4FEnat * 0x7E33_7321_4CEB_354Anat == 0x3F65_876Dnat
        * 0x1_0000_0000_0000_0000nat + 0x108E_4D26_3F65_876Cnat) by (nonlinear_arith);
    assert(0x3F65_876Du64 ^ 0x108E_4D26_3F65_876Cu64 == 0x108E_4D26_0000_0001u64) by (bit_vector);
    assert(state_output(state) == 0x108E_4D26_0000_0001u64);
    assert(1nat * cap as nat == cap);
    if cap > 0 {
        assert((0x1_0000_0000 - cap) % (cap as int) < cap);
    }
}

/// A step from a state other than [`accepted_everywhere`] leads to a state
/// that is one step nearer to it.
pub proof fn lemma_step_towards_accepted(state: u64)
    requires
        state != accepted_everywhere(),
    ensures
        steps_to_accepted(next_state(state)) == steps_to_accepted(state) - 1,
{
    let modulus: int = 0x1_0000_0000_0000_0000;
    let inverse: int = 0x939C_72E4_AF1E_62CF;
    let step: int = 0xA076_1D64_78BD_642F;
    let carry: int = 0x5C85_E2DE_8A9B_090E;
    assert(step * inverse == 1 + modulus * carry) by (nonlinear_arith)
        requires
            modulus == 0x1_0000_0000_0000_0000,
            inverse == 0x939C_72E4_AF1E_62CF,
            step == 0xA076_1D64_78BD_642F,
            carry == 0x5C85_E2DE_8A9B_090E,
    ;
    let next = next_state(state);
    let distance = (accepted_everywhere() - state) % modulus;
    let after = (accepted_everywhere() - next) % modulus;
    let steps = steps_to_accepted(state) as int;
    let wraps = (distance * inverse) / modulus;
    // The distance shrinks by one step of the generator, modulo 2^64.
    let turns = (after - distance + step) / modulus;
    assert(after == distance - step + modulus * turns);
    assert(distance * inverse == modulus * wraps + steps);
    // The number of steps is not zero, since the distance is not.
    if steps == 0 {
        assert(distance * (1 + modulus * carry) == modulus * (wraps * step)) by (nonlinear_arith)
            requires
                distance * inverse == modulus * wraps,
                step * inverse == 1 + modulus * carry,
        ;
        assert(distance == modulus * (wraps * step - distance * carry)) by (nonlinear_arith)
            requires
                distance * (1 + modulus * carry) == modulus * (wraps * step),
        ;
        assert(distance == 0) by (nonlinear_arith)
            requires
                distance == modulus * (wraps * step - distance * carry),
                0 <= distance < modulus,
                modulus > 0,
        ;
    }
    let quotient = wraps - carry + turns * inverse;
    assert(after * inverse == modulus * quotient + (steps - 1)) by (nonlinear_arith)
        requires
            after == distance - step + modulus * turns,
            distance * inverse == modulus * wraps + steps,
            step * inverse == 1 + modulus * carry,
            quotient == wraps - carry + turns * inverse,
    ;
    vstd::arithmetic::div_mod::lemma_fundamental_div_mod_converse(
        after * inverse,
        modulus,
        quotient,
        steps - 1,
    );
}

/// One end of a range of numbers.
#[derive(Debug, Copy, Clone, Hash, PartialEq, Eq, Structural)]
pub enum RangeBound {
    /// The range goes up to, or starts at, this number.
    Included(u32),
    /// The range ends before, or starts after, this number.
    Excluded(u32),
    /// The range has no end on this side.
    Unbounded,
}

/// The first number of a range that starts with the bound `start`. After
/// the largest number the count starts again at zero.
pub open spec fn range_start(start: RangeBound) -> u32 {
    match start {
        RangeBound::Unbounded => 0,
        RangeBound::Included(x) => x,
        RangeBound::Excluded(x) => if x == u32::MAX {
            0
        } else {
            (x + 1) as u32
        },
    }
}

/// The last number of a range that ends with the bound `end`. Before zero
/// comes the largest number.
pub open spec fn range_end(end: RangeBound) -> u32 {
    match end {
        RangeBound::Unbounded => u32::MAX,
        RangeBound::Included(x) => x,
        RangeBound::Excluded(x) => if x == 0 {
            u32::MAX
        } else {
            (x - 1) as u32
        },
    }
}

/// How many numbers there are from `start` to `end`, or zero where these
/// are all 2^32 numbers.
pub open spec fn range_len(start: u32, end: u32) -> u32 {
    ((end - start + 1) % 0x1_0000_0000) as u32
}

/// The magnitude that the bit pattern of a finite, non-negative 32 bit
/// floating point number stands for, in units of 2^-149.
pub open spec fn single_units(bits: u32) -> nat {
    let exponent = bits / 0x80_0000 % 0x100;
    let mantissa = bits % 0x80_0000;
    if exponent == 0 {
        mantissa as nat
    } else {
        ((mantissa + 0x80_0000) * pow2((exponent - 1) as nat)) as nat
    }
}

/// The pseudorandom number generator.
#[derive(Debug, Clone, Hash, PartialEq, Eq, Structural)]
pub struct Rng {
    state: u64,
}

impl Rng {
    /// The state of the generator. Each number is made from the state that
    /// follows the current one.
    pub closed spec fn state(&self) -> u64 {
        self.state
    }

    /// Creates a [`Rng`] instance with the seed `0`.
    pub fn new() -> (rng: Rng)
        ensures
            rng.state() == seeded_state(0),
    {
        Rng::with_seed(0)
    }

    /// Creates a [`Rng`] instance with the given seed.
    pub fn with_seed(seed: u64) -> (rng: Rng)
        ensures
            rng.state() == seeded_state(seed),
    {
        let shifted: u64 = seed.wrapping_sub(NUMS_0);
        let rotated: u64 = (shifted >> 7) | (shifted << 57);
        assert((shifted >> 7) | (shifted << 57) == shifted / 0x80 + (shifted % 0x80)
            * 0x200_0000_0000_0000) by (bit_vector);
        let state: u64 = rotated.wrapping_mul(NUMS_1);
        Rng { state }
    }

    /// Generates an unsigned 128 bit integer: a 64 bit number for the high
    /// half, then one for the low half.
    pub fn gen_u128(&mut self) -> (number: u128)
        ensures
            final(self).state() == next_state(next_state(old(self).state())),
            number == state_output(next_state(old(self).state())) * 0x1_0000_0000_0000_0000
                + state_output(final(self).state()),
    {
        let high: u64 = self.gen_u64();
        let low: u64 = self.gen_u64();
        assert(((high as u128) << 64) | (low as u128) == high * 0x1_0000_0000_0000_0000 + low)
            by (bit_vector);
        ((high as u128) << 64) | (low as u128)
    }

    /// Generates an unsigned 64 bit integer.
    pub fn gen_u64(&mut self) -> (number: u64)
        ensures
            final(self).state() == next_state(old(self).state()),
            number == state_output(final(self).state()),
    {
        self.state = self.state.wrapping_add(NUMS_2);
        let b: u64 = self.state.wrapping_mul(NUMS_3);
        assert(self.state as nat * b as nat <= 0xffff_ffff_ffff_ffff * 0xffff_ffff_ffff_ffff)
            by (nonlinear_arith)
            requires
                self.state <= 0xffff_ffff_ffff_ffff,
                b <= 0xffff_ffff_ffff_ffff,
        ;
        let t: u128 = (self.state as u128) * (b as u128);
        let mixed: u128 = ((t >> 64) ^ t) & 0xffff_ffff_ffff_ffff;
        assert(((t >> 64) ^ t) & 0xffff_ffff_ffff_ffff == (((t / 0x1_0000_0000_0000_0000) as u64)
            ^ ((t % 0x1_0000_0000_0000_0000) as u64)) as u128) by (bit_vector);
        mixed as u64
    }

    /// Generates an unsigned 32 bit integer: the low half of a 64 bit number.
    pub fn gen_u32(&mut self) -> (number: u32)
        ensures
            final(self).state() == next_state(old(self).state()),
            number == state_output(final(self).state()) % 0x1_0000_0000,
    {
        let wide: u64 = self.gen_u64();
        assert(wide & 0xffff_ffff == wide % 0x1_0000_0000) by (bit_vector);
        (wide & 0xffff_ffff) as u32
    }

    /// Generates an unsigned 32 bit integer that is within the range from
    /// `start` to `end`.
    ///
    /// The start of the range is not greater than its end. Of the range of
    /// all numbers only zero is given.
    pub fn gen_u32_in_range(&mut self, start: RangeBound, end: RangeBound) -> (number: u32)
        requires
            range_start(start) <= range_end(end),
        ensures
            ({
                let len = range_len(range_start(start), range_end(end));
                &&& final(self).state() == accepted_state(next_state(old(self).state()), len)
                &&& number == range_start(start) + mul_high(
                    state_output32(final(self).state()),
                    len,
                )
                &&& range_start(start) <= number
                &&& len != 0 ==> number <= range_end(end)
            }),
    {
        let start: u32 = match start {
            RangeBound::Unbounded => u32::MIN,
            RangeBound::Included(x) => x,
            RangeBound::Excluded(x) => x.wrapping_add(1),
        };
        let end: u32 = match end {
            RangeBound::Unbounded => u32::MAX,
            RangeBound::Included(x) => x,
            RangeBound::Excluded(x) => x.wrapping_sub(1),
        };
        let len: u32 = end.wrapping_sub(start).wrapping_add(1);
        let offset: u32 = self.gen_capped_u32(len);
        start.wrapping_add(offset)
    }

    /// Generates an unsigned 32 bit integer that is in the range `[0, cap)`,
    /// each number of the range being as likely as any other. For the cap
    /// zero the number is zero.
    ///
    /// The high half of the product of a 32 bit number and the cap is such
    /// a number; to make them equally likely, some 32 bit numbers are passed
    /// over.
    pub fn gen_capped_u32(&mut self, cap: u32) -> (number: u32)
        ensures
            final(self).state() == accepted_state(next_state(old(self).state()), cap),
            number == mul_high(state_output32(final(self).state()), cap),
            cap > 0 ==> number < cap,
            cap == 0 ==> number == 0,
    {
        let (mut high, mut low) = self.gen_product(cap);
        if low < cap {
            let threshold: u32 = (0u32.wrapping_sub(cap)) % cap;
            while low < threshold
                invariant
                    cap > 0,
                    threshold == rejection_threshold(cap),
                    high == mul_high(state_output32(self.state()), cap),
                    low == mul_low(state_output32(self.state()), cap),
                    accepted_state(self.state(), cap) == accepted_state(
                        next_state(old(self).state()),
                        cap,
                    ),
                decreases steps_to_accepted(self.state()),
            {
                proof {
                    lemma_accepted_everywhere(cap);
                    lemma_step_towards_accepted(self.state());
                }
                let (next_high, next_low) = self.gen_product(cap);
                high = next_high;
                low = next_low;
            }
        }
        proof {
            lemma_mul_high_below(state_output32(self.state()), cap);
        }
        high
    }

    /// Generates a 32 bit number and gives the two halves of its product
    /// with `cap`, the high half first.
    fn gen_product(&mut self, cap: u32) -> (halves: (u32, u32))
        ensures
            final(self).state() == next_state(old(self).state()),
            halves.0 == mul_high(state_output32(final(self).state()), cap),
            halves.1 == mul_low(state_output32(final(self).state()), cap),
    {
        let rand: u32 = self.gen_u32();
        (mul_high_u32(rand, cap), rand.wrapping_mul(cap))
    }

    /// Generates the bit pattern of a 32 bit float in the range `[0, 1)`: of
    /// the number that the high 23 bits of a 32 bit number are, divided by
    /// 2^23.
    pub fn gen_f32(&mut self) -> (bits: u32)
        ensures
            final(self).state() == next_state(old(self).state()),
            bits < 0x3f80_0000,
            single_units(bits) == (state_output32(final(self).state()) / 0x200) * pow2(126),
    {
        let rand_u32: u32 = self.gen_u32();
        let fraction: u32 = rand_u32 >> 9;
        assert(rand_u32 >> 9 == rand_u32 / 0x200 && rand_u32 >> 9 < 0x80_0000) by (bit_vector);
        if fraction == 0 {
            assert(0nat * pow2(126) == 0);
            return 0;
        }
        // One more than the exponent field, for a mantissa of 24 bits.
        let mut mantissa: u32 = fraction;
        let mut exponent: u32 = 127;
        proof {
            lemma2_to64();
            assert(fraction as nat * pow2(0) == fraction);
        }
        while mantissa < 0x80_0000
            invariant
                1 <= fraction,
                104 <= exponent <= 127,
                exponent == 127 ==> mantissa < 0x80_0000,
                mantissa < 0x100_0000,
                mantissa == fraction as nat * pow2((127 - exponent) as nat),
                mantissa as nat * pow2((exponent - 1) as nat) == fraction as nat * pow2(126),
            decreases exponent,
        {
            proof {
                let done = (127 - exponent) as nat;
                lemma2_to64();
                lemma_pow2_unfold(done + 1);
                lemma_pow2_unfold((exponent - 1) as nat);
                if done >= 23 {
                    if done > 23 {
                        lemma_pow2_strictly_increases(23, done);
                    }
                    assert(fraction as nat * pow2(done) >= pow2(done)) by (nonlinear_arith)
                        requires
                            fraction >= 1,
                    ;
                }
                assert((2 * mantissa) as nat == fraction as nat * pow2(done + 1)
                    && (2 * mantissa) as nat * pow2((exponent - 2) as nat) == fraction as nat
                    * pow2(126)) by (nonlinear_arith)
                    requires
                        mantissa == fraction as nat * pow2(done),
                        pow2(done + 1) == 2 * pow2(done),
                        pow2((exponent - 1) as nat) == 2 * pow2((exponent - 2) as nat),
                        mantissa as nat * pow2((exponent - 1) as nat) == fraction as nat * pow2(
                            126,
                        ),
                ;
            }
            mantissa = mantissa * 2;
            exponent = exponent - 1;
        }
        assert(exponent << 23 == exponent * 0x80_0000) by (bit_vector)
            requires
                exponent <= 127,
        ;
        let bits: u32 = (exponent << 23) + (mantissa - 0x80_0000);
        assert(bits / 0x80_0000 == exponent && bits % 0x80_0000 == mantissa - 0x80_0000);
        bits
    }

    /// Generates the bit pattern of a 64 bit float in the range `[0, 1)`: of
    /// the number that the high 52 bits of a 64 bit number are, divided by
    /// 2^52.
    pub fn gen_f64(&mut self) -> (bits: u64)
        ensures
            final(self).state() == next_state(old(self).state()),
            bits < 0x3ff0_0000_0000_0000,
            units_of_bits(bits) == (state_output(final(self).state()) / 0x1000) * pow2(1022),
            units_of_bits(bits) < one(),
    {
        let rand_u64: u64 = self.gen_u64();
        let fraction: u64 = rand_u64 >> 12;
        assert(rand_u64 >> 12 == rand_u64 / 0x1000 && rand_u64 >> 12 < 0x10_0000_0000_0000)
            by (bit_vector);
        proof {
            vstd::arithmetic::power2::lemma2_to64_rest();
            vstd::arithmetic::power2::lemma_pow2_pos(1022);
            lemma_pow2_adds(52, 1022);
            assert(fraction as nat * pow2(1022) < 0x10_0000_0000_0000 * pow2(1022))
                by (nonlinear_arith)
                requires
                    fraction < 0x10_0000_0000_0000,
                    pow2(1022) > 0,
            ;
        }
        let magnitude = Magnitude::normalized(fraction, 1022);
        proof {
            magnitude.lemma_below_one();
        }
        magnitude.to_bits()
    }
}

/// The high half of a product with `cap` is below `cap`.
proof fn lemma_mul_high_below(a: u32, cap: u32)
    ensures
        cap > 0 ==> mul_high(a, cap) < cap,
        cap == 0 ==> mul_high(a, cap) == 0,
{
    let product = a as nat * cap as nat;
    assert(product / 0x1_0000_0000 < cap || cap == 0) by (nonlinear_arith)
        requires
            product == a as nat * cap as nat,
            a < 0x1_0000_0000,
    ;
    if cap == 0 {
        assert(product == 0) by (nonlinear_arith)
            requires
                product == a as nat * cap as nat,
                cap == 0,
        ;
    }
}

/// Gives the high 32 bits of the product of two 32 bit numbers.
fn mul_high_u32(a: u32, b: u32) -> (high: u32)
    ensures
        high == mul_high(a, b),
{
    assert(a as nat * b as nat <= 0xffff_ffff * 0xffff_ffff) by (nonlinear_arith)
        requires
            a <= 0xffff_ffff,
            b <= 0xffff_ffff,
    ;
    let product: u64 = (a as u64) * (b as u64);
    assert(product >> 32 == product / 0x1_0000_0000) by (bit_vector);
    (product >> 32) as u32
}

} // verus!
