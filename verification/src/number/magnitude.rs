//! The magnitude of a finite floating point number, taken apart into a
//! mantissa and a power of two, with the operations that the conversion to
//! a string needs. Each operation gives what the floating point operation
//! gives, bit for bit.

use vstd::prelude::*;
use vstd::arithmetic::power2::{
    lemma2_to64,
    lemma2_to64_rest,
    lemma_pow2_adds,
    lemma_pow2_pos,
    lemma_pow2_strictly_increases,
    lemma_pow2_unfold,
    pow2,
};
use crate::number::rounding::{
    bit_length,
    half_quantum,
    lemma_bit_length_bound,
    lemma_bit_length_from_range,
    lemma_bit_length_shift,
    lemma_round_even_above_one,
    lemma_round_even_below_whole,
    lemma_round_to_multiple_scales,
    one,
    quantum,
    round_even,
    round_to_multiple,
};
use crate::number::whole::Whole;
use crate::number::utils::{
    exponent_field,
    is_normal_bits,
    magnitude_field,
    mantissa_field,
    parts_of_bits,
    DOUBLE_INFINITY_BITS,
};

verus! {

/// The magnitude that the bit pattern of a finite, non-negative number
/// stands for, in units of 2^-1074.
pub open spec fn units_of_bits(bits: u64) -> nat {
    if exponent_field(bits) == 0 {
        mantissa_field(bits) as nat
    } else {
        ((mantissa_field(bits) + 0x10_0000_0000_0000) * pow2((exponent_field(bits) - 1) as nat))
            as nat
    }
}

/// A magnitude: `mantissa * 2^scale` units of 2^-1074, the mantissa being one
/// of at most 53 bits.
#[derive(Clone, Copy, Debug)]
pub struct Magnitude {
    mantissa: u64,
    scale: u32,
}

/// The largest scale of a finite number: that of the numbers from 2^1023 up.
pub const MAX_SCALE: u32 = 2045;

impl Magnitude {
    /// The mantissa, implicit bit included.
    pub closed spec fn spec_mantissa(&self) -> u64 {
        self.mantissa
    }

    /// The power of two by which the mantissa is multiplied.
    pub closed spec fn spec_scale(&self) -> u32 {
        self.scale
    }

    /// The magnitude in units of 2^-1074.
    pub open spec fn units(&self) -> nat {
        self.spec_mantissa() as nat * pow2(self.spec_scale() as nat)
    }

    /// The mantissa has at most 53 bits, and exactly 53 unless the scale is 0.
    pub open spec fn wf(&self) -> bool {
        &&& self.spec_mantissa() < 0x20_0000_0000_0000
        &&& self.spec_scale() > 0 ==> self.spec_mantissa() >= 0x10_0000_0000_0000
    }

    /// Whether the magnitude is that of a finite floating point number:
    /// below 2^1024.
    pub open spec fn is_finite(&self) -> bool {
        self.spec_scale() <= MAX_SCALE
    }

    /// The mantissa, implicit bit included.
    #[verifier::when_used_as_spec(spec_mantissa)]
    pub fn mantissa(&self) -> (m: u64)
        ensures
            m == self.spec_mantissa(),
    {
        self.mantissa
    }

    /// The power of two by which the mantissa is multiplied.
    #[verifier::when_used_as_spec(spec_scale)]
    pub fn scale(&self) -> (s: u32)
        ensures
            s == self.spec_scale(),
    {
        self.scale
    }

    /// A well-formed magnitude is representable: its quantum is 2^scale,
    /// and rounding leaves it unchanged.
    pub proof fn lemma_representable(&self)
        requires
            self.wf(),
        ensures
            quantum(self.units()) == pow2(self.spec_scale() as nat),
            round_even(self.units()) == self.units(),
            self.spec_mantissa() >= 0x10_0000_0000_0000 ==> bit_length(self.units()) == 53
                + self.spec_scale(),
            self.spec_mantissa() < 0x10_0000_0000_0000 ==> bit_length(self.units()) <= 52,
    {
        let m = self.mantissa as nat;
        let s = self.scale as nat;
        lemma2_to64();
        lemma2_to64_rest();
        lemma_pow2_pos(s);
        if self.mantissa >= 0x10_0000_0000_0000 {
            lemma_bit_length_from_range(m, 53);
            lemma_bit_length_shift(m, s);
            assert((m * pow2(s)) / pow2(s) == m && (m * pow2(s)) % pow2(s) == 0)
                by (nonlinear_arith)
                requires
                    pow2(s) > 0,
            ;
        } else {
            assert(m * pow2(0) == m);
            lemma_bit_length_bound(m, 52);
        }
    }

    /// Of two well-formed magnitudes the one with the smaller scale is the
    /// smaller; with equal scales, the one with the smaller mantissa.
    pub proof fn lemma_order(&self, other: &Magnitude)
        requires
            self.wf(),
            other.wf(),
        ensures
            self.units() < other.units() <==> self.spec_scale() < other.spec_scale() || (
            self.spec_scale() == other.spec_scale() && self.spec_mantissa()
                < other.spec_mantissa()),
            self.units() == other.units() <==> self.spec_scale() == other.spec_scale()
                && self.spec_mantissa() == other.spec_mantissa(),
    {
        if self.scale < other.scale {
            Self::lemma_smaller_scale(self, other);
        } else if other.scale < self.scale {
            Self::lemma_smaller_scale(other, self);
        } else {
            let p = pow2(self.scale as nat);
            let a = self.mantissa as nat;
            let b = other.mantissa as nat;
            lemma_pow2_pos(self.scale as nat);
            assert((a * p < b * p <==> a < b) && (a * p == b * p <==> a == b)) by (nonlinear_arith)
                requires
                    p > 0,
            ;
        }
    }

    proof fn lemma_smaller_scale(low: &Magnitude, high: &Magnitude)
        requires
            low.wf(),
            high.wf(),
            low.scale < high.scale,
        ensures
            low.units() < high.units(),
    {
        let pl = pow2(low.scale as nat);
        let ph = pow2(high.scale as nat);
        let a = low.mantissa as nat;
        let b = high.mantissa as nat;
        lemma_pow2_pos(low.scale as nat);
        lemma_pow2_unfold((low.scale + 1) as nat);
        if low.scale + 1 < high.scale {
            lemma_pow2_strictly_increases((low.scale + 1) as nat, high.scale as nat);
        }
        assert(a * pl < b * ph) by (nonlinear_arith)
            requires
                a < 0x20_0000_0000_0000,
                b >= 0x10_0000_0000_0000,
                pl > 0,
                ph >= 2 * pl,
        ;
    }

    /// The whole part of a finite magnitude is below 2^1024.
    pub proof fn lemma_whole_bound(&self)
        requires
            self.wf(),
            self.is_finite(),
        ensures
            self.units() / one() < pow2(1024),
    {
        let m = self.mantissa as nat;
        let s = self.scale as nat;
        let top = pow2(1024);
        lemma2_to64_rest();
        lemma_pow2_pos(1074);
        lemma_pow2_pos(s);
        lemma_pow2_adds(53, 2045);
        lemma_pow2_adds(1024, 1074);
        if s < 2045 {
            lemma_pow2_strictly_increases(s, 2045);
        }
        assert(m * pow2(s) < pow2(53) * pow2(2045)) by (nonlinear_arith)
            requires
                m < pow2(53),
                0 < pow2(s) <= pow2(2045),
        ;
        assert(self.units() / one() < top) by (nonlinear_arith)
            requires
                self.units() < top * one(),
                one() > 0,
        ;
    }

    /// The magnitude that a bit pattern stands for is representable, and the
    /// bit pattern that follows stands for the next representable magnitude.
    /// Its whole part is below 2^1024.
    pub proof fn lemma_bits_representable(bits: u64)
        requires
            bits < DOUBLE_INFINITY_BITS,
        ensures
            round_even(units_of_bits(bits)) == units_of_bits(bits),
            units_of_bits((bits + 1) as u64) == units_of_bits(bits) + quantum(units_of_bits(bits)),
            quantum(units_of_bits(bits)) >= 1,
            units_of_bits(bits) / one() < pow2(1024),
    {
        let exponent = exponent_field(bits);
        let fraction = mantissa_field(bits);
        let magnitude = if exponent == 0 {
            Magnitude { mantissa: fraction, scale: 0 }
        } else {
            Magnitude {
                mantissa: (fraction + 0x10_0000_0000_0000) as u64,
                scale: (exponent - 1) as u32,
            }
        };
        let m = magnitude.mantissa as nat;
        let s = magnitude.scale as nat;
        lemma2_to64();
        if exponent == 0 {
            assert(m * pow2(0) == m) by (nonlinear_arith)
                requires
                    pow2(0) == 1,
            ;
        }
        assert(magnitude.units() == units_of_bits(bits));
        magnitude.lemma_whole_bound();
        magnitude.lemma_representable();
        lemma_pow2_pos(s);
        let next = (bits + 1) as u64;
        if fraction + 1 < 0x10_0000_0000_0000 {
            assert(exponent_field(next) == exponent && mantissa_field(next) == fraction + 1);
            assert((m + 1) * pow2(s) == m * pow2(s) + pow2(s)) by (nonlinear_arith);
        } else {
            assert(exponent_field(next) == exponent + 1 && mantissa_field(next) == 0);
            if exponent > 0 {
                lemma_pow2_unfold(s + 1);
                assert(0x10_0000_0000_0000 * (2 * pow2(s)) == m * pow2(s) + pow2(s))
                    by (nonlinear_arith)
                    requires
                        m == 0x1f_ffff_ffff_ffff,
                ;
            }
        }
    }

    /// A normal number is its mantissa times 2 to the power of its exponent
    /// less 52; in units of 2^-1074, the mantissa times 2^(exponent + 1022).
    pub proof fn lemma_parts_units(num: u64)
        requires
            is_normal_bits(num),
        ensures
            units_of_bits(magnitude_field(num)) == parts_of_bits(num).2 as nat * pow2(
                (parts_of_bits(num).1 + 1022) as nat,
            ),
    {
        let magnitude = magnitude_field(num);
        assert(exponent_field(magnitude) == exponent_field(num));
        assert(mantissa_field(magnitude) == mantissa_field(num));
    }

    /// Takes the bit pattern of a finite, non-negative number apart.
    pub fn from_bits(bits: u64) -> (m: Magnitude)
        requires
            bits < DOUBLE_INFINITY_BITS,
        ensures
            m.wf(),
            m.is_finite(),
            m.units() == units_of_bits(bits),
    {
        let exponent: u64 = bits >> 52;
        let fraction: u64 = bits & 0xf_ffff_ffff_ffff;
        assert(bits >> 52 == (bits / 0x10_0000_0000_0000) % 0x800 && bits >> 52 < 0x7ff && bits
            & 0xf_ffff_ffff_ffff == bits % 0x10_0000_0000_0000) by (bit_vector)
            requires
                bits < 0x7ff0_0000_0000_0000,
        ;
        if exponent == 0 {
            proof {
                lemma2_to64();
                assert(fraction as nat * pow2(0) == fraction) by (nonlinear_arith)
                    requires
                        pow2(0) == 1,
                ;
            }
            Magnitude { mantissa: fraction, scale: 0 }
        } else {
            Magnitude { mantissa: fraction + 0x10_0000_0000_0000, scale: (exponent - 1) as u32 }
        }
    }

    /// Puts the magnitude together into the bit pattern of a non-negative
    /// number.
    pub fn to_bits(&self) -> (bits: u64)
        requires
            self.wf(),
            self.is_finite(),
        ensures
            bits == self.spec_scale() * 0x10_0000_0000_0000 + self.spec_mantissa(),
            bits < DOUBLE_INFINITY_BITS,
            units_of_bits(bits) == self.units(),
    {
        let scale: u64 = self.scale as u64;
        let high: u64 = scale << 52;
        assert(scale << 52 == scale * 0x10_0000_0000_0000) by (bit_vector)
            requires
                scale <= 2045,
        ;
        let bits: u64 = high + self.mantissa;
        proof {
            lemma2_to64();
            if self.mantissa >= 0x10_0000_0000_0000 {
                let low = (self.mantissa - 0x10_0000_0000_0000) as int;
                assert(bits == (scale + 1) * 0x10_0000_0000_0000 + low);
                assert(bits / 0x10_0000_0000_0000 == scale + 1);
                assert(bits % 0x10_0000_0000_0000 == low);
            } else {
                assert(self.units() == self.mantissa * pow2(0));
            }
        }
        bits
    }

    /// The product of this magnitude and a small whole number, rounded as a
    /// floating point multiplication rounds it.
    pub fn times(&self, factor: u8) -> (product: Magnitude)
        requires
            self.wf(),
            self.spec_scale() + 9 <= u32::MAX,
        ensures
            product.wf(),
            product.units() == round_even(self.units() * (factor as nat)),
            product.spec_scale() <= self.spec_scale() + 9,
    {
        let ghost m = self.mantissa as nat;
        let ghost s = self.scale as nat;
        let ghost f = factor as nat;
        assert(m * f < 0x2000_0000_0000_0000 && (f >= 1 ==> m * f >= m)) by (nonlinear_arith)
            requires
                m < 0x20_0000_0000_0000,
                f < 256,
        ;
        let exact: u64 = self.mantissa * (factor as u64);
        let ghost p = exact as nat;
        assert((m * pow2(s)) * f == p * pow2(s)) by (nonlinear_arith)
            requires
                p == m * f,
        ;
        if exact == 0 {
            assert(0 * pow2(s) == 0) by (nonlinear_arith);
            return Self::zero();
        }
        assert(f >= 1) by (nonlinear_arith)
            requires
                m * f > 0,
                m >= 0,
                f >= 0,
        ;
        if exact < 0x20_0000_0000_0000 {
            let product = Magnitude { mantissa: exact, scale: self.scale };
            proof {
                product.lemma_representable();
            }
            return product;
        }
        let mut unit: u64 = 2;
        let mut extra: u32 = 1;
        proof {
            lemma2_to64();
        }
        while exact / unit >= 0x20_0000_0000_0000
            invariant
                1 <= extra <= 8,
                2 <= unit <= 256,
                unit == pow2(extra as nat),
                exact < 0x2000_0000_0000_0000,
                0x10_0000_0000_0000 * unit <= exact,
            decreases 8 - extra,
        {
            proof {
                lemma2_to64();
                lemma_pow2_unfold((extra + 1) as nat);
                assert(0x20_0000_0000_0000 * unit <= exact) by (nonlinear_arith)
                    requires
                        exact / unit >= 0x20_0000_0000_0000,
                        unit > 0,
                ;
            }
            unit = unit * 2;
            extra = extra + 1;
        }
        let quotient: u64 = exact / unit;
        let rest: u64 = exact % unit;
        let half: u64 = unit / 2;
        let round_up: bool = rest > half || (rest == half && quotient % 2 == 1);
        let rounded: u64 = if round_up {
            quotient + 1
        } else {
            quotient
        };
        let ghost x = p * pow2(s);
        proof {
            let k = extra as nat;
            lemma2_to64();
            lemma2_to64_rest();
            lemma_pow2_pos(s);
            lemma_pow2_unfold(k);
            lemma_pow2_adds(52, k);
            lemma_pow2_adds(53, k);
            lemma_pow2_adds(k, s);
            assert(p == quotient * unit + rest && rest < unit && quotient >= 0x10_0000_0000_0000
                && p < 0x20_0000_0000_0000 * unit) by (nonlinear_arith)
                requires
                    quotient == p / (unit as nat),
                    rest == p % (unit as nat),
                    unit > 0,
                    0x10_0000_0000_0000 * unit <= p,
                    quotient < 0x20_0000_0000_0000,
            ;
            lemma_bit_length_from_range(p, 53 + k);
            lemma_bit_length_shift(p, s);
            assert(quantum(x) == unit as nat * pow2(s));
            lemma_round_to_multiple_scales(p, unit as nat, pow2(s));
            assert(round_to_multiple(p, unit as nat) == rounded * unit);
            assert(round_even(x) == (rounded * unit) * pow2(s));
            assert((rounded * unit) * pow2(s) == rounded * pow2(k + s)) by (nonlinear_arith)
                requires
                    pow2(k + s) == unit * pow2(s),
            ;
        }
        if rounded == 0x20_0000_0000_0000 {
            proof {
                lemma_pow2_unfold((extra + self.scale + 1) as nat);
                assert(0x20_0000_0000_0000 * pow2((extra + s) as nat) == 0x10_0000_0000_0000 * (2
                    * pow2((extra + s) as nat))) by (nonlinear_arith);
            }
            Magnitude { mantissa: 0x10_0000_0000_0000, scale: self.scale + extra + 1 }
        } else {
            Magnitude { mantissa: rounded, scale: self.scale + extra }
        }
    }

    /// The magnitude zero.
    pub fn zero() -> (m: Magnitude)
        ensures
            m.wf(),
            m.spec_scale() == 0,
            m.units() == 0,
    {
        let m = Magnitude { mantissa: 0, scale: 0 };
        assert(0 * pow2(0) == 0);
        m
    }

    /// The magnitude one half.
    pub fn half() -> (m: Magnitude)
        ensures
            m.wf(),
            m.is_finite(),
            2 * m.units() == one(),
    {
        proof {
            lemma2_to64_rest();
            lemma_pow2_adds(52, 1021);
            lemma_pow2_unfold(1074);
        }
        Magnitude { mantissa: 0x10_0000_0000_0000, scale: 1021 }
    }

    /// The magnitude `mantissa * 2^scale`, brought into the well-formed
    /// shape.
    pub fn normalized(mantissa: u64, scale: u32) -> (m: Magnitude)
        requires
            mantissa < 0x20_0000_0000_0000,
        ensures
            m.wf(),
            m.spec_scale() <= scale,
            m.units() == mantissa as nat * pow2(scale as nat),
    {
        if mantissa == 0 {
            assert(0 * pow2(scale as nat) == 0) by (nonlinear_arith);
            return Self::zero();
        }
        let mut m: u64 = mantissa;
        let mut s: u32 = scale;
        while m < 0x10_0000_0000_0000 && s > 0
            invariant
                0 < m < 0x20_0000_0000_0000,
                s <= scale,
                m as nat * pow2(s as nat) == mantissa as nat * pow2(scale as nat),
            decreases s,
        {
            proof {
                lemma_pow2_unfold(s as nat);
                assert((2 * m) as nat * pow2((s - 1) as nat) == m as nat * pow2(s as nat))
                    by (nonlinear_arith)
                    requires
                        pow2(s as nat) == 2 * pow2((s - 1) as nat),
                ;
            }
            m = m * 2;
            s = s - 1;
        }
        Magnitude { mantissa: m, scale: s }
    }

    /// The whole part of this magnitude and its fractional part.
    pub fn split(&self) -> (parts: (Whole, Magnitude))
        requires
            self.wf(),
            self.is_finite(),
        ensures
            parts.0.value() == self.units() / one(),
            parts.1.wf(),
            parts.1.is_finite(),
            parts.1.units() == self.units() % one(),
            parts.1.units() > 0 ==> parts.0.value() < 0x20_0000_0000_0000,
    {
        let ghost m = self.mantissa as nat;
        proof {
            lemma_pow2_pos(1074);
            lemma2_to64();
        }
        if self.scale >= 1074 {
            // A whole number: the mantissa with zeros after it.
            let shift: u32 = self.scale - 1074;
            let ghost whole = m * pow2(shift as nat);
            proof {
                lemma_pow2_adds(shift as nat, 1074);
                assert(self.units() == whole * one() + 0) by (nonlinear_arith)
                    requires
                        self.units() == m * pow2(self.scale as nat),
                        pow2(self.scale as nat) == pow2(shift as nat) * one(),
                        whole == m * pow2(shift as nat),
                ;
                vstd::arithmetic::div_mod::lemma_fundamental_div_mod_converse(
                    self.units() as int,
                    one() as int,
                    whole as int,
                    0,
                );
            }
            return (Whole::from_shifted(self.mantissa, shift), Self::zero());
        }
        let below: u32 = 1074 - self.scale;
        proof {
            lemma_pow2_adds(below as nat, self.scale as nat);
            lemma_pow2_pos(self.scale as nat);
            lemma_pow2_pos(below as nat);
            lemma_round_to_multiple_scales(m, pow2(below as nat), pow2(self.scale as nat));
        }
        if below >= 53 {
            proof {
                lemma2_to64_rest();
                if below > 53 {
                    lemma_pow2_strictly_increases(53, below as nat);
                }
                vstd::arithmetic::div_mod::lemma_fundamental_div_mod_converse(
                    m as int,
                    pow2(below as nat) as int,
                    0,
                    m as int,
                );
            }
            assert(0nat * pow2(0) == 0) by (nonlinear_arith);
            return (Whole::from_shifted(0, 0), *self);
        }
        let unit: u64 = 1u64 << below;
        proof {
            vstd::bits::lemma_u64_pow2_no_overflow(below as nat);
            vstd::bits::lemma_u64_shl_is_mul(1, below as u64);
            lemma2_to64_rest();
            if below < 52 {
                lemma_pow2_strictly_increases(below as nat, 52);
            }
        }
        let whole: u64 = self.mantissa / unit;
        let rest: u64 = self.mantissa % unit;
        assert(whole as nat * pow2(0) == whole) by (nonlinear_arith)
            requires
                pow2(0) == 1,
        ;
        (Whole::from_shifted(whole, 0), Self::normalized(rest, self.scale))
    }

    /// Half the distance from this magnitude to the next one above it, but
    /// at least the smallest positive magnitude.
    pub fn half_ulp(&self) -> (delta: Magnitude)
        requires
            self.wf(),
        ensures
            delta.wf(),
            delta.spec_scale() <= self.spec_scale(),
            delta.units() == half_quantum(self.units()),
            delta.units() > 0,
    {
        proof {
            self.lemma_representable();
            lemma2_to64();
            lemma2_to64_rest();
        }
        if self.scale == 0 {
            return Magnitude { mantissa: 1, scale: 0 };
        }
        let exponent: u32 = self.scale - 1;
        proof {
            lemma_pow2_unfold(self.scale as nat);
            lemma_pow2_pos(exponent as nat);
        }
        if exponent < 52 {
            let mantissa: u64 = 1u64 << exponent;
            proof {
                vstd::bits::lemma_u64_pow2_no_overflow(exponent as nat);
                vstd::bits::lemma_u64_shl_is_mul(1, exponent as u64);
                lemma_pow2_strictly_increases(exponent as nat, 52);
            }
            Magnitude { mantissa, scale: 0 }
        } else {
            proof {
                lemma_pow2_adds(52, (exponent - 52) as nat);
            }
            Magnitude { mantissa: 0x10_0000_0000_0000, scale: exponent - 52 }
        }
    }

    /// A magnitude below one has a scale of 1021 at most, and is below one
    /// by at least 2^1021 units.
    pub proof fn lemma_below_one(&self)
        requires
            self.wf(),
            self.units() < one(),
        ensures
            self.spec_scale() <= 1021,
            self.units() + pow2(1021) <= one(),
            one() == 0x20_0000_0000_0000 * pow2(1021),
    {
        let high = Magnitude { mantissa: 0x10_0000_0000_0000, scale: 1022 };
        let m = self.mantissa as nat;
        let s = self.scale as nat;
        lemma2_to64_rest();
        lemma_pow2_adds(52, 1022);
        lemma_pow2_adds(53, 1021);
        self.lemma_order(&high);
        lemma_pow2_pos(s);
        if s < 1021 {
            lemma_pow2_strictly_increases(s, 1021);
        }
        assert(m * pow2(s) + pow2(1021) <= 0x20_0000_0000_0000 * pow2(1021)) by (nonlinear_arith)
            requires
                m <= 0x1f_ffff_ffff_ffff,
                0 < pow2(s) <= pow2(1021),
        ;
    }

    /// The rounded product of a magnitude below one and a whole number is
    /// below that number.
    pub proof fn lemma_times_below(&self, factor: nat)
        requires
            self.wf(),
            self.units() < one(),
            1 <= factor < 256,
        ensures
            round_even(self.units() * factor) < factor * one(),
    {
        self.lemma_below_one();
        assert(self.units() * factor + factor * pow2(1021) <= factor * one()) by (nonlinear_arith)
            requires
                self.units() + pow2(1021) <= one(),
        ;
        lemma_round_even_below_whole(self.units() * factor, factor);
    }

    /// Whether the sum of this magnitude and `other`, rounded as a floating
    /// point addition rounds it, is greater than one.
    pub fn sum_exceeds_one(&self, other: &Magnitude) -> (exceeds: bool)
        requires
            self.wf(),
            other.wf(),
        ensures
            exceeds == (round_even(self.units() + other.units()) > one()),
    {
        let (high, low) = if self.less_than(other) {
            (other, self)
        } else {
            (self, other)
        };
        let ghost p = pow2(1021);
        let ghost m = high.mantissa as nat;
        proof {
            lemma_round_even_above_one(self.units() + other.units());
            lemma_pow2_pos(1021);
            lemma2_to64_rest();
            lemma_pow2_adds(53, 1021);
            lemma_pow2_unfold(1022);
            lemma_pow2_unfold(1023);
            assert(self.units() + other.units() == high.units() + low.units());
        }
        // The sum is rounded to a value above one exactly when it is
        // greater than `(2^53 + 1) * 2^1021`.
        assert(one() + p == 0x20_0000_0000_0001 * p) by (nonlinear_arith)
            requires
                one() == 0x20_0000_0000_0000 * p,
        ;
        if high.scale >= 1023 {
            proof {
                if high.scale > 1023 {
                    lemma_pow2_strictly_increases(1023, high.scale as nat);
                }
                assert(m * pow2(high.scale as nat) > 0x20_0000_0000_0001 * p) by (nonlinear_arith)
                    requires
                        m >= 0x10_0000_0000_0000,
                        pow2(high.scale as nat) >= 4 * p,
                        p > 0,
                ;
            }
            true
        } else if high.scale <= 1020 {
            proof {
                lemma_pow2_unfold(1021);
                if high.scale < 1020 {
                    lemma_pow2_strictly_increases(high.scale as nat, 1020);
                }
                lemma_pow2_pos(high.scale as nat);
                assert(2 * (m * pow2(high.scale as nat)) < 0x20_0000_0000_0000 * p)
                    by (nonlinear_arith)
                    requires
                        m < 0x20_0000_0000_0000,
                        0 < pow2(high.scale as nat),
                        2 * pow2(high.scale as nat) <= p,
                ;
            }
            false
        } else {
            // The greater magnitude in units of 2^1021.
            let taken: u64 = if high.scale == 1022 {
                high.mantissa * 2
            } else {
                high.mantissa
            };
            assert(high.units() == taken * p) by (nonlinear_arith)
                requires
                    high.units() == m * pow2(high.spec_scale() as nat),
                    high.spec_scale() == 1022 ==> taken == 2 * m && pow2(high.spec_scale() as nat)
                        == 2 * p,
                    high.spec_scale() != 1022 ==> taken == m && pow2(high.spec_scale() as nat)
                        == p,
            ;
            if taken > 0x20_0000_0000_0001 {
                assert(taken * p > 0x20_0000_0000_0001 * p) by (nonlinear_arith)
                    requires
                        taken > 0x20_0000_0000_0001,
                        p > 0,
                ;
                true
            } else {
                let gap: u64 = 0x20_0000_0000_0001 - taken;
                assert(taken * p + low.units() > 0x20_0000_0000_0001 * p <==> low.units() > gap
                    * p) by (nonlinear_arith)
                    requires
                        gap == 0x20_0000_0000_0001 - taken,
                ;
                low.exceeds_gap(gap)
            }
        }
    }

    /// Whether this magnitude is greater than `gap * 2^1021`.
    fn exceeds_gap(&self, gap: u64) -> (exceeds: bool)
        requires
            self.wf(),
            gap <= 0x20_0000_0000_0001,
        ensures
            exceeds == (self.units() > gap * pow2(1021)),
    {
        let ghost d = self.mantissa as nat;
        let ghost p = pow2(1021);
        proof {
            lemma_pow2_pos(1021);
            lemma_pow2_pos(self.scale as nat);
            lemma2_to64();
            lemma2_to64_rest();
        }
        if gap == 0 {
            assert(d * pow2(self.scale as nat) > 0 <==> d > 0) by (nonlinear_arith)
                requires
                    pow2(self.scale as nat) > 0,
            ;
            assert(0 * p == 0);
            return self.mantissa > 0;
        }
        if self.scale >= 1021 {
            let up: u32 = self.scale - 1021;
            proof {
                lemma_pow2_adds(up as nat, 1021);
                lemma_pow2_pos(up as nat);
            }
            let ghost q = pow2(up as nat);
            assert(self.units() == d * (q * p));
            assert(d * (q * p) > gap * p <==> d * q > gap) by (nonlinear_arith)
                requires
                    p > 0,
            ;
            if up >= 2 {
                proof {
                    if up > 2 {
                        lemma_pow2_strictly_increases(2, up as nat);
                    }
                    assert(d * q > gap) by (nonlinear_arith)
                        requires
                            q >= 4,
                            d >= 0x10_0000_0000_0000,
                            gap <= 0x20_0000_0000_0001,
                    ;
                }
                true
            } else if up == 1 {
                assert(d * q == d * 2) by (nonlinear_arith)
                    requires
                        q == 2,
                ;
                self.mantissa * 2 > gap
            } else {
                assert(d * q == d) by (nonlinear_arith)
                    requires
                        q == 1,
                ;
                self.mantissa > gap
            }
        } else {
            let down: u32 = 1021 - self.scale;
            proof {
                lemma_pow2_adds(down as nat, self.scale as nat);
                lemma_pow2_pos(down as nat);
            }
            let ghost q = pow2(down as nat);
            let ghost r = pow2(self.scale as nat);
            assert(p == q * r);
            assert(self.units() == d * r);
            assert(d * r > gap * (q * r) <==> d > gap * q) by (nonlinear_arith)
                requires
                    r > 0,
            ;
            if down >= 53 {
                proof {
                    if down > 53 {
                        lemma_pow2_strictly_increases(53, down as nat);
                    }
                    assert(gap * q > d) by (nonlinear_arith)
                        requires
                            q >= 0x20_0000_0000_0000,
                            d < 0x20_0000_0000_0000,
                            gap >= 1,
                    ;
                }
                false
            } else {
                let unit: u64 = 1u64 << down;
                proof {
                    vstd::bits::lemma_u64_pow2_no_overflow(down as nat);
                    vstd::bits::lemma_u64_shl_is_mul(1, down as u64);
                    if down < 52 {
                        lemma_pow2_strictly_increases(down as nat, 52);
                    }
                    assert(gap * unit < 0x1_0000_0000_0000_0000_0000_0000_0000) by (nonlinear_arith)
                        requires
                            gap <= 0x20_0000_0000_0001,
                            unit <= 0x10_0000_0000_0000,
                    ;
                }
                (self.mantissa as u128) > (gap as u128) * (unit as u128)
            }
        }
    }

    /// Whether this magnitude is less than `other`.
    pub fn less_than(&self, other: &Magnitude) -> (less: bool)
        requires
            self.wf(),
            other.wf(),
        ensures
            less == (self.units() < other.units()),
    {
        proof {
            self.lemma_order(other);
        }
        self.scale < other.scale || (self.scale == other.scale && self.mantissa < other.mantissa)
    }

    /// Whether this magnitude is equal to `other`.
    pub fn equals(&self, other: &Magnitude) -> (equal: bool)
        requires
            self.wf(),
            other.wf(),
        ensures
            equal == (self.units() == other.units()),
    {
        proof {
            self.lemma_order(other);
        }
        self.scale == other.scale && self.mantissa == other.mantissa
    }
}

} // verus!
