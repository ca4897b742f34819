//! A whole number of up to 1024 bits: the whole part of the magnitude of a
//! finite floating point number, which a machine word does not hold.

use vstd::prelude::*;
use vstd::arithmetic::power2::{
    lemma2_to64,
    lemma_pow2_adds,
    lemma_pow2_pos,
    lemma_pow2_strictly_increases,
    pow2,
};

verus! {

/// The number of 64 bit limbs of a [`Whole`].
pub const WHOLE_LIMBS: usize = 16;

/// The number that the limbs from `index` on stand for, the limb at `index`
/// counting least and each limb after it 2^64 times the one before.
pub open spec fn limbs_value(limbs: Seq<u64>, index: int) -> nat
    decreases limbs.len() - index,
{
    if index < 0 || index >= limbs.len() {
        0
    } else {
        limbs[index] as nat + 0x1_0000_0000_0000_0000 * limbs_value(limbs, index + 1)
    }
}

/// Limbs that are alike from `index` on stand for the same number from
/// there on.
pub proof fn lemma_limbs_alike(a: Seq<u64>, b: Seq<u64>, index: int)
    requires
        a.len() == b.len(),
        0 <= index,
        forall|i: int| index <= i < a.len() ==> a[i] == b[i],
    ensures
        limbs_value(a, index) == limbs_value(b, index),
    decreases a.len() - index,
{
    if index < a.len() {
        lemma_limbs_alike(a, b, index + 1);
    }
}

/// The limbs from `index` on stand for a number below 2^64 to the power of
/// their count.
pub proof fn lemma_limbs_bound(limbs: Seq<u64>, index: int)
    requires
        0 <= index <= limbs.len(),
    ensures
        limbs_value(limbs, index) < pow2((64 * (limbs.len() - index)) as nat),
    decreases limbs.len() - index,
{
    lemma2_to64();
    if index < limbs.len() {
        lemma_limbs_bound(limbs, index + 1);
        let rest = limbs_value(limbs, index + 1);
        let above = pow2((64 * (limbs.len() - index - 1)) as nat);
        lemma_pow2_adds(64, (64 * (limbs.len() - index - 1)) as nat);
        assert(limbs[index] as nat + 0x1_0000_0000_0000_0000 * rest < 0x1_0000_0000_0000_0000
            * above) by (nonlinear_arith)
            requires
                limbs[index] < 0x1_0000_0000_0000_0000,
                rest < above,
        ;
    }
}

/// The limbs from `index` on stand for zero exactly when all of them are
/// zero.
pub proof fn lemma_limbs_zero(limbs: Seq<u64>, index: int)
    requires
        0 <= index <= limbs.len(),
    ensures
        limbs_value(limbs, index) == 0 <==> forall|i: int|
            index <= i < limbs.len() ==> limbs[i] == 0,
    decreases limbs.len() - index,
{
    if index < limbs.len() {
        lemma_limbs_zero(limbs, index + 1);
        let rest = limbs_value(limbs, index + 1);
        assert(0x1_0000_0000_0000_0000 * rest == 0 <==> rest == 0) by (nonlinear_arith);
        if limbs_value(limbs, index) == 0 {
            assert forall|i: int| index <= i < limbs.len() implies limbs[i] == 0 by {
                if i > index {
                    assert(limbs[i] == 0);
                }
            }
        }
    }
}

/// Limbs that are zero but for the one at `at` and the one after it stand
/// for these two limbs, times 2^64 for every limb before them.
pub proof fn lemma_limbs_shifted(limbs: Seq<u64>, at: int, index: int)
    requires
        0 <= index <= at < limbs.len(),
        forall|i: int| 0 <= i < limbs.len() && i != at && i != at + 1 ==> limbs[i] == 0,
    ensures
        limbs_value(limbs, index) == (limbs[at] as nat + 0x1_0000_0000_0000_0000 * (if at + 1
            < limbs.len() {
            limbs[at + 1] as nat
        } else {
            0
        })) * pow2((64 * (at - index)) as nat),
    decreases at - index,
{
    lemma2_to64();
    let high: nat = if at + 1 < limbs.len() {
        limbs[at + 1] as nat
    } else {
        0
    };
    let pair = limbs[at] as nat + 0x1_0000_0000_0000_0000 * high;
    if index == at {
        if at + 1 < limbs.len() {
            lemma_limbs_zero(limbs, at + 2);
            assert(limbs_value(limbs, at + 1) == high);
        }
        assert(pair * pow2(0) == pair) by (nonlinear_arith)
            requires
                pow2(0) == 1,
        ;
    } else {
        lemma_limbs_shifted(limbs, at, index + 1);
        let rest = pow2((64 * (at - index - 1)) as nat);
        lemma_pow2_adds(64, (64 * (at - index - 1)) as nat);
        assert(0x1_0000_0000_0000_0000 * (pair * rest) == pair * (0x1_0000_0000_0000_0000 * rest))
            by (nonlinear_arith);
    }
}

/// A whole number below 2^1024.
pub struct Whole {
    limbs: [u64; 16],
}

impl Whole {
    /// The number.
    pub closed spec fn value(&self) -> nat {
        limbs_value(self.limbs@, 0)
    }

    /// The number is below 2^1024.
    pub proof fn lemma_value_bound(&self)
        ensures
            self.value() < pow2(1024),
    {
        lemma_limbs_bound(self.limbs@, 0);
    }

    /// The number `mantissa * 2^shift`, for a mantissa of at most 53 bits
    /// and a shift that leaves the number below 2^1024.
    pub fn from_shifted(mantissa: u64, shift: u32) -> (whole: Whole)
        requires
            mantissa < 0x20_0000_0000_0000,
            shift <= 971,
        ensures
            whole.value() == mantissa as nat * pow2(shift as nat),
    {
        let at: usize = (shift / 64) as usize;
        let bits: u32 = shift % 64;
        let wide: u128 = (mantissa as u128) << bits;
        let low: u64 = (wide % 0x1_0000_0000_0000_0000) as u64;
        let high: u64 = (wide / 0x1_0000_0000_0000_0000) as u64;
        assert((mantissa as u128) << bits == mantissa as u128 * (1u128 << bits) && (bits <= 11
            ==> ((mantissa as u128) << bits) < 0x1_0000_0000_0000_0000) && ((mantissa as u128)
            << bits) / 0x1_0000_0000_0000_0000 < 0x1_0000_0000_0000_0000) by (bit_vector)
            requires
                mantissa < 0x20_0000_0000_0000,
                bits < 64,
        ;
        assert(1u128 << bits == pow2(bits as nat)) by {
            lemma_shift_is_pow2(bits);
        }
        let mut limbs: [u64; 16] = [0u64; 16];
        limbs[at] = low;
        if at + 1 < WHOLE_LIMBS {
            limbs[at + 1] = high;
        }
        let whole = Whole { limbs };
        proof {
            lemma_limbs_shifted(limbs@, at as int, 0);
            lemma_pow2_adds(bits as nat, (64 * at) as nat);
            assert(shift == bits + 64 * at);
            let pair = low as nat + 0x1_0000_0000_0000_0000 * (if at + 1 < 16 {
                high as nat
            } else {
                0
            });
            assert(pair == mantissa as nat * pow2(bits as nat));
            assert(pair * pow2((64 * at) as nat) == mantissa as nat * (pow2(bits as nat) * pow2(
                (64 * at) as nat,
            ))) by (nonlinear_arith)
                requires
                    pair == mantissa as nat * pow2(bits as nat),
            ;
        }
        whole
    }

    /// Divides the number by `divisor`, and gives what is left over.
    pub fn div_small(&mut self, divisor: u8) -> (rest: u8)
        requires
            divisor > 0,
        ensures
            final(self).value() == old(self).value() / (divisor as nat),
            rest == old(self).value() % (divisor as nat),
    {
        let mut rest: u64 = 0;
        let mut index: usize = WHOLE_LIMBS;
        proof {
            assert(limbs_value(self.limbs@, 16) == 0);
            assert(0nat * (divisor as nat) == 0) by (nonlinear_arith);
        }
        while index > 0
            invariant
                index <= WHOLE_LIMBS,
                divisor > 0,
                rest < divisor,
                forall|i: int| 0 <= i < index ==> self.limbs@[i] == old(self).limbs@[i],
                limbs_value(old(self).limbs@, index as int) == limbs_value(
                    self.limbs@,
                    index as int,
                ) * divisor + rest,
            decreases index,
        {
            index = index - 1;
            let ghost before = self.limbs@;
            let ghost above = limbs_value(before, index + 1);
            let ghost given = limbs_value(old(self).limbs@, index + 1);
            let limb: u64 = self.limbs[index];
            let current: u128 = (rest as u128) * 0x1_0000_0000_0000_0000 + (limb as u128);
            let quotient: u128 = current / (divisor as u128);
            let left: u128 = current % (divisor as u128);
            assert(quotient < 0x1_0000_0000_0000_0000 && current == quotient * divisor + left)
                by (nonlinear_arith)
                requires
                    quotient == current / (divisor as u128),
                    left == current % (divisor as u128),
                    current == rest * 0x1_0000_0000_0000_0000 + limb,
                    rest < divisor,
                    limb < 0x1_0000_0000_0000_0000,
                    divisor > 0,
            ;
            self.limbs[index] = quotient as u64;
            proof {
                lemma_limbs_alike(before, self.limbs@, index + 1);
                assert(0x1_0000_0000_0000_0000 * given + limb == (quotient
                    + 0x1_0000_0000_0000_0000 * above) * divisor + left) by (nonlinear_arith)
                    requires
                        given == above * divisor + rest,
                        rest * 0x1_0000_0000_0000_0000 + limb == quotient * divisor + left,
                ;
            }
            rest = left as u64;
        }
        proof {
            vstd::arithmetic::div_mod::lemma_fundamental_div_mod_converse(
                old(self).value() as int,
                divisor as int,
                self.value() as int,
                rest as int,
            );
        }
        rest as u8
    }

    /// Whether the number is zero.
    pub fn is_zero(&self) -> (zero: bool)
        ensures
            zero == (self.value() == 0),
    {
        let mut index: usize = 0;
        proof {
            lemma_limbs_zero(self.limbs@, 0);
        }
        while index < WHOLE_LIMBS
            invariant
                index <= WHOLE_LIMBS,
                forall|i: int| 0 <= i < index ==> self.limbs@[i] == 0,
                self.value() == 0 <==> forall|i: int| 0 <= i < 16 ==> self.limbs@[i] == 0,
            decreases WHOLE_LIMBS - index,
        {
            if self.limbs[index] != 0 {
                return false;
            }
            index = index + 1;
        }
        true
    }

    /// The low 64 bits of the number.
    pub fn low(&self) -> (low: u64)
        ensures
            low == self.value() % 0x1_0000_0000_0000_0000,
    {
        proof {
            let rest = limbs_value(self.limbs@, 1);
            vstd::arithmetic::div_mod::lemma_fundamental_div_mod_converse(
                self.value() as int,
                0x1_0000_0000_0000_0000,
                rest as int,
                self.limbs@[0] as int,
            );
        }
        self.limbs[0]
    }

    /// Makes the number greater by one.
    pub fn add_one(&mut self)
        requires
            old(self).value() + 1 < pow2(1024),
        ensures
            final(self).value() == old(self).value() + 1,
    {
        let mut index: usize = 0;
        while index < WHOLE_LIMBS && self.limbs[index] == u64::MAX
            invariant
                index <= WHOLE_LIMBS,
                forall|i: int| 0 <= i < index ==> old(self).limbs@[i] == u64::MAX,
                forall|i: int| 0 <= i < index ==> self.limbs@[i] == 0,
                forall|i: int| index <= i < 16 ==> self.limbs@[i] == old(self).limbs@[i],
            decreases WHOLE_LIMBS - index,
        {
            self.limbs[index] = 0;
            index = index + 1;
        }
        proof {
            if index == WHOLE_LIMBS {
                lemma_limbs_full(old(self).limbs@, 0);
            }
        }
        let limb: u64 = self.limbs[index];
        self.limbs[index] = limb + 1;
        proof {
            lemma_limbs_carried(old(self).limbs@, self.limbs@, index as int, 0);
        }
    }
}

/// Limbs that are all the largest limb from `index` on stand for the
/// largest number of their count.
proof fn lemma_limbs_full(limbs: Seq<u64>, index: int)
    requires
        0 <= index <= limbs.len(),
        forall|i: int| index <= i < limbs.len() ==> limbs[i] == u64::MAX,
    ensures
        limbs_value(limbs, index) + 1 == pow2((64 * (limbs.len() - index)) as nat),
    decreases limbs.len() - index,
{
    lemma2_to64();
    if index < limbs.len() {
        lemma_limbs_full(limbs, index + 1);
        lemma_pow2_adds(64, (64 * (limbs.len() - index - 1)) as nat);
    }
}

/// Adding one to limbs of which those before `at` are the largest limb
/// makes these zero and the limb at `at` greater by one.
proof fn lemma_limbs_carried(before: Seq<u64>, after: Seq<u64>, at: int, index: int)
    requires
        before.len() == after.len(),
        0 <= index <= at < before.len(),
        forall|i: int| index <= i < at ==> before[i] == u64::MAX && after[i] == 0,
        after[at] == before[at] + 1,
        forall|i: int| at < i < before.len() ==> after[i] == before[i],
    ensures
        limbs_value(after, index) == limbs_value(before, index) + 1,
    decreases at - index,
{
    if index == at {
        lemma_limbs_alike(before, after, at + 1);
    } else {
        lemma_limbs_carried(before, after, at, index + 1);
    }
}

/// One, moved left by less than 64 bits, is that power of two.
proof fn lemma_shift_is_pow2(bits: u32)
    requires
        bits < 64,
    ensures
        1u128 << bits == pow2(bits as nat),
{
    vstd::bits::lemma_u64_pow2_no_overflow(bits as nat);
    vstd::bits::lemma_u64_shl_is_mul(1, bits as u64);
    assert(1u128 << bits == (1u64 << (bits as u64)) as u128) by (bit_vector)
        requires
            bits < 64,
    ;
}

} // verus!
