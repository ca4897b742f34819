//! Digit characters and the bit layout of 64 bit floating point numbers.
//!
//! A floating point number is handled here as its IEEE-754 bit pattern, a
//! `u64`: one sign bit, eleven exponent bits, fifty-two mantissa bits.

use vstd::prelude::*;

verus! {

/// The width of the mantissa in a 64 bit floating point number.
pub const DOUBLE_MANTISSA_WIDTH: u64 = 52;

/// The width of the exponent in a 64 bit floating point number.
pub const DOUBLE_EXPONENT_WIDTH: u64 = 11;

/// The width of the sign bit in a 64 bit floating point number.
pub const DOUBLE_SIGN_WIDTH: u64 = 1;

/// The position of the sign bit in a 64 bit floating point number.
pub const DOUBLE_SIGN_BIT_POSITION: u64 = 63;

/// The bias in a 64 bit floating point number.
pub const DOUBLE_BIAS: u64 = 1023;

/// The implicit bit in the mantissa in a 64 bit floating point number.
pub const DOUBLE_IMPLICIT_BIT: u64 = 0x10_0000_0000_0000;

/// The bit pattern of positive infinity.
pub const DOUBLE_INFINITY_BITS: u64 = 0x7ff0_0000_0000_0000;

/// The bit pattern of the canonical quiet NaN.
pub const DOUBLE_NAN_BITS: u64 = 0x7ff8_0000_0000_0000;

/// The digit character that stands for `value`: `'0'` to `'9'` for 0 to 9,
/// then `'a'` to `'z'` for 10 to 35.
pub open spec fn digit_char(value: int) -> u8 {
    if value < 10 {
        (48 + value) as u8
    } else {
        (87 + value) as u8
    }
}

/// Whether `byte` is an ASCII digit or an ASCII letter of either case.
pub open spec fn is_digit_char(byte: u8) -> bool {
    48 <= byte <= 57 || 65 <= byte <= 90 || 97 <= byte <= 122
}

/// The value that the digit character `byte` stands for, letters of either
/// case counting from 10.
pub open spec fn digit_value(byte: u8) -> int {
    if byte <= 57 {
        byte - 48
    } else if byte <= 90 {
        byte - 55
    } else {
        byte - 87
    }
}

/// Converts a value in the range `[0, 36)` to its digit character, where a
/// value of `0` gives `0` and a value of `35` gives `z`.
pub fn to_character_byte(byte: u8) -> (c: u8)
    requires
        byte < 36,
    ensures
        c == digit_char(byte as int),
        is_digit_char(c),
{
    // '0'..'9' and 'A'..'Z' are not adjacent: skip what lies between them.
    let mut shifted: u8 = byte;
    if byte > 9 {
        shifted += 7;
    }
    let upper: u8 = 48 + shifted;
    assert(upper | 0x20 == if upper < 58 {
        upper
    } else {
        (upper + 32) as u8
    }) by (bit_vector)
        requires
            48 <= upper < 58 || 65 <= upper < 91,
    ;
    // Bit 5 tells the case of a letter and is already set in a digit.
    upper | 0x20
}

/// Converts a digit character to the value it stands for, in the range
/// `[0, 36)`. Letters are taken in either case: both `z` and `Z` give 35.
pub fn from_character_byte(byte: u8) -> (value: u8)
    requires
        is_digit_char(byte),
    ensures
        value == digit_value(byte),
        value < 36,
{
    let mut lower: u8 = byte | 0x20;
    assert(byte | 0x20 == if 65 <= byte <= 90 {
        (byte + 32) as u8
    } else {
        byte
    }) by (bit_vector)
        requires
            48 <= byte <= 57 || 65 <= byte <= 90 || 97 <= byte <= 122,
    ;
    if lower > 57 {
        lower -= 39;
    }
    lower - 48
}

/// Decoding an encoded digit gives the digit back.
pub proof fn lemma_digit_round_trip(value: u8)
    requires
        value < 36,
    ensures
        is_digit_char(digit_char(value as int)),
        digit_value(digit_char(value as int)) == value,
{
}

/// A letter stands for the same value in upper and in lower case, and
/// encoding that value gives the lower case letter.
pub proof fn lemma_digit_value_ignores_case(letter: u8)
    requires
        97 <= letter <= 122,
    ensures
        digit_value((letter - 32) as u8) == digit_value(letter),
        digit_char(digit_value(letter)) == letter,
{
}

/// Different digit values have different digit characters.
pub proof fn lemma_digit_char_injective(a: u8, b: u8)
    requires
        a < 36,
        b < 36,
        digit_char(a as int) == digit_char(b as int),
    ensures
        a == b,
{
}

/// The sign field of a bit pattern: 0 for positive, 1 for negative.
pub open spec fn sign_field(bits: u64) -> u64 {
    bits / 0x8000_0000_0000_0000
}

/// The exponent field of a bit pattern, with the bias still in it.
pub open spec fn exponent_field(bits: u64) -> u64 {
    (bits / 0x10_0000_0000_0000) % 0x800
}

/// The mantissa field of a bit pattern, without the implicit bit.
pub open spec fn mantissa_field(bits: u64) -> u64 {
    bits % 0x10_0000_0000_0000
}

/// The bit pattern without its sign bit.
pub open spec fn magnitude_field(bits: u64) -> u64 {
    bits % 0x8000_0000_0000_0000
}

/// Whether the bit pattern is a NaN.
pub open spec fn is_nan_bits(bits: u64) -> bool {
    magnitude_field(bits) > DOUBLE_INFINITY_BITS
}

/// Whether the bit pattern is positive or negative infinity.
pub open spec fn is_infinite_bits(bits: u64) -> bool {
    magnitude_field(bits) == DOUBLE_INFINITY_BITS
}

/// Whether the bit pattern is a normal number: finite, not zero and not
/// subnormal.
pub open spec fn is_normal_bits(bits: u64) -> bool {
    1 <= exponent_field(bits) <= 2046
}

/// The kinds of numbers that are written differently.
#[derive(Debug, Copy, Clone, Hash, PartialEq, Eq, Structural)]
pub enum FloatClass {
    /// Not a number.
    Nan,
    /// Positive or negative infinity.
    Infinite,
    /// Positive or negative zero.
    Zero,
    /// Any other number, normal or subnormal.
    Finite,
}

/// The kind of number that a bit pattern stands for.
pub open spec fn class_of_bits(bits: u64) -> FloatClass {
    if is_nan_bits(bits) {
        FloatClass::Nan
    } else if is_infinite_bits(bits) {
        FloatClass::Infinite
    } else if magnitude_field(bits) == 0 {
        FloatClass::Zero
    } else {
        FloatClass::Finite
    }
}

/// Tells what kind of number a bit pattern stands for.
pub fn classify(num: u64) -> (class: FloatClass)
    ensures
        class == class_of_bits(num),
{
    let magnitude: u64 = num & 0x7fff_ffff_ffff_ffff;
    assert(num & 0x7fff_ffff_ffff_ffff == num % 0x8000_0000_0000_0000) by (bit_vector);
    if magnitude > DOUBLE_INFINITY_BITS {
        FloatClass::Nan
    } else if magnitude == DOUBLE_INFINITY_BITS {
        FloatClass::Infinite
    } else if magnitude == 0 {
        FloatClass::Zero
    } else {
        FloatClass::Finite
    }
}

/// Whether a sign, an exponent without bias and a mantissa with the implicit
/// bit are the parts of a normal number.
pub open spec fn valid_parts(sign: u64, exponent: i64, mantissa: u64) -> bool {
    &&& sign <= 1
    &&& -1022 <= exponent <= 1023
    &&& 0x10_0000_0000_0000 <= mantissa < 0x20_0000_0000_0000
}

/// The sign, the exponent without bias and the mantissa with the implicit bit
/// of a bit pattern.
pub open spec fn parts_of_bits(bits: u64) -> (u64, i64, u64) {
    (
        sign_field(bits),
        (exponent_field(bits) - 1023) as i64,
        (mantissa_field(bits) + 0x10_0000_0000_0000) as u64,
    )
}

/// The bit pattern that has the given parts.
pub open spec fn bits_of_parts(sign: u64, exponent: i64, mantissa: u64) -> u64 {
    (sign * 0x8000_0000_0000_0000 + (exponent + 1023) * 0x10_0000_0000_0000 + (mantissa
        - 0x10_0000_0000_0000)) as u64
}

/// Breaks the bit pattern of a normal number down into its sign, exponent and
/// mantissa.
///
/// The sign is `0` for positive numbers and `1` for negative numbers. The
/// exponent comes without the bias, the mantissa with the implicit bit set.
/// Zero, subnormal numbers, infinities and NaN have no such parts.
pub fn floating_point_parts(num: u64) -> (parts: (u64, i64, u64))
    requires
        is_normal_bits(num),
    ensures
        parts == parts_of_bits(num),
        valid_parts(parts.0, parts.1, parts.2),
        bits_of_parts(parts.0, parts.1, parts.2) == num,
{
    let sign_bit: u64 = num >> DOUBLE_SIGN_BIT_POSITION;
    let exponent_bits: u64 = (num >> DOUBLE_MANTISSA_WIDTH) & 0x7ff;
    let mantissa_bits: u64 = (num & 0xf_ffff_ffff_ffff) | DOUBLE_IMPLICIT_BIT;
    assert(num >> 63 == num / 0x8000_0000_0000_0000 && (num >> 52) & 0x7ff == (num
        / 0x10_0000_0000_0000) % 0x800 && (num & 0xf_ffff_ffff_ffff) | 0x10_0000_0000_0000 == num
        % 0x10_0000_0000_0000 + 0x10_0000_0000_0000) by (bit_vector);
    (sign_bit, exponent_bits as i64 - DOUBLE_BIAS as i64, mantissa_bits)
}

/// Puts a sign, an exponent without bias and a mantissa with the implicit bit
/// together into the bit pattern of a normal number.
///
/// This is the inverse of [`floating_point_parts`].
pub fn from_floating_point_parts(sign: u64, exponent: i64, mantissa: u64) -> (num: u64)
    requires
        valid_parts(sign, exponent, mantissa),
    ensures
        num == bits_of_parts(sign, exponent, mantissa),
        is_normal_bits(num),
        parts_of_bits(num) == (sign, exponent, mantissa),
{
    let mant: u64 = mantissa & !DOUBLE_IMPLICIT_BIT;
    let biased: u64 = (exponent + DOUBLE_BIAS as i64) as u64;
    let exp: u64 = biased << DOUBLE_MANTISSA_WIDTH;
    let sig: u64 = sign << DOUBLE_SIGN_BIT_POSITION;
    assert(mantissa & !0x10_0000_0000_0000u64 == mantissa - 0x10_0000_0000_0000 && biased << 52
        == biased * 0x10_0000_0000_0000 && sign << 63 == sign * 0x8000_0000_0000_0000)
        by (bit_vector)
        requires
            0x10_0000_0000_0000 <= mantissa < 0x20_0000_0000_0000,
            biased < 0x800,
            sign <= 1,
    ;
    assert(sig | exp | mant == sig + exp + mant) by (bit_vector)
        requires
            sig == 0 || sig == 0x8000_0000_0000_0000,
            exp == biased << 52,
            biased < 0x800,
            mant < 0x10_0000_0000_0000,
    ;
    sig | exp | mant
}

/// Taking a normal number apart and putting it together again gives the same
/// bit pattern.
pub proof fn lemma_parts_round_trip(num: u64)
    requires
        is_normal_bits(num),
    ensures
        ({
            let parts = parts_of_bits(num);
            valid_parts(parts.0, parts.1, parts.2) && bits_of_parts(parts.0, parts.1, parts.2)
                == num
        }),
{
}

/// Putting valid parts together and taking the result apart gives the same
/// parts.
pub proof fn lemma_bits_round_trip(sign: u64, exponent: i64, mantissa: u64)
    requires
        valid_parts(sign, exponent, mantissa),
    ensures
        is_normal_bits(bits_of_parts(sign, exponent, mantissa)),
        parts_of_bits(bits_of_parts(sign, exponent, mantissa)) == (sign, exponent, mantissa),
{
}

/// The bit pattern that [`next_floating_point`] gives for `num`.
pub open spec fn next_bits(num: u64) -> u64 {
    if is_infinite_bits(num) {
        DOUBLE_NAN_BITS
    } else if sign_field(num) == 1 && exponent_field(num) == 0 {
        0
    } else if num == u64::MAX {
        0
    } else {
        (num + 1) as u64
    }
}

/// Gives the next representable number after `num`, away from zero.
///
/// For an infinity this is NaN. For negative zero and for negative subnormal
/// numbers it is positive zero. For every other bit pattern it is the
/// pattern increased by one, so for a finite number the adjacent number of
/// the same sign that is greater in magnitude.
pub fn next_floating_point(num: u64) -> (next: u64)
    ensures
        next == next_bits(num),
        !is_infinite_bits(num) && !is_nan_bits(num) && !(sign_field(num) == 1 && exponent_field(
            num,
        ) == 0) ==> sign_field(next) == sign_field(num) && magnitude_field(next)
            == magnitude_field(num) + 1,
{
    let magnitude: u64 = num & 0x7fff_ffff_ffff_ffff;
    let negative: bool = num >> DOUBLE_SIGN_BIT_POSITION == 1;
    assert(num & 0x7fff_ffff_ffff_ffff == num % 0x8000_0000_0000_0000 && num >> 63 == num
        / 0x8000_0000_0000_0000) by (bit_vector);
    if magnitude == DOUBLE_INFINITY_BITS {
        return DOUBLE_NAN_BITS;
    }
    // Below the implicit bit the exponent field is zero: the number is zero
    // or subnormal.

    if negative && magnitude < DOUBLE_IMPLICIT_BIT {
        0
    } else {
        num.wrapping_add(1)
    }
}

} // verus!
