//! The digits of a floating point number in a radix from 2 to 36.

use vstd::prelude::*;
use vstd::arithmetic::power2::{
    lemma_pow2_pos,
    lemma_pow2_strictly_increases,
    lemma_pow2_unfold,
    pow2,
};
use vstd::slice::slice_subrange;
use crate::bytes::append;
use crate::number::digit_buffer::{DigitBuffer, DEFAULT_BUFFER_SIZE};
use crate::number::magnitude::{units_of_bits, Magnitude};
use crate::number::whole::Whole;
use crate::number::rounding::{
    bit_length,
    half_quantum,
    lemma_bit_length_bound,
    lemma_bit_length_monotonic,
    lemma_round_even_above_one,
    lemma_round_even_below_whole,
    lemma_round_even_keeps_length,
    lemma_rounded_fraction,
    one,
    round_even,
};
use crate::number::utils::{
    DOUBLE_INFINITY_BITS,
    FloatClass,
    class_of_bits,
    classify,
    digit_char,
    is_digit_char,
    from_character_byte,
    is_infinite_bits,
    lemma_digit_char_injective,
    lemma_digit_round_trip,
    is_nan_bits,
    magnitude_field,
    sign_field,
    to_character_byte,
};

verus! {

/// The digits of the whole number `n` in the given radix, the most
/// significant first.
pub open spec fn integer_digits(n: nat, radix: nat) -> Seq<u8>
    decreases n,
    when radix >= 2
    via integer_digits_decreases
{
    if n < radix {
        seq![digit_char(n as int)]
    } else {
        integer_digits(n / radix, radix).push(digit_char((n % radix) as int))
    }
}

#[via_fn]
proof fn integer_digits_decreases(n: nat, radix: nat) {
    if n >= radix {
        vstd::arithmetic::div_mod::lemma_div_decreases(n as int, radix as int);
    }
}

/// The digit characters of a sequence of digit values.
pub open spec fn digit_chars(digits: Seq<nat>) -> Seq<u8> {
    Seq::new(digits.len(), |i: int| digit_char(digits[i] as int))
}

/// Whether a fraction is cut off upwards after a digit: when what is left
/// of it is more than one half, or is one half and the digit is odd.
pub open spec fn rounds_up(rest: nat, digit: nat) -> bool {
    2 * rest > one() || (2 * rest == one() && digit % 2 == 1)
}

/// The digits without the digits `top` at their end.
pub open spec fn strip_trailing(digits: Seq<nat>, top: nat) -> Seq<nat>
    decreases digits.len(),
{
    if digits.len() > 0 && digits.last() == top {
        strip_trailing(digits.drop_last(), top)
    } else {
        digits
    }
}

/// The digits of a fraction that is one unit in the last place more than
/// `digits` say. The largest digits at the end become zero and are left
/// out, and the digit before them grows by one. Where no digit is left the
/// fraction has become one: the result is no digit, and `true` for the one
/// that goes to the whole part.
pub open spec fn carry_up(digits: Seq<nat>, radix: nat) -> (Seq<nat>, bool) {
    let kept = strip_trailing(digits, (radix - 1) as nat);
    if kept.len() == 0 {
        (kept, true)
    } else {
        (kept.update(kept.len() - 1, kept.last() + 1), false)
    }
}

/// The digits that stand for `fraction`, after the digits `digits` that
/// have been found already, and whether the fraction was rounded up to one.
///
/// `fraction` is what is left of the number after `digits`, below one;
/// `delta` is how far a value may lie from the number and still be read
/// back as it. Each step multiplies both by the radix as a floating
/// point multiplication does; the whole part of the fraction is the next
/// digit. The digits end where what is left is less than `delta`, or where
/// rounding the last digit up stays within `delta` of the number.
pub open spec fn fraction_digits(fraction: nat, delta: nat, radix: nat, digits: Seq<nat>) -> (
    Seq<nat>,
    bool,
)
    decreases one() - delta,
    when delta > 0 && radix >= 2
    via fraction_digits_decreases
{
    let scaled = round_even(fraction * radix);
    let tolerance = round_even(delta * radix);
    let digit = scaled / one();
    let rest = scaled % one();
    let found = digits.push(digit);
    if rounds_up(rest, digit) {
        if round_even(rest + tolerance) > one() {
            carry_up(found, radix)
        } else {
            fraction_digits(rest, tolerance, radix, found)
        }
    } else if rest < tolerance {
        (found, false)
    } else {
        fraction_digits(rest, tolerance, radix, found)
    }
}

#[via_fn]
proof fn fraction_digits_decreases(fraction: nat, delta: nat, radix: nat, digits: Seq<nat>) {
    let scaled = round_even(fraction * radix);
    let tolerance = round_even(delta * radix);
    let rest = scaled % one();
    lemma_tolerance_grows(delta, radix);
    lemma_pow2_pos(1074);
    if rounds_up(rest, scaled / one()) {
        lemma_round_even_above_one(rest + tolerance);
        lemma_pow2_strictly_increases(1021, 1073);
        lemma_pow2_unfold(1074);
    }
}

/// Multiplying a positive magnitude by the radix makes it longer by at
/// least one bit, so greater.
pub proof fn lemma_tolerance_grows(delta: nat, radix: nat)
    requires
        delta > 0,
        radix >= 2,
    ensures
        bit_length(round_even(delta * radix)) > bit_length(delta),
        round_even(delta * radix) > delta,
{
    assert(2 * delta <= delta * radix) by (nonlinear_arith)
        requires
            radix >= 2,
    ;
    assert(bit_length(2 * delta) == bit_length(delta) + 1) by {
        assert((2 * delta) / 2 == delta);
    }
    lemma_bit_length_monotonic(2 * delta, delta * radix);
    lemma_round_even_keeps_length(delta * radix);
    if round_even(delta * radix) <= delta {
        lemma_bit_length_monotonic(round_even(delta * radix), delta);
    }
}

/// The digits of a magnitude, given in units of 2^-1074: the whole part,
/// then a point and the digits of the fraction, if it has any that count.
pub open spec fn magnitude_string(units: nat, radix: nat) -> Seq<u8> {
    let integral = units / one();
    let fraction = units % one();
    let delta = half_quantum(units);
    if fraction >= delta {
        let (digits, carry) = fraction_digits(fraction, delta, radix, Seq::empty());
        if carry {
            integer_digits(integral + 1, radix)
        } else {
            integer_digits(integral, radix) + seq![46u8] + digit_chars(digits)
        }
    } else {
        integer_digits(integral, radix)
    }
}

/// The text `NaN`.
pub open spec fn nan_text() -> Seq<u8> {
    seq![78u8, 97u8, 78u8]
}

/// The text `Infinity`.
pub open spec fn infinity_text() -> Seq<u8> {
    seq![73u8, 110u8, 102u8, 105u8, 110u8, 105u8, 116u8, 121u8]
}

/// The text `-`.
pub open spec fn minus_text() -> Seq<u8> {
    seq![45u8]
}

/// The text `0`.
pub open spec fn zero_text() -> Seq<u8> {
    seq![48u8]
}

/// The string for the number with the bit pattern `num` in the given radix:
/// `NaN`, `0` for either zero, `Infinity` with its sign, and else the digits
/// of the magnitude, after a `-` for a negative number.
pub open spec fn radix_string(num: u64, radix: nat) -> Seq<u8> {
    let sign = if sign_field(num) == 1 {
        minus_text()
    } else {
        Seq::empty()
    };
    match class_of_bits(num) {
        FloatClass::Nan => nan_text(),
        FloatClass::Zero => zero_text(),
        FloatClass::Infinite => sign + infinity_text(),
        FloatClass::Finite => sign + magnitude_string(
            units_of_bits(magnitude_field(num)),
            radix,
        ),
    }
}

/// A negative number has the string of the positive number of the same
/// magnitude, after a `-`, unless it is zero or NaN.
pub proof fn lemma_sign_symmetry(num: u64, radix: nat)
    requires
        sign_field(num) == 0,
        magnitude_field(num) != 0,
        !is_nan_bits(num),
    ensures
        radix_string((num + 0x8000_0000_0000_0000) as u64, radix) == minus_text() + radix_string(
            num,
            radix,
        ),
{
    let negative = (num + 0x8000_0000_0000_0000) as u64;
    assert(sign_field(negative) == 1);
    assert(magnitude_field(negative) == magnitude_field(num));
    assert(forall|text: Seq<u8>| Seq::<u8>::empty() + text =~= text);
}

/// Both zeros have the string `0`, in every radix: there is no `-0`.
pub proof fn lemma_zero_string(num: u64, radix: nat)
    requires
        magnitude_field(num) == 0,
    ensures
        radix_string(num, radix) == zero_text(),
{
}

/// Every NaN has the string `NaN`, and the infinities have the strings
/// `Infinity` and `-Infinity`, in every radix.
pub proof fn lemma_special_strings(num: u64, radix: nat)
    ensures
        is_nan_bits(num) ==> radix_string(num, radix) == nan_text(),
        is_infinite_bits(num) && sign_field(num) == 0 ==> radix_string(num, radix)
            == infinity_text(),
        is_infinite_bits(num) && sign_field(num) == 1 ==> radix_string(num, radix) == minus_text()
            + infinity_text(),
{
    assert(Seq::<u8>::empty() + infinity_text() =~= infinity_text());
}

/// Whether a byte is a digit of the radix: the digit character of a value
/// below the radix.
pub open spec fn is_radix_digit(byte: u8, radix: nat) -> bool {
    exists|value: nat| value < radix && byte == digit_char(value as int)
}

/// The digit character of a value below the radix is a digit of the radix,
/// and neither a point nor a sign.
pub proof fn lemma_radix_digit(value: nat, radix: nat)
    requires
        value < radix <= 36,
    ensures
        is_radix_digit(digit_char(value as int), radix),
        is_digit_char(digit_char(value as int)),
{
}

/// The digits of a whole number are digits of the radix, at least one of
/// them and no more than the number has bits.
pub proof fn lemma_integer_digits_are_digits(n: nat, radix: nat)
    requires
        2 <= radix <= 36,
    ensures
        integer_digits(n, radix).len() >= 1,
        integer_digits(n, radix).len() <= bit_length(n) || integer_digits(n, radix).len() == 1,
        forall|i: int|
            0 <= i < integer_digits(n, radix).len() ==> is_radix_digit(
                #[trigger] integer_digits(n, radix)[i],
                radix,
            ),
    decreases n,
{
    if n >= radix {
        vstd::arithmetic::div_mod::lemma_div_decreases(n as int, radix as int);
        vstd::arithmetic::div_mod::lemma_div_is_ordered_by_denominator(n as int, 2, radix as int);
        vstd::arithmetic::div_mod::lemma_div_non_zero(n as int, radix as int);
        lemma_integer_digits_are_digits(n / radix, radix);
        lemma_bit_length_monotonic(n / radix, n / 2);
        vstd::arithmetic::div_mod::lemma_mod_bound(n as int, radix as int);
        lemma_radix_digit(n % radix, radix);
    } else {
        lemma_radix_digit(n, radix);
    }
}

/// The digits without the digits `top` at their end are the first of the
/// digits, and do not end in `top`.
pub proof fn lemma_strip_trailing(digits: Seq<nat>, top: nat)
    ensures
        strip_trailing(digits, top).len() <= digits.len(),
        strip_trailing(digits, top) == digits.take(strip_trailing(digits, top).len() as int),
        strip_trailing(digits, top).len() > 0 ==> strip_trailing(digits, top).last() != top,
    decreases digits.len(),
{
    if digits.len() > 0 && digits.last() == top {
        lemma_strip_trailing(digits.drop_last(), top);
        let kept = strip_trailing(digits, top);
        assert(kept =~= digits.take(kept.len() as int));
    } else {
        assert(digits =~= digits.take(digits.len() as int));
    }
}

/// The digits of a fraction are digits of the radix, no more than 1074 of
/// them, and there is none exactly where the fraction was rounded up to one.
pub proof fn lemma_fraction_digits_shape(fraction: nat, delta: nat, radix: nat, digits: Seq<nat>)
    requires
        2 <= radix <= 36,
        0 < delta < one(),
        fraction + pow2(1021) <= one(),
        digits.len() + 1 <= bit_length(delta),
        forall|i: int| 0 <= i < digits.len() ==> digits[i] < radix,
    ensures
        ({
            let (found, carry) = fraction_digits(fraction, delta, radix, digits);
            &&& found.len() <= 1074
            &&& carry <==> found.len() == 0
            &&& forall|i: int| 0 <= i < found.len() ==> found[i] < radix
        }),
    decreases one() - delta,
{
    let scaled = round_even(fraction * radix);
    let tolerance = round_even(delta * radix);
    let digit = scaled / one();
    let rest = scaled % one();
    let found = digits.push(digit);
    lemma_pow2_pos(1074);
    lemma_pow2_pos(1021);
    assert(fraction * radix + radix * pow2(1021) <= radix * one()) by (nonlinear_arith)
        requires
            fraction + pow2(1021) <= one(),
    ;
    lemma_round_even_below_whole(fraction * radix, radix);
    assert(digit < radix) by (nonlinear_arith)
        requires
            digit == scaled / one(),
            scaled < radix * one(),
            one() > 0,
    ;
    lemma_rounded_fraction(fraction * radix);
    lemma_tolerance_grows(delta, radix);
    lemma_bit_length_bound(delta, 1074);
    assert(forall|i: int| 0 <= i < found.len() ==> found[i] < radix);
    if rounds_up(rest, digit) && round_even(rest + tolerance) > one() {
        let top = (radix - 1) as nat;
        let kept = strip_trailing(found, top);
        lemma_strip_trailing(found, top);
    } else if rounds_up(rest, digit) || rest >= tolerance {
        if rounds_up(rest, digit) {
            lemma_round_even_above_one(rest + tolerance);
            lemma_pow2_strictly_increases(1021, 1073);
            lemma_pow2_unfold(1074);
        }
        lemma_fraction_digits_shape(rest, tolerance, radix, found);
    }
}

/// The digits of a finite magnitude other than zero are a numeral: digits
/// of the radix with at most one point among them, which stands neither
/// first nor last. They are no more than 2099 bytes: 1024 digits of the
/// whole part, the point and 1074 digits of the fraction.
pub proof fn lemma_magnitude_string_shape(bits: u64, radix: nat)
    requires
        2 <= radix <= 36,
        bits < DOUBLE_INFINITY_BITS,
    ensures
        ({
            let text = magnitude_string(units_of_bits(bits), radix);
            &&& 1 <= text.len() <= 2099
            &&& forall|i: int|
                0 <= i < text.len() ==> is_radix_digit(#[trigger] text[i], radix) || text[i] == 46
            &&& forall|i: int, j: int|
                0 <= i < text.len() && 0 <= j < text.len() && text[i] == 46 && text[j] == 46 ==> i
                    == j
            &&& text[0] != 46
            &&& text.last() != 46
        }),
{
    let units = units_of_bits(bits);
    let integral = units / one();
    let fraction = units % one();
    let delta = half_quantum(units);
    let text = magnitude_string(units, radix);
    vstd::arithmetic::power2::lemma2_to64();
    lemma_pow2_pos(1074);
    Magnitude::lemma_bits_representable(bits);
    lemma_bit_length_bound(integral, 1024);
    lemma_integer_digits_are_digits(integral, radix);
    lemma_integer_digits_are_digits(integral + 1, radix);
    lemma_rounded_fraction(units);
    assert forall|byte: u8| is_radix_digit(byte, radix) implies byte != 46 by {
        let value = choose|value: nat| value < radix && byte == digit_char(value as int);
        lemma_radix_digit(value, radix);
    }
    if fraction >= delta {
        let (digits, carry) = fraction_digits(fraction, delta, radix, Seq::empty());
        assert(delta > 0);
        lemma_bit_length_bound(delta, 0);
        lemma_fraction_digits_shape(fraction, delta, radix, Seq::empty());
        if !carry {
            let head = integer_digits(integral, radix);
            let tail = digit_chars(digits);
            assert(text == head + seq![46u8] + tail);
            assert(text.len() == head.len() + 1 + tail.len());
            assert forall|i: int| 0 <= i < tail.len() implies is_radix_digit(
                #[trigger] tail[i],
                radix,
            ) by {
                lemma_radix_digit(digits[i], radix);
            }
            assert forall|i: int| 0 <= i < text.len() implies (is_radix_digit(
                #[trigger] text[i],
                radix,
            ) || text[i] == 46) && (text[i] == 46 ==> i == head.len()) by {
                if i < head.len() {
                    assert(text[i] == head[i]);
                } else if i > head.len() {
                    assert(text[i] == tail[i - head.len() - 1]);
                }
            }
            assert(text[0] == head[0]);
            assert(text.last() == tail.last());
            assert(head.len() <= 1024);
            assert(tail.len() <= 1074);
        } else {
            assert(text == integer_digits(integral + 1, radix));
            lemma_pow2_unfold(1025);
            lemma_bit_length_bound(integral + 1, 1025);
            assert(text.len() <= 1025);
        }
    } else {
        assert(text == integer_digits(integral, radix));
        assert(text.len() <= 1024);
    }
}

/// A positive whole number has the digits of that number as its string,
/// and no point in it.
pub proof fn lemma_whole_number_string(num: u64, radix: nat)
    requires
        2 <= radix <= 36,
        sign_field(num) == 0,
        magnitude_field(num) != 0,
        !is_nan_bits(num),
        !is_infinite_bits(num),
        units_of_bits(num) % one() == 0,
    ensures
        radix_string(num, radix) == integer_digits(units_of_bits(num) / one(), radix),
        !radix_string(num, radix).contains(46u8),
{
    let digits = integer_digits(units_of_bits(num) / one(), radix);
    lemma_integer_digits_are_digits(units_of_bits(num) / one(), radix);
    assert(half_quantum(units_of_bits(num)) > 0) by {
        lemma_pow2_pos((bit_length(units_of_bits(num)) - 53) as nat);
        if bit_length(units_of_bits(num)) > 54 {
            lemma_pow2_strictly_increases(1, (bit_length(units_of_bits(num)) - 53) as nat);
        }
        vstd::arithmetic::power2::lemma2_to64();
    }
    assert(magnitude_field(num) == num);
    assert(Seq::<u8>::empty() + digits =~= digits);
    if digits.contains(46u8) {
        let i = choose|i: int| 0 <= i < digits.len() && digits[i] == 46u8;
        assert(is_radix_digit(digits[i], radix));
        let value = choose|value: nat| value < radix && digits[i] == digit_char(value as int);
        lemma_radix_digit(value, radix);
    }
}

/// Gives the character that stands for the digit `byte` in the given radix.
fn get_radix_byte(radix: u8, byte: u8) -> (c: u8)
    requires
        2 <= radix <= 36,
    ensures
        c == digit_char((byte % radix) as int),
{
    to_character_byte(byte % radix)
}

/// Writes the digits of `integral` before what is in `buffer`.
fn write_integer_digits(buffer: &mut DigitBuffer, integral: Whole, radix: u8)
    requires
        2 <= radix <= 36,
        old(buffer).wf(),
        old(buffer).free() >= 1024,
    ensures
        final(buffer).wf(),
        final(buffer).free() >= old(buffer).free() - 1024,
        final(buffer).head() == integer_digits(integral.value(), radix as nat) + old(
            buffer,
        ).head(),
        final(buffer).fraction() == old(buffer).fraction(),
{
    let mut left: Whole = integral;
    let ghost mut written: Seq<u8> = Seq::empty();
    proof {
        integral.lemma_value_bound();
        lemma_bit_length_bound(integral.value(), 1024);
        assert(written + buffer.head() =~= buffer.head());
        assert(integer_digits(integral.value(), radix as nat) + written =~= integer_digits(
            integral.value(),
            radix as nat,
        ));
    }
    loop
        invariant_except_break
            written.len() + (if left.value() == 0 {
                1
            } else {
                bit_length(left.value())
            }) <= 1024,
            integer_digits(integral.value(), radix as nat) == integer_digits(
                left.value(),
                radix as nat,
            ) + written,
        invariant
            2 <= radix <= 36,
            buffer.wf(),
            old(buffer).free() >= 1024,
            buffer.free() == old(buffer).free() - written.len(),
            buffer.head() == written + old(buffer).head(),
            buffer.fraction() == old(buffer).fraction(),
        ensures
            written.len() <= 1024,
            written == integer_digits(integral.value(), radix as nat),
        decreases left.value(),
    {
        let ghost number = left.value();
        let ghost before = written;
        let value: u8 = left.div_small(radix);
        let character: u8 = get_radix_byte(radix, value);
        buffer.push_front(character);
        proof {
            let next = number / radix as nat;
            written = seq![character] + before;
            vstd::arithmetic::div_mod::lemma_mod_bound(number as int, radix as int);
            vstd::arithmetic::div_mod::lemma_small_mod(value as nat, radix as nat);
            assert(character == digit_char(value as int));
            assert(buffer.head() =~= written + old(buffer).head());
            assert(integer_digits(number, radix as nat) == if number < radix {
                seq![character]
            } else {
                integer_digits(next, radix as nat).push(character)
            }) by {
                if number < radix {
                    vstd::arithmetic::div_mod::lemma_small_mod(number, radix as nat);
                }
            }
            if number >= radix {
                vstd::arithmetic::div_mod::lemma_div_is_ordered_by_denominator(
                    number as int,
                    2,
                    radix as int,
                );
                vstd::arithmetic::div_mod::lemma_div_decreases(number as int, radix as int);
                vstd::arithmetic::div_mod::lemma_div_non_zero(number as int, radix as int);
                lemma_bit_length_monotonic(next, number / 2);
                assert(integer_digits(number, radix as nat) + before =~= integer_digits(
                    next,
                    radix as nat,
                ) + written);
            } else {
                vstd::arithmetic::div_mod::lemma_basic_div(number as int, radix as int);
                assert(integer_digits(number, radix as nat) + before =~= written);
            }
        }
        if left.is_zero() {
            break ;
        }
    }
}

/// Writes the digits of `fraction` into the empty `buffer`, and tells
/// whether the fraction was rounded up to one.
fn write_fraction_digits(
    buffer: &mut DigitBuffer,
    fraction: Magnitude,
    delta: Magnitude,
    radix: u8,
) -> (carried: bool)
    requires
        2 <= radix <= 36,
        fraction.wf(),
        delta.wf(),
        0 < delta.units() <= fraction.units() < one(),
        old(buffer).wf(),
        old(buffer).collecting(),
        old(buffer).free() == DEFAULT_BUFFER_SIZE,
    ensures
        ({
            let (digits, carry) = fraction_digits(
                fraction.units(),
                delta.units(),
                radix as nat,
                Seq::empty(),
            );
            &&& carried == carry
            &&& carry <==> digits.len() == 0
            &&& final(buffer).wf()
            &&& final(buffer).free() >= 1126
            &&& final(buffer).head() == Seq::<u8>::empty()
            &&& final(buffer).fraction() == digit_chars(digits)
        }),
{
    let half = Magnitude::half();
    let mut f: Magnitude = fraction;
    let mut d: Magnitude = delta;
    let mut carried: bool = false;
    let ghost mut digits: Seq<nat> = Seq::empty();
    let ghost goal = fraction_digits(fraction.units(), delta.units(), radix as nat, Seq::empty());
    proof {
        lemma_bit_length_bound(d.units(), 0);
        vstd::arithmetic::power2::lemma2_to64();
        buffer.lemma_collecting();
        assert(buffer.fraction() =~= digit_chars(digits));
    }
    loop
        invariant_except_break
            f.wf(),
            d.wf(),
            0 < d.units() < one(),
            f.units() < one(),
            !carried,
            buffer.collecting(),
            digits.len() + 1 <= bit_length(d.units()),
            goal == fraction_digits(f.units(), d.units(), radix as nat, digits),
            buffer.fraction() == digit_chars(digits),
        invariant
            2 <= radix <= 36,
            half.wf(),
            2 * half.units() == one(),
            buffer.wf(),
            buffer.free() + digits.len() == DEFAULT_BUFFER_SIZE,
            buffer.head() == Seq::<u8>::empty(),
            forall|i: int| 0 <= i < digits.len() ==> digits[i] < radix,
        ensures
            carried == goal.1,
            goal.1 <==> goal.0.len() == 0,
            buffer.free() >= 1126,
            buffer.fraction() == digit_chars(goal.0),
        decreases buffer.free(),
    {
        proof {
            f.lemma_below_one();
            d.lemma_below_one();
            lemma_bit_length_bound(d.units(), 1074);
            f.lemma_times_below(radix as nat);
            lemma_tolerance_grows(d.units(), radix as nat);
            lemma_pow2_pos(1074);
        }
        let scaled = f.times(radix);
        let tolerance = d.times(radix);
        let (whole, rest) = scaled.split();
        proof {
            let quotient = scaled.units() / one();
            assert(quotient < radix) by (nonlinear_arith)
                requires
                    quotient == scaled.units() / one(),
                    scaled.units() < radix * one(),
                    one() > 0,
            ;
            vstd::arithmetic::div_mod::lemma_small_mod(quotient, radix as nat);
        }
        let digit: u8 = whole.low() as u8;
        buffer.push_fraction_digit(get_radix_byte(radix, digit));
        let ghost found = digits.push(digit as nat);
        proof {
            digits = found;
            buffer.lemma_collecting();
            assert(buffer.fraction() =~= digit_chars(found));
        }
        if half.less_than(&rest) || (rest.equals(&half) && digit % 2 == 1) {
            if rest.sum_exceeds_one(&tolerance) {
                carried = round_up_last_digit(buffer, radix, Ghost(found));
                proof {
                    lemma_strip_trailing(found, (radix - 1) as nat);
                }
                break ;
            }
            proof {
                lemma_round_even_above_one(rest.units() + tolerance.units());
                lemma_pow2_strictly_increases(1021, 1073);
                lemma_pow2_unfold(1074);
            }
        } else if rest.less_than(&tolerance) {
            break ;
        }
        f = rest;
        d = tolerance;
    }
    carried
}

/// Makes the fraction in `buffer` greater by one unit in its last place:
/// takes the digits away that are the largest digit of the radix, and
/// makes the digit before them greater by one. Tells whether no digit was
/// left, so that the one goes to the whole part.
fn round_up_last_digit(
    buffer: &mut DigitBuffer,
    radix: u8,
    Ghost(digits): Ghost<Seq<nat>>,
) -> (carried: bool)
    requires
        2 <= radix <= 36,
        old(buffer).wf(),
        old(buffer).head() == Seq::<u8>::empty(),
        old(buffer).fraction() == digit_chars(digits),
        forall|i: int| 0 <= i < digits.len() ==> digits[i] < radix,
    ensures
        final(buffer).wf(),
        final(buffer).free() == old(buffer).free(),
        final(buffer).head() == Seq::<u8>::empty(),
        final(buffer).fraction() == digit_chars(carry_up(digits, radix as nat).0),
        carried == carry_up(digits, radix as nat).1,
{
    let top: u8 = get_radix_byte(radix, radix - 1);
    let ghost largest = (radix - 1) as nat;
    let ghost mut kept: Seq<nat> = digits;
    proof {
        vstd::arithmetic::div_mod::lemma_small_mod(largest, radix as nat);
        assert(digits.take(digits.len() as int) =~= digits);
    }
    // Rounding up carries into the digits found before for as long as
    // they are the largest digit of the radix.
    while buffer.has_fraction() && buffer.last_fraction_digit() == top
        invariant
            2 <= radix <= 36,
            largest == radix - 1,
            top == digit_char(radix - 1),
            buffer.wf(),
            buffer.free() == old(buffer).free(),
            buffer.head() == Seq::<u8>::empty(),
            buffer.fraction() == digit_chars(kept),
            kept.len() <= digits.len(),
            kept == digits.take(kept.len() as int),
            strip_trailing(digits, largest) == strip_trailing(kept, largest),
            forall|i: int| 0 <= i < digits.len() ==> digits[i] < radix,
        decreases kept.len(),
    {
        proof {
            assert(buffer.fraction().last() == digit_char(kept.last() as int));
            lemma_digit_char_injective(kept.last() as u8, largest as u8);
        }
        buffer.discard_fraction_digit();
        proof {
            assert(kept.drop_last() =~= digits.take(kept.len() - 1));
            kept = kept.drop_last();
            assert(buffer.fraction() =~= digit_chars(kept));
        }
    }
    if !buffer.has_fraction() {
        true
    } else {
        let ghost last = kept.last();
        let character: u8 = buffer.last_fraction_digit();
        proof {
            assert(character == digit_char(last as int));
            lemma_digit_round_trip(last as u8);
            if last == largest {
                assert(character == top);
            }
            vstd::arithmetic::div_mod::lemma_small_mod((last + 1) as nat, radix as nat);
        }
        let value: u8 = from_character_byte(character);
        buffer.replace_last_fraction_digit(get_radix_byte(radix, value + 1));
        proof {
            assert(buffer.fraction() =~= digit_chars(kept.update(kept.len() - 1, last + 1)));
        }
        false
    }
}

/// Converts the number with the bit pattern `num` into the bytes of its
/// string in the radix `RADIX`, and appends them to `bytes`.
///
/// The string is made as `Number.prototype.toString` makes it. The whole
/// part is written in full. The digits of the fraction go on until what is
/// left of it is less than half the distance to the next number, so that no
/// more digits are written than tell the number from its neighbours; the
/// last digit is rounded to nearest, to even at a tie. Digits above 9 are
/// lowercase letters.
///
/// The radix is from 2 to 36.
pub fn float_to_custom_radix<const RADIX: u8>(num: u64, bytes: &mut Vec<u8>)
    requires
        2 <= RADIX <= 36,
    ensures
        final(bytes)@ == old(bytes)@ + radix_string(num, RADIX as nat),
{
    let magnitude_bits: u64 = num & 0x7fff_ffff_ffff_ffff;
    let is_negative: bool = num >> 63 == 1;
    assert(num & 0x7fff_ffff_ffff_ffff == num % 0x8000_0000_0000_0000 && num >> 63 == num
        / 0x8000_0000_0000_0000) by (bit_vector);
    match classify(num) {
        FloatClass::Nan => {
            let text: [u8; 3] = [78, 97, 78];
            assert(text@ =~= nan_text());
            append(bytes, text.as_slice());
            return ;
        },
        // Positive and negative zero are written alike.
        FloatClass::Zero => {
            let text: [u8; 1] = [48];
            assert(text@ =~= zero_text());
            append(bytes, text.as_slice());
            return ;
        },
        FloatClass::Infinite => {
            let text: [u8; 9] = [45, 73, 110, 102, 105, 110, 105, 116, 121];
            let start: usize = if is_negative {
                0
            } else {
                1
            };
            assert(text@.subrange(start as int, 9) =~= radix_string(num, RADIX as nat));
            append(bytes, slice_subrange(text.as_slice(), start, 9));
            return ;
        },
        FloatClass::Finite => {},
    }
    let magnitude = Magnitude::from_bits(magnitude_bits);
    let (whole, fraction) = magnitude.split();
    // Half the distance to the next number: digits that are within it of
    // the number are read back as the number.
    let delta = magnitude.half_ulp();
    let mut integral: Whole = whole;
    let mut buffer = DigitBuffer::new();
    if !fraction.less_than(&delta) {
        proof {
            lemma_pow2_pos(1074);
        }
        if write_fraction_digits(&mut buffer, fraction, delta, RADIX) {
            proof {
                vstd::arithmetic::power2::lemma2_to64_rest();
                lemma_pow2_strictly_increases(54, 1024);
            }
            integral.add_one();
        } else {
            buffer.push_front(46);
        }
    }
    write_integer_digits(&mut buffer, integral, RADIX);
    if is_negative {
        buffer.push_front(45);
    }
    proof {
        let text = magnitude_string(magnitude.units(), RADIX as nat);
        if is_negative {
            assert(buffer.text() =~= minus_text() + text);
        } else {
            assert(buffer.text() =~= Seq::<u8>::empty() + text);
        }
    }
    buffer.finish(bytes);
}

} // verus!
