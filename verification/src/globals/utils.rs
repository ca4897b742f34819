//! Hexadecimal digits and two octet sequences.

use vstd::prelude::*;

verus! {

/// The uppercase hexadecimal digit for a value below 16.
pub open spec fn upper_hex_digit(value: int) -> u8 {
    if value < 10 {
        (48 + value) as u8
    } else {
        (55 + value) as u8
    }
}

/// The two uppercase hexadecimal digits of a byte.
pub open spec fn hex_pair(byte: u8) -> Seq<u8> {
    seq![upper_hex_digit(byte as int / 16), upper_hex_digit(byte as int % 16)]
}

/// What a byte counts for as a hexadecimal digit, of either case: its value
/// below 16, or `0xFFFF` for a byte that is no hexadecimal digit.
pub open spec fn hex_digit_entry(byte: u8) -> u32 {
    if 48 <= byte <= 57 {
        (byte - 48) as u32
    } else if 65 <= byte <= 70 {
        (byte - 55) as u32
    } else if 97 <= byte <= 102 {
        (byte - 87) as u32
    } else {
        0xFFFF
    }
}

/// Whether a byte is a hexadecimal digit, of either case.
pub open spec fn is_hex_digit(byte: u8) -> bool {
    hex_digit_entry(byte) < 16
}

/// The number that two hexadecimal digits spell, below `0x100`. Where one
/// of the bytes is no hexadecimal digit, a number from `0xFFFF` up.
pub open spec fn hex_pair_value(one: u8, two: u8) -> u32 {
    let high = hex_digit_entry(one);
    let low = hex_digit_entry(two);
    if high < 16 && low < 16 {
        (16 * high + low) as u32
    } else if high < 16 {
        0xFFFF
    } else if low < 16 {
        (0xF_FFF0 + low) as u32
    } else {
        0xF_FFFF
    }
}

/// The two octets that stand for a code point below `0x800` in UTF-8: a
/// lead byte with the bits above the low six, a continuation byte with the
/// low six. Of a larger value only the low twelve bits count.
pub open spec fn two_octets(val: u16) -> Seq<u8> {
    seq![(192 + (val as int / 64) % 64) as u8, (128 + val as int % 64) as u8]
}

fn upper_hex_byte(value: u8) -> (c: u8)
    requires
        value < 16,
    ensures
        c == upper_hex_digit(value as int),
{
    if value < 10 {
        48 + value
    } else {
        55 + value
    }
}

/// Converts a byte to its zero padded hexadecimal representation, in
/// uppercase.
pub fn byte_to_hex(byte: u8) -> (hex: [u8; 2])
    ensures
        hex@ == hex_pair(byte),
{
    // Pre-emptively pad.
    let mut hex_buffer: [u8; 2] = [48, 48];
    let mut index: usize = 2;
    let mut left: u8 = byte;
    loop
        invariant_except_break
            1 <= index <= 2,
            index == 2 ==> left == byte,
            index == 1 ==> left == byte / 16 && left != 0 && hex_buffer@[1] == upper_hex_digit(
                byte as int % 16,
            ),
            hex_buffer@[0] == 48,
        ensures
            hex_buffer@ =~= hex_pair(byte),
        decreases index,
    {
        let value: u8 = left % 16;
        let hex_byte: u8 = upper_hex_byte(value);
        index = index - 1;
        hex_buffer[index] = hex_byte;
        left = (left - value) / 16;
        if left == 0 {
            break ;
        }
    }
    hex_buffer
}

/// Gives the two octets that stand for `val` in UTF-8, for a `val` below
/// `0x800`. Of a larger value the bits above the low twelve are left out.
pub fn decode_two_octets(val: u16) -> (octets: [u8; 2])
    ensures
        octets@ == two_octets(val),
{
    let first: u8 = (((val >> 6) | 0xC0) & 0xFF) as u8;
    let second: u8 = ((val & 0x3F) | 0x80) as u8;
    assert(((val >> 6) | 0xC0) & 0xFF == 192 + (val / 64) % 64) by (bit_vector);
    assert((val & 0x3F) | 0x80 == 128 + val % 64) by (bit_vector);
    let octets: [u8; 2] = [first, second];
    assert(octets@ =~= two_octets(val));
    octets
}

fn hex_table_entry(byte: u8) -> (entry: u32)
    ensures
        entry == hex_digit_entry(byte),
{
    if 48 <= byte && byte <= 57 {
        (byte - 48) as u32
    } else if 65 <= byte && byte <= 70 {
        (byte - 55) as u32
    } else if 97 <= byte && byte <= 102 {
        (byte - 87) as u32
    } else {
        0xFFFF
    }
}

/// Converts two bytes into the number they spell as hexadecimal digits.
///
/// The bytes are not validated: where one of them is no hexadecimal digit
/// the result is a number greater than [`u8::MAX`].
pub fn hex_value(one: u8, two: u8) -> (value: u32)
    ensures
        value == hex_pair_value(one, two),
        is_hex_digit(one) && is_hex_digit(two) <==> value < 0x100,
{
    let high: u32 = hex_table_entry(one);
    let low: u32 = hex_table_entry(two);
    assert((high << 4) | low == if high < 16 && low < 16 {
        (16 * high + low) as u32
    } else if high < 16 {
        0xFFFFu32
    } else if low < 16 {
        (0xF_FFF0 + low) as u32
    } else {
        0xF_FFFFu32
    }) by (bit_vector)
        requires
            high < 16 || high == 0xFFFF,
            low < 16 || low == 0xFFFF,
    ;
    (high << 4) | low
}

} // verus!
