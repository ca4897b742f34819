//! Decoding of percent-encoded text: `decodeURI` and `decodeURIComponent`.

use vstd::prelude::*;
use crate::bytes::append;
use crate::globals::encode_uri::after;
use crate::globals::utils::{decode_two_octets, hex_pair_value, hex_value, two_octets};
use crate::globals::UriError;

verus! {

/// The number of escape sequences that follow the first one of a character,
/// by the value of the first, which is below `0xF8`.
pub open spec fn following_escapes(lead: u32) -> int {
    if lead < 0x80 {
        0
    } else if lead < 0xE0 {
        1
    } else if lead < 0xF0 {
        2
    } else {
        3
    }
}

/// The bits that the first escape sequence of a character gives to its code
/// point.
pub open spec fn lead_bits(lead: u32) -> int {
    if lead < 0x80 {
        lead as int
    } else if lead < 0xE0 {
        (lead % 0x20) as int
    } else if lead < 0xF0 {
        (lead % 0x10) as int
    } else {
        (lead % 0x08) as int
    }
}

/// The value of the escape sequence number `n` after the first one, for a
/// character whose first escape sequence begins at `index`. The `%` of such
/// a sequence is not looked at.
pub open spec fn following_value(bytes: Seq<u8>, index: int, n: int) -> u32 {
    hex_pair_value(bytes[index + 3 * n + 1], bytes[index + 3 * n + 2])
}

/// Whether the value of an escape sequence is that of a continuation byte.
pub open spec fn is_continuation_value(value: u32) -> bool {
    0x80 <= value < 0xC0
}

/// The code point that the first escape sequence and the `count` that
/// follow it spell, six bits from each of those.
pub open spec fn code_point(bytes: Seq<u8>, index: int, lead: u32, count: int) -> int
    decreases count,
{
    if count <= 0 {
        lead_bits(lead)
    } else {
        code_point(bytes, index, lead, count - 1) * 64 + following_value(bytes, index, count) % 64
    }
}

/// Whether a number is a Unicode scalar value: no surrogate, and not above
/// `0x10FFFF`.
pub open spec fn is_scalar_value(total: int) -> bool {
    !(0xD7FF < total < 0xE000) && total <= 0x10FFFF
}

/// What is written for a character with the code point `total`, whose last
/// escape sequence has the hexadecimal digits `one` and `two`.
///
/// A code point of `reserved` keeps that escape sequence. Another code point
/// below `0x10000` is written in two octets, and one from `0x10000` up as
/// the two octets of its high surrogate and those of its low surrogate.
pub open spec fn decoded_character(total: int, reserved: Seq<u8>, one: u8, two: u8) -> Seq<u8> {
    if total < 0x10000 {
        if total < 0x100 && reserved.contains(total as u8) {
            seq![37u8, one, two]
        } else {
            two_octets(total as u16)
        }
    } else {
        two_octets((0xD800 + (total - 0x10000) / 0x400 % 0x400) as u16) + two_octets(
            (0xDC00 + (total - 0x10000) % 0x400) as u16,
        )
    }
}

/// The code point of the character whose first escape sequence begins at
/// `index`, and the index of the last byte of the character, or why there
/// is no such character: the text ends before the character does, or an
/// escape sequence has no two hexadecimal digits, or one after the first
/// does not stand for a continuation byte, or the code point is no scalar
/// value.
pub open spec fn character_at(bytes: Seq<u8>, index: int) -> Result<(int, int), UriError> {
    let lead = hex_pair_value(bytes[index + 1], bytes[index + 2]);
    let count = following_escapes(lead);
    let last = index + 2 + 3 * count;
    let total = code_point(bytes, index, lead, count);
    if index + 2 >= bytes.len() {
        Err(UriError::InvalidUri)
    } else if lead >= 0xF8 {
        Err(UriError::InvalidUtf8Character)
    } else if last >= bytes.len() {
        Err(UriError::InvalidUri)
    } else if exists|n: int|
        1 <= n <= count && !is_continuation_value(#[trigger] following_value(bytes, index, n)) {
        Err(UriError::InvalidUtf8Character)
    } else if !is_scalar_value(total) {
        Err(UriError::InvalidUtf8Character)
    } else {
        Ok((total, last))
    }
}

/// What decoding writes for the bytes from `index` on, and how it ends.
///
/// A byte other than `%` stands for itself. A `%` begins a character: the
/// first escape sequence tells of how many the character is made, as the
/// first byte of a character in UTF-8 does. What was written before an
/// error stays.
pub open spec fn decoded_from(bytes: Seq<u8>, reserved: Seq<u8>, index: int) -> (
    Seq<u8>,
    Result<(), UriError>,
)
    decreases bytes.len() - index,
{
    if index < 0 || index >= bytes.len() {
        (Seq::empty(), Ok(()))
    } else if bytes[index] != 37 {
        after(seq![bytes[index]], decoded_from(bytes, reserved, index + 1))
    } else {
        match character_at(bytes, index) {
            Err(error) => (Seq::empty(), Err(error)),
            Ok((total, last)) => after(
                decoded_character(total, reserved, bytes[last - 1], bytes[last]),
                decoded_from(bytes, reserved, last + 1),
            ),
        }
    }
}

/// The characters whose escape sequences [`decode_uri`] keeps: `#$&+,/:;=?@`.
pub open spec fn uri_separators() -> Seq<u8> {
    seq![35u8, 36u8, 38u8, 43u8, 44u8, 47u8, 58u8, 59u8, 61u8, 63u8, 64u8]
}

/// Decodes a UTF-8 encoded URI, keeping the escape sequence of any
/// character in the set `#$&+,/:;=?@`.
pub fn decode_uri(bytes: &[u8], decoded: &mut Vec<u8>) -> (result: Result<(), UriError>)
    ensures
        final(decoded)@ == old(decoded)@ + decoded_from(bytes@, uri_separators(), 0).0,
        result == decoded_from(bytes@, uri_separators(), 0).1,
{
    let reserved: [u8; 11] = [35, 36, 38, 43, 44, 47, 58, 59, 61, 63, 64];
    assert(reserved@ =~= uri_separators());
    decode_uri_inner(bytes, reserved.as_slice(), decoded)
}

/// Decodes a UTF-8 encoded URI component.
pub fn decode_uri_component(bytes: &[u8], decoded: &mut Vec<u8>) -> (result: Result<(), UriError>)
    ensures
        final(decoded)@ == old(decoded)@ + decoded_from(bytes@, Seq::empty(), 0).0,
        result == decoded_from(bytes@, Seq::empty(), 0).1,
{
    let reserved: [u8; 0] = [];
    assert(reserved@ =~= Seq::<u8>::empty());
    decode_uri_inner(bytes, reserved.as_slice(), decoded)
}

/// Whether `total` is one of `reserved`.
fn is_reserved(reserved: &[u8], total: u32) -> (found: bool)
    ensures
        found == (total < 0x100 && reserved@.contains(total as u8)),
{
    let mut index: usize = 0;
    while index < reserved.len()
        invariant
            index <= reserved.len(),
            forall|i: int| 0 <= i < index ==> reserved@[i] != total,
        decreases reserved.len() - index,
    {
        if reserved[index] as u32 == total {
            return true;
        }
        index = index + 1;
    }
    false
}

/// Reads the character whose first escape sequence begins at `idx`. Gives
/// its code point and the index of its last byte.
fn read_character(bytes: &[u8], idx: usize) -> (character: Result<(u32, usize), UriError>)
    requires
        idx < bytes.len(),
    ensures
        match character {
            Ok((total, last)) => character_at(bytes@, idx as int) == Ok::<(int, int), UriError>(
                (total as int, last as int),
            ) && idx + 2 <= last < bytes.len(),
            Err(error) => character_at(bytes@, idx as int) == Err::<(int, int), UriError>(error),
        },
{
    let ghost index = idx as int;
    if bytes.len() - idx <= 2 {
        return Err(UriError::InvalidUri);
    }
    let next_byte: u32 = hex_value(bytes[idx + 1], bytes[idx + 2]);
    // The index of the second digit of the first escape sequence.
    let digit: usize = idx + 2;
    // The number of bytes that the escape sequences after the first one
    // take, and what the first one gives to the code point.
    let bytes_needed: usize;
    let mask: u32;
    if next_byte < 0x80 {
        bytes_needed = 0;
        mask = next_byte;
        assert(next_byte & next_byte == next_byte) by (bit_vector);
    } else if next_byte < 0xE0 {
        bytes_needed = 3;
        mask = 0x1F;
        assert(next_byte & 0x1F == next_byte % 0x20) by (bit_vector);
    } else if next_byte < 0xF0 {
        bytes_needed = 6;
        mask = 0x0F;
        assert(next_byte & 0x0F == next_byte % 0x10) by (bit_vector);
    } else if next_byte < 0xF8 {
        bytes_needed = 9;
        mask = 0x07;
        assert(next_byte & 0x07 == next_byte % 0x08) by (bit_vector);
    } else {
        return Err(UriError::InvalidUtf8Character);
    }
    if bytes_needed >= bytes.len() - digit {
        return Err(UriError::InvalidUri);
    }
    let mut total: u32 = next_byte & mask;
    let mut i: usize = 0;
    let ghost count = following_escapes(next_byte);
    while i < bytes_needed / 3
        invariant
            i <= bytes_needed / 3,
            bytes_needed == 3 * count,
            0 <= count <= 3,
            index == idx,
            digit == idx + 2,
            digit + bytes_needed < bytes.len(),
            next_byte < 0xF8,
            next_byte == hex_pair_value(bytes@[index + 1], bytes@[index + 2]),
            count == following_escapes(next_byte),
            total == code_point(bytes@, index, next_byte, i as int),
            i == 0 ==> total < 0x80,
            i == 1 ==> total < 0x800,
            i == 2 ==> total < 0x2_0000,
            i == 3 ==> total < 0x80_0000,
            forall|n: int|
                1 <= n <= i ==> is_continuation_value(#[trigger] following_value(bytes@, index, n)),
        decreases bytes_needed / 3 - i,
    {
        let first: u8 = bytes[digit + (i * 3 + 2)];
        let second: u8 = bytes[digit + (i * 3 + 3)];
        let upcoming_byte: u32 = hex_value(first, second);
        assert(upcoming_byte == following_value(bytes@, index, i + 1));
        assert(total < 0x20 * 64 * 64);
        assert(upcoming_byte & 0xC0 != 0x80 <==> !(0x80 <= upcoming_byte < 0xC0)) by (bit_vector)
            requires
                upcoming_byte <= 0xF_FFFF,
                upcoming_byte >= 0x100 ==> upcoming_byte == 0xFFFF || upcoming_byte == 0xF_FFFF
                    || 0xF_FFF0 <= upcoming_byte < 0xF_FFFF,
        ;
        if upcoming_byte & 0xC0 != 0x80 {
            assert(1 <= i + 1 <= count && !is_continuation_value(
                following_value(bytes@, index, i + 1),
            ));
            return Err(UriError::InvalidUtf8Character);
        }
        assert(upcoming_byte & 0x3F == upcoming_byte % 64) by (bit_vector);
        assert(total << 6 == total * 64) by (bit_vector)
            requires
                total < 0x20 * 64 * 64,
        ;
        total = (total << 6) + (upcoming_byte & 0x3F);
        i = i + 1;
    }
    // Either a high or low surrogate or not a valid unicode character
    if total > 0xD7FF && total < 0xE000 || total > 0x10FFFF {
        return Err(UriError::InvalidUtf8Character);
    }
    Ok((total, digit + bytes_needed))
}

/// Writes a character with the code point `total`, whose last escape
/// sequence has the hexadecimal digits `one` and `two`.
fn write_character(total: u32, reserved: &[u8], one: u8, two: u8, decoded: &mut Vec<u8>)
    requires
        total <= 0x10FFFF,
    ensures
        final(decoded)@ == old(decoded)@ + decoded_character(total as int, reserved@, one, two),
{
    let ghost character = decoded_character(total as int, reserved@, one, two);
    if total < 0x10000 {
        if is_reserved(reserved, total) {
            let escape: [u8; 3] = [37, one, two];
            assert(escape@ =~= character);
            append(decoded, escape.as_slice());
        } else {
            let octets = decode_two_octets(total as u16);
            append(decoded, octets.as_slice());
        }
    } else {
        let offset: u32 = total - 0x10000;
        assert(offset & 0x3FF == offset % 0x400) by (bit_vector);
        assert((offset >> 10) & 0x3FF == offset / 0x400 % 0x400) by (bit_vector);
        let low: u32 = (offset & 0x3FF) + 0xDC00;
        let high: u32 = ((offset >> 10) & 0x3FF) + 0xD800;
        let hi = decode_two_octets(high as u16);
        let lo = decode_two_octets(low as u16);
        let pair: [u8; 4] = [hi[0], hi[1], lo[0], lo[1]];
        assert(pair@ =~= character);
        append(decoded, pair.as_slice());
    }
}

/// Decodes percent-encoded UTF-8 text, keeping the escape sequences of the
/// characters of `reserved`.
///
/// Fails with [`UriError::InvalidUri`] where the text ends before a
/// character does, and with [`UriError::InvalidUtf8Character`] where an
/// escape sequence has no two hexadecimal digits, where one that should
/// stand for a continuation byte does not, and where the code point is a
/// surrogate or above `0x10FFFF`. What was decoded before stays in
/// `decoded`.
pub fn decode_uri_inner(bytes: &[u8], reserved: &[u8], decoded: &mut Vec<u8>) -> (result: Result<
    (),
    UriError,
>)
    ensures
        final(decoded)@ == old(decoded)@ + decoded_from(bytes@, reserved@, 0).0,
        result == decoded_from(bytes@, reserved@, 0).1,
{
    let ghost goal = decoded_from(bytes@, reserved@, 0);
    let ghost start = old(decoded)@.len() as int;
    let mut idx: usize = 0;
    assert(decoded@.subrange(start, start) =~= Seq::<u8>::empty());
    assert(decoded@.subrange(0, start) =~= old(decoded)@);
    while idx < bytes.len()
        invariant
            idx <= bytes.len(),
            start == old(decoded)@.len(),
            goal == decoded_from(bytes@, reserved@, 0),
            decoded@.len() >= start,
            decoded@.subrange(0, start) == old(decoded)@,
            goal == after(
                decoded@.subrange(start, decoded@.len() as int),
                decoded_from(bytes@, reserved@, idx as int),
            ),
        decreases bytes.len() - idx,
    {
        let byte: u8 = bytes[idx];
        let ghost before = decoded@;
        let ghost written = before.subrange(start, before.len() as int);
        let ghost rest = decoded_from(bytes@, reserved@, idx as int);
        let ghost piece: Seq<u8>;
        proof {
            assert(written + Seq::<u8>::empty() =~= written);
            assert(before =~= old(decoded)@ + written);
        }
        if byte == 37 {
            match read_character(bytes, idx) {
                Err(error) => {
                    return Err(error);
                },
                Ok((total, last)) => {
                    write_character(total, reserved, bytes[last - 1], bytes[last], decoded);
                    proof {
                        piece = decoded_character(
                            total as int,
                            reserved@,
                            bytes@[last - 1],
                            bytes@[last as int],
                        );
                    }
                    idx = last;
                },
            }
        } else {
            decoded.push(byte);
            proof {
                piece = seq![byte];
            }
        }
        idx = idx + 1;
        proof {
            let next = decoded_from(bytes@, reserved@, idx as int);
            assert(rest == after(piece, next));
            assert(decoded@.subrange(start, decoded@.len() as int) =~= written + piece);
            assert((written + piece) + next.0 =~= written + (piece + next.0));
            assert(decoded@.subrange(0, start) =~= old(decoded)@);
        }
    }
    proof {
        let written = decoded@.subrange(start, decoded@.len() as int);
        assert(written + Seq::<u8>::empty() =~= written);
        assert(decoded@ =~= old(decoded)@ + written);
    }
    Ok(())
}

} // verus!
