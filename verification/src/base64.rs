//! Base64 encoding and decoding, with the standard alphabet and padding.

use vstd::prelude::*;
use crate::bytes::append;

verus! {

/// An error when decoding a base64 encoded string.
#[derive(Copy, Clone, Debug, Hash, PartialEq, Eq, Structural)]
pub enum DecodeError {
    /// Not enough bytes were provided or it wasn't a multiple of 4.
    InvalidLength,
    /// An invalid content was provided.
    InvalidContent,
}

const PADDING_CHAR: u8 = 61;

/// The character for six bits: `A` to `Z`, `a` to `z`, `0` to `9`, `+`, `/`.
pub open spec fn alphabet(value: int) -> u8 {
    if value < 26 {
        (65 + value) as u8
    } else if value < 52 {
        (71 + value) as u8
    } else if value < 62 {
        (value - 4) as u8
    } else if value == 62 {
        43
    } else {
        47
    }
}

/// The six bits that a character stands for, or 64 for a byte that is no
/// character of the alphabet.
pub open spec fn sextet(character: u8) -> int {
    if 65 <= character <= 90 {
        character - 65
    } else if 97 <= character <= 122 {
        character - 71
    } else if 48 <= character <= 57 {
        character + 4
    } else if character == 43 {
        62
    } else if character == 47 {
        63
    } else {
        64
    }
}

/// The four characters for three bytes.
pub open spec fn encoded_group(one: u8, two: u8, three: u8) -> Seq<u8> {
    seq![
        alphabet(one as int / 4),
        alphabet((one as int % 4) * 16 + two as int / 16),
        alphabet((two as int % 16) * 4 + three as int / 64),
        alphabet(three as int % 64),
    ]
}

/// The base64 text of the bytes from `index` on: four characters for every
/// three bytes, and for one or two bytes left at the end two or three
/// characters, filled up with `=`.
pub open spec fn encoded_from(bytes: Seq<u8>, index: int) -> Seq<u8>
    decreases bytes.len() - index,
{
    if index < 0 || index >= bytes.len() {
        Seq::empty()
    } else if index + 1 == bytes.len() {
        seq![
            alphabet(bytes[index] as int / 4),
            alphabet((bytes[index] as int % 4) * 16),
            61u8,
            61u8,
        ]
    } else if index + 2 == bytes.len() {
        seq![
            alphabet(bytes[index] as int / 4),
            alphabet((bytes[index] as int % 4) * 16 + bytes[index + 1] as int / 16),
            alphabet((bytes[index + 1] as int % 16) * 4),
            61u8,
        ]
    } else {
        encoded_group(bytes[index], bytes[index + 1], bytes[index + 2]) + encoded_from(
            bytes,
            index + 3,
        )
    }
}

/// Gives the character for six bits.
fn alphabet_byte(value: u8) -> (character: u8)
    requires
        value < 64,
    ensures
        character == alphabet(value as int),
{
    if value < 26 {
        65 + value
    } else if value < 52 {
        71 + value
    } else if value < 62 {
        value - 4
    } else if value == 62 {
        43
    } else {
        47
    }
}

/// Encodes a base64 string and appends it to `encoded`.
pub fn encode_base64(bytes: &[u8], encoded: &mut Vec<u8>)
    ensures
        final(encoded)@ == old(encoded)@ + encoded_from(bytes@, 0),
{
    let length: usize = bytes.len();
    let mut idx: usize = 0;
    assert(encoded@ + encoded_from(bytes@, 0) =~= old(encoded)@ + encoded_from(bytes@, 0));
    if length > 2 {
        while idx < length - 2
            invariant
                length == bytes.len(),
                length > 2,
                idx <= length,
                encoded@ + encoded_from(bytes@, idx as int) == old(encoded)@ + encoded_from(
                    bytes@,
                    0,
                ),
            decreases length - idx,
        {
            let one: u8 = bytes[idx];
            let two: u8 = bytes[idx + 1];
            let three: u8 = bytes[idx + 2];
            let ghost before = encoded@;
            assert(one >> 2 == one / 4 && ((one & 0x03) << 4) | ((two >> 4) & 0x0F) == (one % 4)
                * 16 + two / 16 && ((two & 0x0F) << 2) | ((three >> 6) & 0x03) == (two % 16) * 4
                + three / 64 && three & 0x3F == three % 64) by (bit_vector);
            let group: [u8; 4] = [
                alphabet_byte(one >> 2),
                alphabet_byte(((one & 0x03) << 4) | ((two >> 4) & 0x0F)),
                alphabet_byte(((two & 0x0F) << 2) | ((three >> 6) & 0x03)),
                alphabet_byte(three & 0x3F),
            ];
            assert(group@ =~= encoded_group(one, two, three));
            append(encoded, group.as_slice());
            assert(encoded@ + encoded_from(bytes@, idx + 3) =~= before + encoded_from(
                bytes@,
                idx as int,
            ));
            idx = idx + 3;
        }
    }
    let ghost before = encoded@;
    if length - idx == 1 {
        let one: u8 = bytes[idx];
        assert(one >> 2 == one / 4 && (one & 0x03) << 4 == (one % 4) * 16) by (bit_vector);
        let group: [u8; 4] = [
            alphabet_byte(one >> 2),
            alphabet_byte((one & 0x03) << 4),
            PADDING_CHAR,
            PADDING_CHAR,
        ];
        assert(group@ =~= encoded_from(bytes@, idx as int));
        append(encoded, group.as_slice());
    } else if length - idx == 2 {
        let one: u8 = bytes[idx];
        let two: u8 = bytes[idx + 1];
        assert(one >> 2 == one / 4 && ((one & 0x03) << 4) | ((two >> 4) & 0x0F) == (one % 4) * 16
            + two / 16 && (two & 0x0F) << 2 == (two % 16) * 4) by (bit_vector);
        let group: [u8; 4] = [
            alphabet_byte(one >> 2),
            alphabet_byte(((one & 0x03) << 4) | ((two >> 4) & 0x0F)),
            alphabet_byte((two & 0x0F) << 2),
            PADDING_CHAR,
        ];
        assert(group@ =~= encoded_from(bytes@, idx as int));
        append(encoded, group.as_slice());
    } else {
        assert(encoded@ + Seq::<u8>::empty() =~= encoded@);
    }
}

/// The length of base64 text without the one or two `=` at its end.
pub open spec fn unpadded_len(bytes: Seq<u8>) -> int {
    if bytes.len() < 2 || bytes.last() != 61 {
        bytes.len() as int
    } else if bytes[bytes.len() - 2] != 61 {
        bytes.len() - 1
    } else {
        bytes.len() - 2
    }
}

/// Whether the `count` bytes from `index` on are characters of the alphabet.
pub open spec fn all_characters(bytes: Seq<u8>, index: int, count: int) -> bool {
    forall|i: int| index <= i < index + count ==> sextet(#[trigger] bytes[i]) < 64
}

/// The three bytes that the four characters from `index` on stand for.
pub open spec fn decoded_group(bytes: Seq<u8>, index: int) -> Seq<u8> {
    seq![
        (sextet(bytes[index]) * 4 + sextet(bytes[index + 1]) / 16) as u8,
        (sextet(bytes[index + 1]) % 16 * 16 + sextet(bytes[index + 2]) / 4) as u8,
        (sextet(bytes[index + 2]) % 4 * 64 + sextet(bytes[index + 3])) as u8,
    ]
}

/// What decoding writes for the groups of four characters from `index` up
/// to `end`, and whether all of them were characters of the alphabet. It
/// stops before the first group that holds another byte.
pub open spec fn decoded_groups(bytes: Seq<u8>, index: int, end: int) -> (Seq<u8>, bool)
    decreases end - index,
{
    if index + 4 > end {
        (Seq::empty(), true)
    } else if !all_characters(bytes, index, 4) {
        (Seq::empty(), false)
    } else {
        (
            decoded_group(bytes, index) + decoded_groups(bytes, index + 4, end).0,
            decoded_groups(bytes, index + 4, end).1,
        )
    }
}

/// What decoding writes for the `count` characters left at `index` after
/// the groups of four, two or three of them or none: one byte less than
/// there are characters. Where one of them is no character of the
/// alphabet, each byte written is `0xFF`.
pub open spec fn decoded_rest(bytes: Seq<u8>, index: int, count: int) -> Seq<u8> {
    if count == 0 {
        Seq::empty()
    } else if !all_characters(bytes, index, count) {
        if count == 2 {
            seq![0xFFu8]
        } else {
            seq![0xFFu8, 0xFFu8]
        }
    } else if count == 2 {
        seq![(sextet(bytes[index]) * 4 + sextet(bytes[index + 1]) / 16) as u8]
    } else {
        seq![
            (sextet(bytes[index]) * 4 + sextet(bytes[index + 1]) / 16) as u8,
            (sextet(bytes[index + 1]) % 16 * 16 + sextet(bytes[index + 2]) / 4) as u8,
        ]
    }
}

/// What decoding base64 text writes, and how it ends.
///
/// Text of a length that is not a multiple of four, or empty text, is
/// refused. One or two `=` at the end are left out. Every four characters
/// give three bytes, and two or three characters at the end give one or two.
/// A byte that is no character of the alphabet ends the decoding; what was
/// written for the groups before it stays.
pub open spec fn decoded(bytes: Seq<u8>) -> (Seq<u8>, Result<(), DecodeError>) {
    let length = unpadded_len(bytes);
    let whole = length - length % 4;
    let groups = decoded_groups(bytes, 0, whole);
    if bytes.len() < 4 || bytes.len() % 4 != 0 {
        (Seq::empty(), Err(DecodeError::InvalidLength))
    } else if !groups.1 {
        (groups.0, Err(DecodeError::InvalidContent))
    } else if !all_characters(bytes, whole, length % 4) {
        (groups.0 + decoded_rest(bytes, whole, length % 4), Err(DecodeError::InvalidContent))
    } else {
        (groups.0 + decoded_rest(bytes, whole, length % 4), Ok(()))
    }
}

/// What stands for a byte that is no character of the alphabet: a number
/// above the 24 bits of a decoded group.
const INVALID_CHAR: u32 = 0x01FFFFFF;

/// Gives the six bits that a character stands for, or [`INVALID_CHAR`].
fn sextet_of(character: u8) -> (value: u32)
    ensures
        sextet(character) < 64 ==> value == sextet(character),
        sextet(character) == 64 ==> value == INVALID_CHAR,
{
    if 65 <= character && character <= 90 {
        (character - 65) as u32
    } else if 97 <= character && character <= 122 {
        (character - 71) as u32
    } else if 48 <= character && character <= 57 {
        (character + 4) as u32
    } else if character == 43 {
        62
    } else if character == 47 {
        63
    } else {
        INVALID_CHAR
    }
}

/// Puts up to four values of [`sextet_of`] together: the decoded bytes in
/// the low 24 bits, the first byte lowest, or a number of at least
/// [`INVALID_CHAR`] where one of the values is that.
fn combine(first: u32, second: u32, third: u32, fourth: u32) -> (total: u32)
    requires
        first < 64 || first == INVALID_CHAR,
        second < 64 || second == INVALID_CHAR,
        third < 64 || third == INVALID_CHAR,
        fourth < 64 || fourth == INVALID_CHAR,
    ensures
        first < 64 && second < 64 && third < 64 && fourth < 64 ==> total == (first * 4 + second
            / 16) + (second % 16 * 16 + third / 4) * 0x100 + (third % 4 * 64 + fourth) * 0x1_0000,
        !(first < 64 && second < 64 && third < 64 && fourth < 64) ==> total >= INVALID_CHAR
            && total % 0x1_0000 == 0xFFFF,
{
    if first >= 64 || second >= 64 || third >= 64 || fourth >= 64 {
        return INVALID_CHAR;
    }
    let total: u32 = (first << 2) | (second >> 4) | ((second & 0x0F) << 12) | ((third >> 2) << 8)
        | ((third & 0x03) << 22) | (fourth << 16);
    assert((first << 2) | (second >> 4) | ((second & 0x0F) << 12) | ((third >> 2) << 8) | ((third
        & 0x03) << 22) | (fourth << 16) == (first * 4 + second / 16) + (second % 16 * 16 + third
        / 4) * 0x100 + (third % 4 * 64 + fourth) * 0x1_0000) by (bit_vector)
        requires
            first < 64,
            second < 64,
            third < 64,
            fourth < 64,
    ;
    total
}

/// Up to four characters are characters of the alphabet exactly when each
/// of them is.
proof fn lemma_all_characters(bytes: Seq<u8>, index: int, count: int)
    requires
        0 <= count <= 4,
    ensures
        all_characters(bytes, index, count) <==> (count < 1 || sextet(bytes[index]) < 64) && (count
            < 2 || sextet(bytes[index + 1]) < 64) && (count < 3 || sextet(bytes[index + 2]) < 64)
            && (count < 4 || sextet(bytes[index + 3]) < 64),
{
    if all_characters(bytes, index, count) {
        if count >= 1 {
            assert(sextet(bytes[index]) < 64);
        }
        if count >= 2 {
            assert(sextet(bytes[index + 1]) < 64);
        }
        if count >= 3 {
            assert(sextet(bytes[index + 2]) < 64);
        }
        if count >= 4 {
            assert(sextet(bytes[index + 3]) < 64);
        }
    }
}

/// Decodes the four characters from `index` on. Gives the decoded bits, or
/// a number of at least [`INVALID_CHAR`], and the three bytes in them.
fn decode_pair(bytes: &[u8], index: usize) -> (pair: (u32, [u8; 3]))
    requires
        index + 4 <= bytes.len(),
    ensures
        pair.0 >= INVALID_CHAR <==> !all_characters(bytes@, index as int, 4),
        pair.0 < INVALID_CHAR ==> pair.1@ == decoded_group(bytes@, index as int),
{
    let first: u32 = sextet_of(bytes[index]);
    let second: u32 = sextet_of(bytes[index + 1]);
    let third: u32 = sextet_of(bytes[index + 2]);
    let fourth: u32 = sextet_of(bytes[index + 3]);
    let total: u32 = combine(first, second, third, fourth);
    let low: u32 = total & 0xFF;
    let middle: u32 = (total & 0xFF00) >> 8;
    let high: u32 = (total & 0xFF0000) >> 16;
    assert((total & 0xFF) == total % 0x100 && (total & 0xFF00) >> 8 == total / 0x100 % 0x100 && (
    total & 0xFF0000) >> 16 == total / 0x1_0000 % 0x100) by (bit_vector);
    let decoded: [u8; 3] = [low as u8, middle as u8, high as u8];
    proof {
        lemma_all_characters(bytes@, index as int, 4);
        if total < INVALID_CHAR {
            lemma_bytes_of_total(first, second, third, fourth, total);
            assert(decoded@ =~= decoded_group(bytes@, index as int));
        }
    }
    (total, decoded)
}

/// The three bytes in the decoded bits of four characters.
proof fn lemma_bytes_of_total(first: u32, second: u32, third: u32, fourth: u32, total: u32)
    requires
        first < 64,
        second < 64,
        third < 64,
        fourth < 64,
        total == (first * 4 + second / 16) + (second % 16 * 16 + third / 4) * 0x100 + (third % 4
            * 64 + fourth) * 0x1_0000,
    ensures
        total % 0x100 == first * 4 + second / 16,
        total / 0x100 % 0x100 == second % 16 * 16 + third / 4,
        total / 0x1_0000 % 0x100 == third % 4 * 64 + fourth,
{
    let x = first * 4 + second / 16;
    let y = second % 16 * 16 + third / 4;
    let z = third % 4 * 64 + fourth;
    assert(0 <= x < 256 && 0 <= y < 256 && 0 <= z < 256);
    assert(total == x + 0x100 * (y + 0x100 * z));
}

/// Decodes the groups of four characters before `whole` and appends their
/// bytes, up to the first group that holds a byte that is no character of
/// the alphabet. Tells whether there was no such group.
fn decode_groups(bytes: &[u8], whole: usize, decoded: &mut Vec<u8>) -> (valid: bool)
    requires
        whole <= bytes.len(),
        whole % 4 == 0,
    ensures
        final(decoded)@ == old(decoded)@ + decoded_groups(bytes@, 0, whole as int).0,
        valid == decoded_groups(bytes@, 0, whole as int).1,
{
    let mut idx: usize = 0;
    let ghost goal = decoded_groups(bytes@, 0, whole as int);
    assert(decoded@ + goal.0 =~= old(decoded)@ + goal.0);
    while idx < whole
        invariant
            idx <= whole <= bytes.len(),
            idx % 4 == 0,
            whole % 4 == 0,
            goal == decoded_groups(bytes@, 0, whole as int),
            goal.1 == decoded_groups(bytes@, idx as int, whole as int).1,
            decoded@ + decoded_groups(bytes@, idx as int, whole as int).0 == old(decoded)@
                + goal.0,
        decreases whole - idx,
    {
        let (total, pair) = decode_pair(bytes, idx);
        if total >= INVALID_CHAR {
            assert(decoded@ + Seq::<u8>::empty() =~= decoded@);
            return false;
        }
        let ghost before = decoded@;
        append(decoded, pair.as_slice());
        assert(decoded@ + decoded_groups(bytes@, idx + 4, whole as int).0 =~= before
            + decoded_groups(bytes@, idx as int, whole as int).0);
        idx = idx + 4;
    }
    assert(decoded@ + Seq::<u8>::empty() =~= decoded@);
    true
}

/// Decodes the two or three characters left at `index` and appends their
/// bytes. Tells whether all of them were characters of the alphabet.
fn decode_rest(bytes: &[u8], index: usize, rem: usize, decoded: &mut Vec<u8>) -> (valid: bool)
    requires
        rem == 2 || rem == 3,
        index + rem <= bytes.len(),
    ensures
        final(decoded)@ == old(decoded)@ + decoded_rest(bytes@, index as int, rem as int),
        valid == all_characters(bytes@, index as int, rem as int),
{
    let first: u32 = sextet_of(bytes[index]);
    let second: u32 = sextet_of(bytes[index + 1]);
    let third: u32 = if rem == 3 {
        sextet_of(bytes[index + 2])
    } else {
        0
    };
    let total: u32 = combine(first, second, third, 0);
    let low: u32 = total & 0xFF;
    let middle: u32 = (total & 0xFF00) >> 8;
    assert((total & 0xFF) == total % 0x100 && (total & 0xFF00) >> 8 == total / 0x100 % 0x100)
        by (bit_vector);
    proof {
        lemma_all_characters(bytes@, index as int, rem as int);
        if total < INVALID_CHAR {
            lemma_bytes_of_total(first, second, third, 0, total);
        } else {
            assert(total % 0x100 == 0xFF && total / 0x100 % 0x100 == 0xFF) by {
                assert(total % 0x1_0000 == 0xFFFF);
            }
        }
    }
    if rem == 2 {
        decoded.push(low as u8);
        assert(decoded@ =~= old(decoded)@ + decoded_rest(bytes@, index as int, rem as int));
    } else {
        let pair: [u8; 2] = [low as u8, middle as u8];
        assert(pair@ =~= decoded_rest(bytes@, index as int, rem as int));
        append(decoded, pair.as_slice());
    }
    total < INVALID_CHAR
}

/// Decodes a base64 encoded string and appends the bytes to `decoded`.
pub fn decode_base64(bytes: &[u8], decoded: &mut Vec<u8>) -> (result: Result<(), DecodeError>)
    ensures
        final(decoded)@ == old(decoded)@ + self::decoded(bytes@).0,
        result == self::decoded(bytes@).1,
{
    let mut length: usize = bytes.len();
    if length < 4 || length % 4 != 0 {
        assert(decoded@ + Seq::<u8>::empty() =~= decoded@);
        return Err(DecodeError::InvalidLength);
    }
    if bytes[length - 1] == PADDING_CHAR {
        length = length - 1;
        if bytes[length - 1] == PADDING_CHAR {
            length = length - 1;
        }
    }
    assert(length == unpadded_len(bytes@));
    let rem: usize = length % 4;
    let whole: usize = length - rem;
    if !decode_groups(bytes, whole, decoded) {
        return Err(DecodeError::InvalidContent);
    }
    let ghost groups = decoded_groups(bytes@, 0, whole as int).0;
    let ghost rest = decoded_rest(bytes@, whole as int, rem as int);
    if rem == 0 {
        assert(decoded@ =~= old(decoded)@ + (groups + rest));
        return Ok(());
    }
    let valid = decode_rest(bytes, whole, rem, decoded);
    assert(decoded@ =~= old(decoded)@ + (groups + rest));
    if !valid {
        return Err(DecodeError::InvalidContent);
    }
    Ok(())
}

/// The character for six bits stands for those six bits, and is no `=`.
pub proof fn lemma_sextet_of_alphabet(value: int)
    requires
        0 <= value < 64,
    ensures
        sextet(alphabet(value)) == value,
        alphabet(value) != 61,
{
}

/// Text decodes in the same way behind other text as by itself.
proof fn lemma_groups_after_prefix(prefix: Seq<u8>, text: Seq<u8>, index: int, end: int)
    requires
        0 <= index,
        end <= text.len(),
    ensures
        decoded_groups(prefix + text, prefix.len() + index, prefix.len() + end) == decoded_groups(
            text,
            index,
            end,
        ),
    decreases end - index,
{
    let whole = prefix + text;
    let shift = prefix.len() as int;
    if index + 4 <= end {
        lemma_all_characters(whole, shift + index, 4);
        lemma_all_characters(text, index, 4);
        assert(whole[shift + index] == text[index]);
        assert(whole[shift + index + 1] == text[index + 1]);
        assert(whole[shift + index + 2] == text[index + 2]);
        assert(whole[shift + index + 3] == text[index + 3]);
        if all_characters(text, index, 4) {
            lemma_groups_after_prefix(prefix, text, index + 4, end);
            assert(decoded_group(whole, shift + index) =~= decoded_group(text, index));
        }
    }
}

/// The characters left at the end decode in the same way behind other text
/// as by themselves.
proof fn lemma_rest_after_prefix(prefix: Seq<u8>, text: Seq<u8>, index: int, count: int)
    requires
        0 <= index,
        count == 0 || count == 2 || count == 3,
        index + count <= text.len(),
    ensures
        decoded_rest(prefix + text, prefix.len() + index, count) == decoded_rest(
            text,
            index,
            count,
        ),
        all_characters(prefix + text, prefix.len() + index, count) == all_characters(
            text,
            index,
            count,
        ),
{
    let whole = prefix + text;
    let shift = prefix.len() as int;
    lemma_all_characters(whole, shift + index, count);
    lemma_all_characters(text, index, count);
    if count >= 2 {
        assert(whole[shift + index] == text[index]);
        assert(whole[shift + index + 1] == text[index + 1]);
    }
    if count >= 3 {
        assert(whole[shift + index + 2] == text[index + 2]);
    }
    assert(decoded_rest(whole, shift + index, count) =~= decoded_rest(text, index, count));
}

/// Decoding the text of one or two bytes gives these bytes.
proof fn lemma_decode_last_bytes(bytes: Seq<u8>, index: int)
    requires
        0 <= index,
        index + 1 == bytes.len() || index + 2 == bytes.len(),
    ensures
        decoded(encoded_from(bytes, index)) == (
            bytes.subrange(index, bytes.len() as int),
            Ok::<(), DecodeError>(()),
        ),
        encoded_from(bytes, index).len() == 4,
{
    let text = encoded_from(bytes, index);
    let expected = bytes.subrange(index, bytes.len() as int);
    let one = bytes[index] as int;
    lemma_sextet_of_alphabet(one / 4);
    assert(decoded_groups(text, 0, 0) == (Seq::<u8>::empty(), true));
    assert(Seq::<u8>::empty() + expected =~= expected);
    if index + 1 == bytes.len() {
        lemma_sextet_of_alphabet((one % 4) * 16);
        lemma_all_characters(text, 0, 2);
        assert(unpadded_len(text) == 2);
        assert(decoded_rest(text, 0, 2) =~= expected);
    } else {
        let two = bytes[index + 1] as int;
        lemma_sextet_of_alphabet((one % 4) * 16 + two / 16);
        lemma_sextet_of_alphabet((two % 16) * 4);
        lemma_all_characters(text, 0, 3);
        assert(unpadded_len(text) == 3);
        assert(decoded_rest(text, 0, 3) =~= expected);
    }
}

/// The four characters for three bytes decode to these bytes.
proof fn lemma_decode_group(one: u8, two: u8, three: u8, tail: Seq<u8>)
    ensures
        all_characters(encoded_group(one, two, three) + tail, 0, 4),
        decoded_group(encoded_group(one, two, three) + tail, 0) == seq![one, two, three],
        encoded_group(one, two, three).last() != 61,
{
    let text = encoded_group(one, two, three) + tail;
    lemma_sextet_of_alphabet(one as int / 4);
    lemma_sextet_of_alphabet((one as int % 4) * 16 + two as int / 16);
    lemma_sextet_of_alphabet((two as int % 16) * 4 + three as int / 64);
    lemma_sextet_of_alphabet(three as int % 64);
    lemma_all_characters(text, 0, 4);
    assert(decoded_group(text, 0) =~= seq![one, two, three]);
}

/// Text that decodes to `bytes` decodes, behind the four characters of a
/// group, to the bytes of the group and then `bytes`.
proof fn lemma_decode_after_group(group: Seq<u8>, first: Seq<u8>, tail: Seq<u8>, bytes: Seq<u8>)
    requires
        group.len() == 4,
        all_characters(group + tail, 0, 4),
        decoded_group(group + tail, 0) == first,
        tail.len() >= 4,
        tail.len() % 4 == 0,
        decoded(tail) == (bytes, Ok::<(), DecodeError>(())),
    ensures
        decoded(group + tail) == (first + bytes, Ok::<(), DecodeError>(())),
{
    let text = group + tail;
    let length = unpadded_len(tail);
    let whole = length - length % 4;
    assert(text.last() == tail.last());
    assert(text[text.len() - 2] == tail[tail.len() - 2]);
    assert(unpadded_len(text) == 4 + length);
    lemma_groups_after_prefix(group, tail, 0, whole);
    lemma_rest_after_prefix(group, tail, whole, length % 4);
    let groups = decoded_groups(tail, 0, whole);
    let rest = decoded_rest(tail, whole, length % 4);
    assert(decoded_groups(text, 0, 4 + whole) == (
        first + decoded_groups(text, 4, 4 + whole).0,
        decoded_groups(text, 4, 4 + whole).1,
    ));
    assert((first + groups.0) + rest =~= first + (groups.0 + rest));
}

/// Decoding the base64 text of the bytes from `index` on gives these bytes.
pub proof fn lemma_decode_encoded_from(bytes: Seq<u8>, index: int)
    requires
        0 <= index < bytes.len(),
    ensures
        decoded(encoded_from(bytes, index)) == (
            bytes.subrange(index, bytes.len() as int),
            Ok::<(), DecodeError>(()),
        ),
        encoded_from(bytes, index).len() >= 4,
        encoded_from(bytes, index).len() % 4 == 0,
    decreases bytes.len() - index,
{
    let text = encoded_from(bytes, index);
    let expected = bytes.subrange(index, bytes.len() as int);
    if index + 3 > bytes.len() {
        lemma_decode_last_bytes(bytes, index);
    } else {
        let group = encoded_group(bytes[index], bytes[index + 1], bytes[index + 2]);
        let first = seq![bytes[index], bytes[index + 1], bytes[index + 2]];
        let tail = encoded_from(bytes, index + 3);
        lemma_decode_group(bytes[index], bytes[index + 1], bytes[index + 2], tail);
        assert(text == group + tail);
        if index + 3 == bytes.len() {
            assert(text =~= group);
            assert(unpadded_len(text) == 4);
            assert(decoded_groups(text, 4, 4) == (Seq::<u8>::empty(), true));
            assert(decoded_rest(text, 4, 0) =~= Seq::<u8>::empty());
            assert(first + Seq::<u8>::empty() + Seq::<u8>::empty() =~= expected);
        } else {
            lemma_decode_encoded_from(bytes, index + 3);
            lemma_decode_after_group(
                group,
                first,
                tail,
                bytes.subrange(index + 3, bytes.len() as int),
            );
            assert(first + bytes.subrange(index + 3, bytes.len() as int) =~= expected);
        }
    }
}

/// Decoding the base64 text of bytes gives the bytes back, unless there are
/// none: the empty text is refused.
pub proof fn lemma_decode_encoded(bytes: Seq<u8>)
    requires
        bytes.len() > 0,
    ensures
        decoded(encoded_from(bytes, 0)) == (bytes, Ok::<(), DecodeError>(())),
{
    lemma_decode_encoded_from(bytes, 0);
    assert(bytes.subrange(0, bytes.len() as int) =~= bytes);
}

} // verus!
