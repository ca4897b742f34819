//! Percent-encoding of UTF-8 text: `encodeURI` and `encodeURIComponent`.

use vstd::prelude::*;
use crate::bytes::{append, contains};
use crate::globals::utils::{byte_to_hex, hex_pair};
use crate::globals::UriError;

verus! {

/// The escape sequence of a byte: `%` and its two hexadecimal digits.
pub open spec fn percent_escape(byte: u8) -> Seq<u8> {
    seq![37u8] + hex_pair(byte)
}

/// The escape sequences of all of `bytes`, one after the other.
pub open spec fn percent_escapes(bytes: Seq<u8>) -> Seq<u8>
    decreases bytes.len(),
{
    if bytes.len() == 0 {
        Seq::empty()
    } else {
        percent_escapes(bytes.drop_last()) + percent_escape(bytes.last())
    }
}

/// Whether a byte is a continuation byte of UTF-8: `10xxxxxx`.
pub open spec fn is_continuation(byte: u8) -> bool {
    0x80 <= byte < 0xC0
}

/// The number of continuation bytes that follow the lead byte `lead`, a
/// byte from `0x80` up to `0xF7`.
pub open spec fn continuation_count(lead: u8) -> int {
    if lead < 0xE0 {
        1
    } else if lead < 0xF0 {
        2
    } else {
        3
    }
}

/// The index of the first byte from `from` on that is no continuation byte,
/// or `to` where all bytes before `to` are.
pub open spec fn first_non_continuation(bytes: Seq<u8>, from: int, to: int) -> int
    decreases to - from,
{
    if from >= to || !is_continuation(bytes[from]) {
        from
    } else {
        first_non_continuation(bytes, from + 1, to)
    }
}

/// `head`, then what `tail` holds, with the outcome of `tail`.
pub open spec fn after(head: Seq<u8>, tail: (Seq<u8>, Result<(), UriError>)) -> (
    Seq<u8>,
    Result<(), UriError>,
) {
    (head + tail.0, tail.1)
}

/// What encoding writes for the bytes from `index` on, and how it ends.
///
/// A byte of `reserved` stands for itself. Another byte below `0x80` is
/// escaped. A byte from `0xF8` up begins no character. Any other byte
/// begins a character of two to four bytes, by its high bits; the bytes
/// after it are continuation bytes, and each byte of the character is
/// escaped. What was written before an error stays.
pub open spec fn encoded_from(bytes: Seq<u8>, reserved: Seq<u8>, index: int) -> (
    Seq<u8>,
    Result<(), UriError>,
)
    decreases bytes.len() - index,
{
    if index < 0 || index >= bytes.len() {
        (Seq::empty(), Ok(()))
    } else {
        let current = bytes[index];
        let end = index + 1 + continuation_count(current);
        let stop = first_non_continuation(bytes, index + 1, end);
        if reserved.contains(current) {
            after(seq![current], encoded_from(bytes, reserved, index + 1))
        } else if current < 0x80 {
            after(percent_escape(current), encoded_from(bytes, reserved, index + 1))
        } else if current >= 0xF8 {
            (Seq::empty(), Err(UriError::InvalidUtf8Character))
        } else if end > bytes.len() {
            (Seq::empty(), Err(UriError::InvalidUri))
        } else if stop < end {
            (percent_escapes(bytes.subrange(index, stop)), Err(UriError::InvalidUtf8Character))
        } else {
            after(
                percent_escapes(bytes.subrange(index, end)),
                encoded_from(bytes, reserved, end),
            )
        }
    }
}

/// The characters that [`encode_uri`] leaves as they are.
pub open spec fn uri_reserved() -> Seq<u8> {
    seq![
        65u8, 66u8, 67u8, 68u8, 69u8, 70u8, 71u8, 72u8, 73u8, 74u8, 75u8, 76u8, 77u8,
        78u8, 79u8, 80u8, 81u8, 82u8, 83u8, 84u8, 85u8, 86u8, 87u8, 88u8, 89u8, 90u8,
        97u8, 98u8, 99u8, 100u8, 101u8, 102u8, 103u8, 104u8, 105u8, 106u8, 107u8, 108u8, 109u8,
        110u8, 111u8, 112u8, 113u8, 114u8, 115u8, 116u8, 117u8, 118u8, 119u8, 120u8, 121u8, 122u8,
        48u8, 49u8, 50u8, 51u8, 52u8, 53u8, 54u8, 55u8, 56u8, 57u8,
        33u8, 35u8, 36u8, 38u8, 39u8, 40u8, 41u8, 42u8, 43u8, 44u8, 45u8, 46u8, 47u8,
        58u8, 59u8, 61u8, 63u8, 64u8, 95u8, 126u8,
    ]
}

/// The characters that [`encode_uri_component`] leaves as they are.
pub open spec fn uri_component_reserved() -> Seq<u8> {
    seq![
        65u8, 66u8, 67u8, 68u8, 69u8, 70u8, 71u8, 72u8, 73u8, 74u8, 75u8, 76u8, 77u8,
        78u8, 79u8, 80u8, 81u8, 82u8, 83u8, 84u8, 85u8, 86u8, 87u8, 88u8, 89u8, 90u8,
        97u8, 98u8, 99u8, 100u8, 101u8, 102u8, 103u8, 104u8, 105u8, 106u8, 107u8, 108u8, 109u8,
        110u8, 111u8, 112u8, 113u8, 114u8, 115u8, 116u8, 117u8, 118u8, 119u8, 120u8, 121u8, 122u8,
        48u8, 49u8, 50u8, 51u8, 52u8, 53u8, 54u8, 55u8, 56u8, 57u8,
        33u8, 39u8, 40u8, 41u8, 42u8, 45u8, 46u8, 95u8, 126u8,
    ]
}

/// Encodes a UTF-8 URI, leaving as it is any character in the set
/// `ABCDEFGHIJKLMNOPQRSTUVWXYZabcdefghijklmnopqrstuvwxyz0123456789!#$&'()*+,-./:;=?@_~`.
pub fn encode_uri(bytes: &[u8], encoded: &mut Vec<u8>) -> (result: Result<(), UriError>)
    ensures
        final(encoded)@ == old(encoded)@ + encoded_from(bytes@, uri_reserved(), 0).0,
        result == encoded_from(bytes@, uri_reserved(), 0).1,
{
    let reserved: [u8; 82] = [
        65, 66, 67, 68, 69, 70, 71, 72, 73, 74, 75, 76, 77,
        78, 79, 80, 81, 82, 83, 84, 85, 86, 87, 88, 89, 90,
        97, 98, 99, 100, 101, 102, 103, 104, 105, 106, 107, 108, 109,
        110, 111, 112, 113, 114, 115, 116, 117, 118, 119, 120, 121, 122,
        48, 49, 50, 51, 52, 53, 54, 55, 56, 57,
        33, 35, 36, 38, 39, 40, 41, 42, 43, 44, 45, 46, 47,
        58, 59, 61, 63, 64, 95, 126,
    ];
    assert(reserved@ =~= uri_reserved());
    encode_inner(bytes, reserved.as_slice(), encoded)
}

/// Encodes a UTF-8 URI component, leaving as it is any character in the set
/// `ABCDEFGHIJKLMNOPQRSTUVWXYZabcdefghijklmnopqrstuvwxyz0123456789!'()*-._~`.
pub fn encode_uri_component(bytes: &[u8], encoded: &mut Vec<u8>) -> (result: Result<(), UriError>)
    ensures
        final(encoded)@ == old(encoded)@ + encoded_from(bytes@, uri_component_reserved(), 0).0,
        result == encoded_from(bytes@, uri_component_reserved(), 0).1,
{
    let reserved: [u8; 71] = [
        65, 66, 67, 68, 69, 70, 71, 72, 73, 74, 75, 76, 77,
        78, 79, 80, 81, 82, 83, 84, 85, 86, 87, 88, 89, 90,
        97, 98, 99, 100, 101, 102, 103, 104, 105, 106, 107, 108, 109,
        110, 111, 112, 113, 114, 115, 116, 117, 118, 119, 120, 121, 122,
        48, 49, 50, 51, 52, 53, 54, 55, 56, 57,
        33, 39, 40, 41, 42, 45, 46, 95, 126,
    ];
    assert(reserved@ =~= uri_component_reserved());
    encode_inner(bytes, reserved.as_slice(), encoded)
}

/// Encodes UTF-8 text for a URI, leaving the characters of `reserved` as
/// they are and escaping every byte of the others.
///
/// Fails with [`UriError::InvalidUtf8Character`] on a byte that begins no
/// character and on a character that lacks a continuation byte, and with
/// [`UriError::InvalidUri`] where the text ends before a character does.
/// What was encoded before stays in `encoded`.
#[verifier::loop_isolation(false)]
pub fn encode_inner(bytes: &[u8], reserved: &[u8], encoded: &mut Vec<u8>) -> (result: Result<
    (),
    UriError,
>)
    ensures
        final(encoded)@ == old(encoded)@ + encoded_from(bytes@, reserved@, 0).0,
        result == encoded_from(bytes@, reserved@, 0).1,
{
    let ghost goal = encoded_from(bytes@, reserved@, 0);
    let mut index: usize = 0;
    assert(encoded@ =~= old(encoded)@ + Seq::<u8>::empty());
    while index < bytes.len()
        invariant
            index <= bytes.len(),
            goal == after(
                encoded@.subrange(old(encoded)@.len() as int, encoded@.len() as int),
                encoded_from(bytes@, reserved@, index as int),
            ),
            encoded@.len() >= old(encoded)@.len(),
            encoded@.subrange(0, old(encoded)@.len() as int) == old(encoded)@,
        decreases bytes.len() - index,
    {
        let current: u8 = bytes[index];
        let ghost before = encoded@;
        let ghost written = before.subrange(old(encoded)@.len() as int, before.len() as int);
        let ghost rest = encoded_from(bytes@, reserved@, index as int);
        if contains(reserved, current) {
            encoded.push(current);
            index = index + 1;
            proof {
                assert(encoded@.subrange(old(encoded)@.len() as int, encoded@.len() as int)
                    =~= written + seq![current]);
                assert(encoded@.subrange(0, old(encoded)@.len() as int) =~= old(encoded)@);
                let next = encoded_from(bytes@, reserved@, index as int);
                assert((written + seq![current]) + next.0 =~= written + (seq![current] + next.0));
            }
            continue ;
        }
        if current < 0x80 {
            // ASCII fast path
            let escape = percent_hex(current);
            append(encoded, escape.as_slice());
            index = index + 1;
            proof {
                assert(encoded@.subrange(old(encoded)@.len() as int, encoded@.len() as int)
                    =~= written + percent_escape(current));
                assert(encoded@.subrange(0, old(encoded)@.len() as int) =~= old(encoded)@);
                let next = encoded_from(bytes@, reserved@, index as int);
                assert((written + percent_escape(current)) + next.0 =~= written + (percent_escape(
                    current,
                ) + next.0));
            }
            continue ;
        }
        let bytes_needed: usize = if current < 0xE0 {
            // Two octets
            1
        } else if current < 0xF0 {
            // Three octets
            2
        } else if current < 0xF8 {
            // Four octets
            3
        } else {
            proof {
                assert(rest == (
                    Seq::<u8>::empty(),
                    Err::<(), UriError>(UriError::InvalidUtf8Character),
                ));
                assert(written + Seq::<u8>::empty() =~= written);
                assert(encoded@ =~= old(encoded)@ + written);
            }
            return Err(UriError::InvalidUtf8Character);
        };
        assert(bytes_needed == continuation_count(current));
        if bytes_needed >= bytes.len() - index {
            proof {
                assert(rest == (Seq::<u8>::empty(), Err::<(), UriError>(UriError::InvalidUri)));
                assert(written + Seq::<u8>::empty() =~= written);
                assert(encoded@ =~= old(encoded)@ + written);
            }
            return Err(UriError::InvalidUri);
        }
        let escape = percent_hex(current);
        append(encoded, escape.as_slice());
        let ghost end = index + 1 + bytes_needed;
        proof {
            assert(bytes@.subrange(index as int, index + 1).drop_last() =~= Seq::<u8>::empty());
            assert(percent_escapes(bytes@.subrange(index as int, index + 1)) =~= percent_escape(
                current,
            )) by {
                assert(percent_escapes(Seq::<u8>::empty()) =~= Seq::<u8>::empty());
                assert(bytes@.subrange(index as int, index + 1).last() == current);
            }
        }
        let mut i: usize = 0;
        while i < bytes_needed
            invariant
                i <= bytes_needed,
                index + bytes_needed < bytes.len(),
                end == index + 1 + bytes_needed,
                first_non_continuation(bytes@, index + 1, end) == first_non_continuation(
                    bytes@,
                    index + 1 + i,
                    end,
                ),
                encoded@ == before + percent_escapes(bytes@.subrange(index as int, index + 1 + i)),
            decreases bytes_needed - i,
        {
            let byte: u8 = bytes[index + i + 1];
            // It should be a continuation byte
            assert(byte & 0xC0 != 0x80 <==> !(0x80 <= byte < 0xC0)) by (bit_vector);
            if byte & 0xC0 != 0x80 {
                proof {
                    let stop = index + 1 + i;
                    let group = percent_escapes(bytes@.subrange(index as int, stop));
                    assert(first_non_continuation(bytes@, stop, end as int) == stop);
                    assert(rest == (group, Err::<(), UriError>(UriError::InvalidUtf8Character)));
                    assert(before =~= old(encoded)@ + written);
                    assert(encoded@ =~= old(encoded)@ + (written + group));
                }
                return Err(UriError::InvalidUtf8Character);
            }
            let ghost so_far = encoded@;
            let escape = percent_hex(byte);
            append(encoded, escape.as_slice());
            proof {
                let longer = bytes@.subrange(index as int, index + 2 + i);
                assert(longer.drop_last() =~= bytes@.subrange(index as int, index + 1 + i));
                assert(longer.last() == byte);
                assert(encoded@ =~= before + percent_escapes(longer));
            }
            i = i + 1;
        }
        index = index + bytes_needed + 1;
        proof {
            let group = percent_escapes(bytes@.subrange(index - bytes_needed - 1, end as int));
            assert(first_non_continuation(bytes@, end as int, end as int) == end);
            assert(rest == after(group, encoded_from(bytes@, reserved@, end as int)));
            assert(encoded@.subrange(old(encoded)@.len() as int, encoded@.len() as int)
                =~= written + group);
            assert(encoded@.subrange(0, old(encoded)@.len() as int) =~= old(encoded)@);
            let next = encoded_from(bytes@, reserved@, index as int);
            assert((written + group) + next.0 =~= written + (group + next.0));
        }
    }
    proof {
        let written = encoded@.subrange(old(encoded)@.len() as int, encoded@.len() as int);
        assert(written + Seq::<u8>::empty() =~= written);
        assert(encoded@ =~= old(encoded)@ + written);
    }
    Ok(())
}

/// Gives the escape sequence of a byte.
fn percent_hex(byte: u8) -> (escape: [u8; 3])
    ensures
        escape@ == percent_escape(byte),
{
    let hex = byte_to_hex(byte);
    let escape: [u8; 3] = [37, hex[0], hex[1]];
    assert(escape@ =~= percent_escape(byte));
    escape
}

} // verus!
