//! The `escape` function.

use vstd::prelude::*;
use crate::bytes::{append, contains};
use crate::globals::encode_uri::{is_continuation, percent_escape};
use crate::globals::utils::{byte_to_hex, hex_pair};

verus! {

/// The characters that [`escape`] leaves as they are:
/// `ABCDEFGHIJKLMNOPQRSTUVWXYZabcdefghijklmnopqrstuvwxyz0123456789@*_+-./`.
pub open spec fn escape_reserved() -> Seq<u8> {
    seq![
        65u8, 66u8, 67u8, 68u8, 69u8, 70u8, 71u8, 72u8, 73u8, 74u8, 75u8, 76u8, 77u8,
        78u8, 79u8, 80u8, 81u8, 82u8, 83u8, 84u8, 85u8, 86u8, 87u8, 88u8, 89u8, 90u8,
        97u8, 98u8, 99u8, 100u8, 101u8, 102u8, 103u8, 104u8, 105u8, 106u8, 107u8, 108u8, 109u8,
        110u8, 111u8, 112u8, 113u8, 114u8, 115u8, 116u8, 117u8, 118u8, 119u8, 120u8, 121u8, 122u8,
        48u8, 49u8, 50u8, 51u8, 52u8, 53u8, 54u8, 55u8, 56u8, 57u8,
        64u8, 42u8, 95u8, 43u8, 45u8, 46u8, 47u8,
    ]
}

/// The code unit that a lead byte and a continuation byte stand for: the
/// low five bits of the first, then the low six of the second.
pub open spec fn two_byte_value(lead: u8, continuation: u8) -> int {
    (lead % 0x20) * 0x40 + continuation % 0x40
}

/// The escape sequence of a code unit: `%XX` below `0x100`, else `%uXXXX`.
pub open spec fn unit_escape(val: int) -> Seq<u8> {
    if val >= 0x100 {
        seq![37u8, 117u8] + hex_pair((val / 0x100) as u8) + hex_pair((val % 0x100) as u8)
    } else {
        percent_escape(val as u8)
    }
}

/// What escaping writes for the bytes from `index` on.
///
/// A character that is left alone stands for itself. A byte from `0x80` up
/// that a continuation byte follows is escaped together with that byte, as
/// the code unit the two stand for. Any other byte is escaped alone.
pub open spec fn escaped_from(bytes: Seq<u8>, index: int) -> Seq<u8>
    decreases bytes.len() - index,
{
    if index < 0 || index >= bytes.len() {
        Seq::empty()
    } else if escape_reserved().contains(bytes[index]) {
        seq![bytes[index]] + escaped_from(bytes, index + 1)
    } else if bytes[index] >= 0x80 && index + 1 < bytes.len() && is_continuation(bytes[index + 1]) {
        unit_escape(two_byte_value(bytes[index], bytes[index + 1])) + escaped_from(
            bytes,
            index + 2,
        )
    } else {
        percent_escape(bytes[index]) + escaped_from(bytes, index + 1)
    }
}

/// Escapes a string, as JavaScript's `escape` does, and appends the result
/// to `escaped`.
#[verifier::loop_isolation(false)]
pub fn escape(bytes: &[u8], escaped: &mut Vec<u8>)
    ensures
        final(escaped)@ == old(escaped)@ + escaped_from(bytes@, 0),
{
    let reserved: [u8; 69] = [
        65, 66, 67, 68, 69, 70, 71, 72, 73, 74, 75, 76, 77,
        78, 79, 80, 81, 82, 83, 84, 85, 86, 87, 88, 89, 90,
        97, 98, 99, 100, 101, 102, 103, 104, 105, 106, 107, 108, 109,
        110, 111, 112, 113, 114, 115, 116, 117, 118, 119, 120, 121, 122,
        48, 49, 50, 51, 52, 53, 54, 55, 56, 57,
        64, 42, 95, 43, 45, 46, 47,
    ];
    assert(reserved@ =~= escape_reserved());
    let mut idx: usize = 0;
    assert(escaped@ + escaped_from(bytes@, 0) =~= old(escaped)@ + escaped_from(bytes@, 0));
    while idx < bytes.len()
        invariant
            idx <= bytes.len(),
            escaped@ + escaped_from(bytes@, idx as int) == old(escaped)@ + escaped_from(bytes@, 0),
        decreases bytes.len() - idx,
    {
        let current: u8 = bytes[idx];
        let ghost before = escaped@;
        let ghost index = idx as int;
        if contains(reserved.as_slice(), current) {
            escaped.push(current);
            idx = idx + 1;
            assert(escaped@ + escaped_from(bytes@, idx as int) =~= before + escaped_from(
                bytes@,
                index,
            ));
            continue ;
        }
        if current >= 0x80 && bytes.len() - idx > 1 {
            let next: u8 = bytes[idx + 1];
            assert(next & 0xC0 == 0x80 <==> 0x80 <= next < 0xC0) by (bit_vector);
            // Continuation byte
            if next & 0xC0 == 0x80 {
                let val: u16 = ((current as u16 & 0x1F) << 6) | (next as u16 & 0x3F);
                assert(((current as u16 & 0x1F) << 6) | (next as u16 & 0x3F) == (current % 0x20)
                    * 0x40 + next % 0x40) by (bit_vector);
                if val >= 0x100 {
                    assert(val >> 8 == val / 0x100 && val & 0xFF == val % 0x100) by (bit_vector);
                    let high = byte_to_hex((val >> 8) as u8);
                    let low = byte_to_hex((val & 0xFF) as u8);
                    let text: [u8; 6] = [37, 117, high[0], high[1], low[0], low[1]];
                    assert(text@ =~= unit_escape(val as int));
                    append(escaped, text.as_slice());
                } else {
                    assert(val & 0xFF == val) by (bit_vector)
                        requires
                            val < 0x100,
                    ;
                    // Get the LSBs only
                    let hex = byte_to_hex((val & 0xFF) as u8);
                    let text: [u8; 3] = [37, hex[0], hex[1]];
                    assert(text@ =~= unit_escape(val as int));
                    append(escaped, text.as_slice());
                }
                idx = idx + 2;
                assert(escaped@ + escaped_from(bytes@, idx as int) =~= before + escaped_from(
                    bytes@,
                    index,
                ));
            } else {
                append_single_byte(current, escaped, &mut idx);
                assert(escaped@ + escaped_from(bytes@, idx as int) =~= before + escaped_from(
                    bytes@,
                    index,
                ));
            }
        } else {
            append_single_byte(current, escaped, &mut idx);
            assert(escaped@ + escaped_from(bytes@, idx as int) =~= before + escaped_from(
                bytes@,
                index,
            ));
        }
    }
    assert(escaped@ + Seq::<u8>::empty() =~= escaped@);
}

/// Appends the escape sequence of one byte and counts it.
fn append_single_byte(byte: u8, escaped: &mut Vec<u8>, counter: &mut usize)
    requires
        *old(counter) < usize::MAX,
    ensures
        final(escaped)@ == old(escaped)@ + percent_escape(byte),
        *final(counter) == *old(counter) + 1,
{
    let hex = byte_to_hex(byte);
    let text: [u8; 3] = [37, hex[0], hex[1]];
    assert(text@ =~= percent_escape(byte));
    append(escaped, text.as_slice());
    *counter = *counter + 1;
}

} // verus!
