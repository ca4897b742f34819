//! The `unescape` function.

use vstd::prelude::*;
use crate::bytes::append;
use crate::globals::utils::{decode_two_octets, hex_pair_value, hex_value, two_octets};

verus! {

/// Whether the escape sequence `%uXXXX` of a code unit begins at `index`: a
/// `%`, a `u` and four hexadecimal digits.
pub open spec fn unit_sequence_at(bytes: Seq<u8>, index: int) -> bool {
    &&& index + 5 < bytes.len()
    &&& bytes[index] == 37
    &&& bytes[index + 1] == 117
    &&& hex_pair_value(bytes[index + 2], bytes[index + 3]) < 0x100
    &&& hex_pair_value(bytes[index + 4], bytes[index + 5]) < 0x100
}

/// Whether the escape sequence `%XX` of a byte begins at `index`: a `%` and
/// two hexadecimal digits.
pub open spec fn byte_sequence_at(bytes: Seq<u8>, index: int) -> bool {
    &&& index + 2 < bytes.len()
    &&& bytes[index] == 37
    &&& hex_pair_value(bytes[index + 1], bytes[index + 2]) < 0x100
}

/// What is written for the value of an escape sequence: the value itself
/// below `0x80`, else its two octets.
pub open spec fn unescaped_value(total: int) -> Seq<u8> {
    if total < 0x80 {
        seq![total as u8]
    } else {
        two_octets(total as u16)
    }
}

/// What unescaping writes for the bytes from `index` on.
///
/// The escape sequence of a code unit is written as the two octets of the
/// unit, that of a byte as the byte or as its two octets. Every other byte
/// stands for itself, also a `%` that begins no escape sequence.
pub open spec fn unescaped_from(bytes: Seq<u8>, index: int) -> Seq<u8>
    decreases bytes.len() - index,
{
    if index < 0 || index >= bytes.len() {
        Seq::empty()
    } else if unit_sequence_at(bytes, index) {
        two_octets(
            (hex_pair_value(bytes[index + 2], bytes[index + 3]) * 0x100 + hex_pair_value(
                bytes[index + 4],
                bytes[index + 5],
            )) as u16,
        ) + unescaped_from(bytes, index + 6)
    } else if byte_sequence_at(bytes, index) {
        unescaped_value(hex_pair_value(bytes[index + 1], bytes[index + 2]) as int)
            + unescaped_from(bytes, index + 3)
    } else {
        seq![bytes[index]] + unescaped_from(bytes, index + 1)
    }
}

/// Unescapes a string, as JavaScript's `unescape` does, and appends the
/// result to `unescaped`.
///
/// This function is the opposite of the `escape` function.
#[verifier::loop_isolation(false)]
pub fn unescape(bytes: &[u8], unescaped: &mut Vec<u8>)
    ensures
        final(unescaped)@ == old(unescaped)@ + unescaped_from(bytes@, 0),
{
    let mut idx: usize = 0;
    assert(unescaped@ + unescaped_from(bytes@, 0) =~= old(unescaped)@ + unescaped_from(bytes@, 0));
    while idx < bytes.len()
        invariant
            idx <= bytes.len(),
            unescaped@ + unescaped_from(bytes@, idx as int) == old(unescaped)@ + unescaped_from(
                bytes@,
                0,
            ),
        decreases bytes.len() - idx,
    {
        let current: u8 = bytes[idx];
        let ghost before = unescaped@;
        let ghost index = idx as int;
        if current == 37 {
            if bytes.len() - idx > 5 && bytes[idx + 1] == 117 {
                let first_val: u32 = hex_value(bytes[idx + 2], bytes[idx + 3]);
                let second_val: u32 = hex_value(bytes[idx + 4], bytes[idx + 5]);
                // Only append valid hexadecimal bytes.
                if first_val < 0x100 && second_val < 0x100 {
                    assert((first_val << 8) | second_val == first_val * 0x100 + second_val)
                        by (bit_vector)
                        requires
                            first_val < 0x100,
                            second_val < 0x100,
                    ;
                    let combined: u16 = ((first_val << 8) | second_val) as u16;
                    let octets = decode_two_octets(combined);
                    append(unescaped, octets.as_slice());
                    idx = idx + 6;
                    assert(unescaped@ + unescaped_from(bytes@, idx as int) =~= before
                        + unescaped_from(bytes@, index));
                    continue ;
                }
            } else if bytes.len() - idx > 2 {
                let total: u32 = hex_value(bytes[idx + 1], bytes[idx + 2]);
                // Only append valid hexadecimal bytes.
                if total < 0x100 {
                    if total < 0x80 {
                        // ASCII
                        unescaped.push(total as u8);
                    } else {
                        // Two octets.
                        let octets = decode_two_octets(total as u16);
                        append(unescaped, octets.as_slice());
                    }
                    idx = idx + 3;
                    assert(unescaped@ + unescaped_from(bytes@, idx as int) =~= before
                        + unescaped_from(bytes@, index));
                    continue ;
                }
            }
        }
        unescaped.push(current);
        idx = idx + 1;
        assert(unescaped@ + unescaped_from(bytes@, idx as int) =~= before + unescaped_from(
            bytes@,
            index,
        ));
    }
    assert(unescaped@ + Seq::<u8>::empty() =~= unescaped@);
}

} // verus!
