//! Appending to a byte vector and searching a byte slice.

use vstd::prelude::*;

verus! {

/// Appends the bytes of `tail` to `out`.
pub fn append(out: &mut Vec<u8>, tail: &[u8])
    ensures
        final(out)@ == old(out)@ + tail@,
{
    out.extend_from_slice(tail);
    assert(out@ =~= old(out)@ + tail@);
}

/// Whether `byte` is one of `set`.
pub fn contains(set: &[u8], byte: u8) -> (found: bool)
    ensures
        found == set@.contains(byte),
{
    let mut index: usize = 0;
    while index < set.len()
        invariant
            index <= set.len(),
            forall|i: int| 0 <= i < index ==> set@[i] != byte,
        decreases set.len() - index,
    {
        if set[index] == byte {
            return true;
        }
        index = index + 1;
    }
    false
}

} // verus!
