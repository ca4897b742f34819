//! The buffer in which the digits of one number are put together.
//!
//! The digits of the fraction are found first, the first digit first, and
//! are written from the end of the buffer backwards. What stands before
//! them in the text, the point, the digits of the whole part and the sign,
//! is found last byte first and is written before the fraction, backwards
//! too: so these bytes stand in the buffer as in the text, and only the
//! fraction has to be reversed at the end.

use vstd::prelude::*;
use vstd::slice::slice_subrange;
use crate::bytes::append;

verus! {

/// The number of bytes that the digits of one number are assembled in. A
/// fraction has no more than 1074 digits, a whole part no more than 1024,
/// and a point and a sign come to these.
pub const DEFAULT_BUFFER_SIZE: usize = 2200;

/// A buffer of [`DEFAULT_BUFFER_SIZE`] bytes with three cursors into it.
pub struct DigitBuffer {
    bytes: [u8; 2200],
    /// The index of the first byte written.
    write_cursor: usize,
    /// The index behind the last byte that is kept: rounding up takes
    /// digits of the fraction away again.
    truncate_cursor: usize,
    /// The index of the last digit of the fraction that was written, where
    /// the fraction ends and what stands before it begins.
    fraction_boundary: usize,
}

impl DigitBuffer {
    /// The number of bytes that are free: the index of the first byte
    /// written.
    pub closed spec fn free(&self) -> nat {
        self.write_cursor as nat
    }

    /// The cursors are in order: the first byte written is not behind the
    /// boundary of the fraction, the boundary is not behind the end of
    /// what is kept, and that is not behind the end of the buffer.
    pub closed spec fn wf(&self) -> bool {
        self.write_cursor <= self.fraction_boundary <= self.truncate_cursor
            <= DEFAULT_BUFFER_SIZE
    }

    /// What stands before the fraction: the sign, the digits of the whole
    /// part and the point, as far as they have been written.
    pub closed spec fn head(&self) -> Seq<u8> {
        self.bytes@.subrange(self.write_cursor as int, self.fraction_boundary as int)
    }

    /// The digits of the fraction that are kept, the first digit first.
    pub closed spec fn fraction(&self) -> Seq<u8> {
        Seq::new(
            (self.truncate_cursor - self.fraction_boundary) as nat,
            |i: int| self.bytes@[DEFAULT_BUFFER_SIZE - 1 - i],
        )
    }

    /// Whether nothing but digits of the fraction has been written, and
    /// none of them has been taken away.
    pub closed spec fn collecting(&self) -> bool {
        self.write_cursor == self.fraction_boundary && self.truncate_cursor
            == DEFAULT_BUFFER_SIZE
    }

    /// The text in the buffer.
    pub open spec fn text(&self) -> Seq<u8> {
        self.head() + self.fraction()
    }

    /// While digits of the fraction are collected, the free bytes and the
    /// digits together fill the buffer, and nothing stands before the
    /// digits.
    pub proof fn lemma_collecting(&self)
        requires
            self.wf(),
            self.collecting(),
        ensures
            self.free() + self.fraction().len() == DEFAULT_BUFFER_SIZE,
            self.head() == Seq::<u8>::empty(),
    {
        assert(self.head() =~= Seq::<u8>::empty());
    }

    /// An empty buffer.
    pub fn new() -> (buffer: DigitBuffer)
        ensures
            buffer.wf(),
            buffer.collecting(),
            buffer.free() == DEFAULT_BUFFER_SIZE,
            buffer.head() == Seq::<u8>::empty(),
            buffer.fraction() == Seq::<u8>::empty(),
    {
        let buffer = DigitBuffer {
            bytes: [0u8; 2200],
            write_cursor: DEFAULT_BUFFER_SIZE,
            truncate_cursor: DEFAULT_BUFFER_SIZE,
            fraction_boundary: DEFAULT_BUFFER_SIZE,
        };
        assert(buffer.head() =~= Seq::<u8>::empty());
        assert(buffer.fraction() =~= Seq::<u8>::empty());
        buffer
    }

    /// Writes the next digit of the fraction.
    pub fn push_fraction_digit(&mut self, digit: u8)
        requires
            old(self).wf(),
            old(self).collecting(),
            old(self).free() > 0,
        ensures
            final(self).wf(),
            final(self).collecting(),
            final(self).free() == old(self).free() - 1,
            final(self).fraction() == old(self).fraction().push(digit),
    {
        self.write_cursor = self.write_cursor - 1;
        self.fraction_boundary = self.write_cursor;
        self.bytes[self.write_cursor] = digit;
        assert(self.fraction() =~= old(self).fraction().push(digit));
    }

    /// Whether a digit of the fraction is kept.
    pub fn has_fraction(&self) -> (kept: bool)
        requires
            self.wf(),
        ensures
            kept == (self.fraction().len() > 0),
    {
        self.truncate_cursor > self.fraction_boundary
    }

    /// The last digit of the fraction that is kept.
    pub fn last_fraction_digit(&self) -> (digit: u8)
        requires
            self.wf(),
            self.fraction().len() > 0,
        ensures
            digit == self.fraction().last(),
    {
        self.bytes[DEFAULT_BUFFER_SIZE - (self.truncate_cursor - self.fraction_boundary)]
    }

    /// Takes the last digit of the fraction away.
    pub fn discard_fraction_digit(&mut self)
        requires
            old(self).wf(),
            old(self).fraction().len() > 0,
        ensures
            final(self).wf(),
            final(self).free() == old(self).free(),
            final(self).head() == old(self).head(),
            final(self).fraction() == old(self).fraction().drop_last(),
    {
        self.truncate_cursor = self.truncate_cursor - 1;
        assert(self.fraction() =~= old(self).fraction().drop_last());
    }

    /// Puts `digit` in the place of the last digit of the fraction.
    pub fn replace_last_fraction_digit(&mut self, digit: u8)
        requires
            old(self).wf(),
            old(self).fraction().len() > 0,
            old(self).head() == Seq::<u8>::empty(),
        ensures
            final(self).wf(),
            final(self).free() == old(self).free(),
            final(self).head() == old(self).head(),
            final(self).fraction() == old(self).fraction().update(
                old(self).fraction().len() - 1,
                digit,
            ),
    {
        let index: usize = DEFAULT_BUFFER_SIZE - (self.truncate_cursor - self.fraction_boundary);
        self.bytes[index] = digit;
        assert(self.head() =~= old(self).head());
        assert(self.fraction() =~= old(self).fraction().update(
            old(self).fraction().len() - 1,
            digit,
        ));
    }

    /// Writes `byte` before what has been written.
    pub fn push_front(&mut self, byte: u8)
        requires
            old(self).wf(),
            old(self).free() > 0,
        ensures
            final(self).wf(),
            final(self).free() == old(self).free() - 1,
            final(self).head() == seq![byte] + old(self).head(),
            final(self).fraction() == old(self).fraction(),
    {
        self.write_cursor = self.write_cursor - 1;
        self.bytes[self.write_cursor] = byte;
        assert(self.head() =~= seq![byte] + old(self).head());
        assert(self.fraction() =~= old(self).fraction());
    }

    /// Appends the text in the buffer to `out`.
    pub fn finish(self, out: &mut Vec<u8>)
        requires
            self.wf(),
        ensures
            final(out)@ == old(out)@ + self.text(),
    {
        let mut bytes: [u8; 2200] = self.bytes;
        reverse_tail(&mut bytes, self.fraction_boundary);
        let text = slice_subrange(bytes.as_slice(), self.write_cursor, self.truncate_cursor);
        assert(text@ =~= self.text());
        append(out, text);
    }
}

/// Reverses the bytes of `buffer` from `start` to its end.
fn reverse_tail(buffer: &mut [u8; 2200], start: usize)
    requires
        start <= 2200,
    ensures
        forall|i: int| 0 <= i < start ==> final(buffer)@[i] == old(buffer)@[i],
        forall|i: int| start <= i < 2200 ==> final(buffer)@[i] == old(buffer)@[start + 2199 - i],
{
    let mut low: usize = start;
    let mut high: usize = 2200;
    while low + 1 < high
        invariant
            start <= low <= high <= 2200,
            low - start == 2200 - high,
            forall|i: int| 0 <= i < start ==> buffer@[i] == old(buffer)@[i],
            forall|i: int| low <= i < high ==> buffer@[i] == old(buffer)@[i],
            forall|i: int|
                start <= i < low || high <= i < 2200 ==> buffer@[i] == old(buffer)@[start + 2199
                    - i],
        decreases high - low,
    {
        high = high - 1;
        let first: u8 = buffer[low];
        let last: u8 = buffer[high];
        buffer[low] = last;
        buffer[high] = first;
        low = low + 1;
    }
}

} // verus!
