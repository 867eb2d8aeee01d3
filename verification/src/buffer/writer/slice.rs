//! A borrowed slice as a destination.

use bytes::Bytes;
use bytes::BytesMut;

use vstd::prelude::*;

use crate::buffer::reader::Chunk;
use crate::buffer::writer::filled_by;
use crate::buffer::writer::Buffer;
use crate::shared::buffer_slice;
use crate::shared::chunk_slice;

verus! {

/// `<[T]>::copy_from_slice` for bytes: overwrites `to` with `from`. It panics where the lengths
/// differ.
#[verifier::external_body]
pub(crate) fn overwrite_slice(to: &mut [u8], from: &[u8])
    requires
        old(to)@.len() == from@.len(),
    ensures
        final(to)@ == from@,
{
    to.copy_from_slice(from)
}

/// Fills a borrowed slice from the front.
pub struct SliceWriter<'a> {
    /// The slice that is filled.
    pub slot: &'a mut [u8],
    /// How many of its bytes are filled.
    pub filled: usize,
}

impl<'a> SliceWriter<'a> {
    /// Starts filling `slot` from its first byte.
    pub fn new(slot: &'a mut [u8]) -> (writer: Self)
        ensures
            writer.slot@ == old(slot)@,
            final(writer.slot)@ == final(slot)@,
            writer.filled == 0,
    {
        SliceWriter { slot, filled: 0 }
    }

    /// How many bytes were filled.
    pub fn filled_len(&self) -> (len: usize)
        ensures
            len == self.filled,
    {
        self.filled
    }
}

impl<'a> Buffer for SliceWriter<'a> {
    open spec fn written(&self) -> Seq<u8> {
        self.slot@.take(self.filled as int)
    }

    open spec fn space(&self) -> int {
        self.slot@.len() - self.filled
    }

    open spec fn reported(&self) -> nat {
        if self.filled <= self.slot@.len() {
            (self.slot@.len() - self.filled) as nat
        } else {
            0
        }
    }

    open spec fn honest(&self) -> bool {
        self.filled <= self.slot@.len()
    }

    open spec fn tally(&self) -> nat {
        self.filled as nat
    }

    open spec fn may_expose(&self, n: nat) -> bool {
        true
    }

    open spec fn exposes(&self, n: nat) -> bool {
        n <= self.slot@.len() - self.filled
    }

    fn put_slice(&mut self, bytes: &[u8])
        ensures
            final(final(self).slot)@ == final(old(self).slot)@,
            final(self).slot@.len() == old(self).slot@.len(),
            final(self).filled == old(self).filled + bytes@.len(),
            final(self).slot@.skip(final(self).filled as int) == old(self).slot@.skip(
                final(self).filled as int,
            ),
    {
        let ghost before = self.slot@;
        let start: usize = self.filled;
        let len: usize = bytes.len();
        let end: usize = self.slot.len();
        assert(start + len <= end);
        let (_, rest) = self.slot.split_at_mut(start);
        let (target, _) = rest.split_at_mut(len);
        overwrite_slice(target, bytes);
        self.filled = start + len;
        proof {
            assert(self.slot@ =~= before.take(start as int) + bytes@ + before.skip(
                (start + len) as int,
            ));
            assert(self.slot@.take(self.filled as int) =~= before.take(start as int) + bytes@);
            assert(self.slot@.skip(self.filled as int) =~= before.skip(self.filled as int));
        }
    }

    fn put_uninit_slice<F, E>(&mut self, payload_len: usize, f: F) -> (result: Result<
        Option<usize>,
        E,
    >) where F: FnOnce(&mut [u8]) -> Result<usize, E>
        ensures
            final(final(self).slot)@ == final(old(self).slot)@,
    {
        if self.remaining_capacity() < payload_len || self.filled > self.slot.len() {
            return Ok(None);
        }
        match filled_by(payload_len, f) {
            Ok(exposed) => {
                let count: usize = exposed.len();
                let ghost before = self.written();
                self.put_slice(exposed.as_slice());
                assert(self.written().skip(before.len() as int) =~= exposed@);
                Ok(Some(count))
            },
            Err(error) => Err(error),
        }
    }

    fn remaining_capacity(&self) -> (capacity: usize)
        ensures
            self.filled <= old(self.slot)@.len() ==> capacity + self.filled == old(self.slot)@.len(),
    {
        if self.filled <= self.slot.len() {
            self.slot.len() - self.filled
        } else {
            0
        }
    }

    fn has_remaining_capacity(&self) -> (has: bool) {
        self.remaining_capacity() > 0
    }

    fn put_bytes(&mut self, bytes: Bytes)
        ensures
            final(final(self).slot)@ == final(old(self).slot)@,
    {
        self.put_slice(chunk_slice(&bytes));
    }

    fn put_bytes_mut(&mut self, bytes: BytesMut)
        ensures
            final(final(self).slot)@ == final(old(self).slot)@,
    {
        self.put_slice(buffer_slice(&bytes));
    }

    fn put_chunk(&mut self, chunk: Chunk<'_>)
        ensures
            final(final(self).slot)@ == final(old(self).slot)@,
    {
        self.put_slice(chunk.as_slice());
    }
}

} // verus!
