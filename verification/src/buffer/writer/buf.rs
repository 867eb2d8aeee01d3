//! Growable vectors and buffers as destinations, and a bridge that always copies.

use bytes::Bytes;
use bytes::BytesMut;

use vstd::prelude::*;

use crate::buffer::reader::Chunk;
use crate::buffer::writer::filled_by;
use crate::buffer::writer::Buffer;
use crate::shared::buffer_slice;
use crate::shared::buffered;
use crate::shared::chunk_slice;

verus! {

impl Buffer for Vec<u8> {
    open spec fn written(&self) -> Seq<u8> {
        self@
    }

    open spec fn space(&self) -> int {
        isize::MAX - self@.len()
    }

    open spec fn reported(&self) -> nat {
        if self@.len() <= isize::MAX {
            (isize::MAX - self@.len()) as nat
        } else {
            0
        }
    }

    open spec fn honest(&self) -> bool {
        self@.len() <= isize::MAX
    }

    open spec fn tally(&self) -> nat {
        self@.len()
    }

    open spec fn may_expose(&self, n: nat) -> bool {
        n <= isize::MAX - self@.len()
    }

    open spec fn exposes(&self, n: nat) -> bool {
        true
    }

    fn put_slice(&mut self, bytes: &[u8]) {
        let ghost before = self@;
        self.extend_from_slice(bytes);
        assert(self@ =~= before + bytes@);
    }

    fn put_uninit_slice<F, E>(&mut self, payload_len: usize, f: F) -> (result: Result<
        Option<usize>,
        E,
    >) where F: FnOnce(&mut [u8]) -> Result<usize, E> {
        match filled_by(payload_len, f) {
            Ok(exposed) => {
                let count: usize = exposed.len();
                let ghost before = self.written();
                self.put_slice(exposed.as_slice());
                assert(self.written().skip(before.len() as int) =~= exposed@);
                Ok(Some(count))
            },
            Err(error) => Err(error),
        }
    }

    fn remaining_capacity(&self) -> (capacity: usize)
        ensures
            self@.len() <= isize::MAX ==> capacity + self@.len() == isize::MAX,
            self@.len() > isize::MAX ==> capacity == 0,
    {
        let most: usize = isize::MAX as usize;
        if self.len() <= most {
            most - self.len()
        } else {
            0
        }
    }

    fn has_remaining_capacity(&self) -> (has: bool) {
        self.remaining_capacity() > 0
    }

    fn put_bytes(&mut self, bytes: Bytes) {
        self.put_slice(chunk_slice(&bytes));
    }

    fn put_bytes_mut(&mut self, bytes: BytesMut) {
        self.put_slice(buffer_slice(&bytes));
    }

    fn put_chunk(&mut self, chunk: Chunk<'_>) {
        self.put_slice(chunk.as_slice());
    }
}

impl Buffer for BytesMut {
    open spec fn written(&self) -> Seq<u8> {
        buffered(*self)
    }

    open spec fn space(&self) -> int {
        isize::MAX - buffered(*self).len()
    }

    open spec fn reported(&self) -> nat {
        if buffered(*self).len() <= isize::MAX {
            (isize::MAX - buffered(*self).len()) as nat
        } else {
            0
        }
    }

    open spec fn honest(&self) -> bool {
        buffered(*self).len() <= isize::MAX
    }

    open spec fn tally(&self) -> nat {
        buffered(*self).len()
    }

    open spec fn may_expose(&self, n: nat) -> bool {
        n <= isize::MAX - buffered(*self).len()
    }

    open spec fn exposes(&self, n: nat) -> bool {
        true
    }

    fn put_slice(&mut self, bytes: &[u8]) {
        self.extend_from_slice(bytes);
    }

    fn put_uninit_slice<F, E>(&mut self, payload_len: usize, f: F) -> (result: Result<
        Option<usize>,
        E,
    >) where F: FnOnce(&mut [u8]) -> Result<usize, E> {
        match filled_by(payload_len, f) {
            Ok(exposed) => {
                let count: usize = exposed.len();
                let ghost before = self.written();
                self.put_slice(exposed.as_slice());
                assert(self.written().skip(before.len() as int) =~= exposed@);
                Ok(Some(count))
            },
            Err(error) => Err(error),
        }
    }

    fn remaining_capacity(&self) -> (capacity: usize)
        ensures
            buffered(*self).len() <= isize::MAX ==> capacity + buffered(*self).len() == isize::MAX,
            buffered(*self).len() > isize::MAX ==> capacity == 0,
    {
        let most: usize = isize::MAX as usize;
        if self.len() <= most {
            most - self.len()
        } else {
            0
        }
    }

    fn has_remaining_capacity(&self) -> (has: bool) {
        self.remaining_capacity() > 0
    }

    fn put_bytes(&mut self, bytes: Bytes) {
        self.put_slice(chunk_slice(&bytes));
    }

    fn put_bytes_mut(&mut self, bytes: BytesMut) {
        self.put_slice(buffer_slice(&bytes));
    }

    fn put_chunk(&mut self, chunk: Chunk<'_>) {
        self.put_slice(chunk.as_slice());
    }
}

/// Delegates to another destination, always by slice: owned chunks are copied.
pub struct BufMut<'a, T: Buffer> {
    /// Where the bytes go.
    pub buf_mut: &'a mut T,
}

impl<'a, T: Buffer> BufMut<'a, T> {
    /// Wraps a destination. Writes are forwarded to it.
    pub fn new(buf_mut: &'a mut T) -> (buf: Self)
        ensures
            *buf.buf_mut == *old(buf_mut),
            *final(buf.buf_mut) == *final(buf_mut),
    {
        BufMut { buf_mut }
    }
}

impl<'a, T: Buffer> Buffer for BufMut<'a, T> {
    open spec fn written(&self) -> Seq<u8> {
        self.buf_mut.written()
    }

    open spec fn space(&self) -> int {
        self.buf_mut.space()
    }

    open spec fn reported(&self) -> nat {
        self.buf_mut.reported()
    }

    open spec fn honest(&self) -> bool {
        self.buf_mut.honest()
    }

    open spec fn tally(&self) -> nat {
        self.buf_mut.tally()
    }

    open spec fn may_expose(&self, n: nat) -> bool {
        self.buf_mut.may_expose(n)
    }

    open spec fn exposes(&self, n: nat) -> bool {
        self.buf_mut.exposes(n)
    }

    fn put_slice(&mut self, bytes: &[u8])
        ensures
            *final(final(self).buf_mut) == *final(old(self).buf_mut),
            exists|target: &mut T|
                {
                    &&& *target == *old(self).buf_mut
                    &&& *final(target) == *final(self).buf_mut
                    &&& #[trigger] call_ensures(T::put_slice, (target, bytes), ())
                },
    {
        self.buf_mut.put_slice(bytes);
    }

    fn put_uninit_slice<F, E>(&mut self, payload_len: usize, f: F) -> (result: Result<
        Option<usize>,
        E,
    >) where F: FnOnce(&mut [u8]) -> Result<usize, E>
        ensures
            *final(final(self).buf_mut) == *final(old(self).buf_mut),
    {
        self.buf_mut.put_uninit_slice(payload_len, f)
    }

    fn remaining_capacity(&self) -> (capacity: usize) {
        self.buf_mut.remaining_capacity()
    }

    fn has_remaining_capacity(&self) -> (has: bool) {
        self.buf_mut.remaining_capacity() > 0
    }

    fn put_bytes(&mut self, bytes: Bytes)
        ensures
            *final(final(self).buf_mut) == *final(old(self).buf_mut),
    {
        self.buf_mut.put_slice(chunk_slice(&bytes));
    }

    fn put_bytes_mut(&mut self, bytes: BytesMut)
        ensures
            *final(final(self).buf_mut) == *final(old(self).buf_mut),
    {
        self.buf_mut.put_slice(buffer_slice(&bytes));
    }

    fn put_chunk(&mut self, chunk: Chunk<'_>)
        ensures
            *final(final(self).buf_mut) == *final(old(self).buf_mut),
    {
        self.buf_mut.put_slice(chunk.as_slice());
    }
}

} // verus!
