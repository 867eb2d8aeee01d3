//! A destination with a cap on how much can be written to it.

use bytes::Bytes;
use bytes::BytesMut;

use vstd::prelude::*;

use crate::buffer::reader::Chunk;
use crate::buffer::writer::Buffer;

verus! {

/// The smaller of two numbers.
pub open spec fn least(a: int, b: int) -> int {
    if a <= b {
        a
    } else {
        b
    }
}

/// Limits the number of bytes that can be written to the underlying storage.
pub struct Limit<'a, S: Buffer> {
    /// Where the bytes go.
    pub storage: &'a mut S,
    /// How many more bytes may go there.
    pub remaining_capacity: usize,
}

impl<'a, S: Buffer> Limit<'a, S> {
    /// Wraps `storage`, capping what can be written at `remaining_capacity` or at the capacity that
    /// the storage reports, whichever is smaller.
    pub fn new(storage: &'a mut S, remaining_capacity: usize) -> (limit: Self)
        ensures
            *limit.storage == *old(storage),
            *final(limit.storage) == *final(storage),
            limit.remaining_capacity == least(
                remaining_capacity as int,
                old(storage).reported() as int,
            ),
    {
        let reported: usize = storage.remaining_capacity();
        let cap: usize = if remaining_capacity <= reported {
            remaining_capacity
        } else {
            reported
        };
        Limit { storage, remaining_capacity: cap }
    }
}

impl<'a, S: Buffer> Buffer for Limit<'a, S> {
    const SPECIALIZES_BYTES: bool = S::SPECIALIZES_BYTES;

    const SPECIALIZES_BYTES_MUT: bool = S::SPECIALIZES_BYTES_MUT;

    open spec fn written(&self) -> Seq<u8> {
        self.storage.written()
    }

    open spec fn space(&self) -> int {
        least(self.remaining_capacity as int, self.storage.space())
    }

    open spec fn reported(&self) -> nat {
        least(self.remaining_capacity as int, self.storage.reported() as int) as nat
    }

    open spec fn honest(&self) -> bool {
        self.storage.honest() || self.remaining_capacity <= self.storage.space()
    }

    open spec fn tally(&self) -> nat {
        self.storage.tally()
    }

    open spec fn may_expose(&self, n: nat) -> bool {
        n <= self.remaining_capacity && self.storage.may_expose(n)
    }

    open spec fn exposes(&self, n: nat) -> bool {
        self.storage.exposes(n)
    }

    fn put_slice(&mut self, bytes: &[u8])
        ensures
            *final(final(self).storage) == *final(old(self).storage),
            exists|target: &mut S|
                {
                    &&& *target == *old(self).storage
                    &&& *final(target) == *final(self).storage
                    &&& #[trigger] call_ensures(S::put_slice, (target, bytes), ())
                },
            final(self).remaining_capacity == old(self).remaining_capacity - bytes@.len(),
    {
        self.storage.put_slice(bytes);
        self.remaining_capacity = self.remaining_capacity - bytes.len();
    }

    fn put_uninit_slice<F, E>(&mut self, payload_len: usize, f: F) -> (result: Result<
        Option<usize>,
        E,
    >) where F: FnOnce(&mut [u8]) -> Result<usize, E>
        ensures
            *final(final(self).storage) == *final(old(self).storage),
            final(self).remaining_capacity == old(self).remaining_capacity - match result {
                Ok(Some(count)) => count as int,
                _ => 0,
            },
    {
        match self.storage.put_uninit_slice(payload_len, f) {
            Ok(Some(count)) => {
                self.remaining_capacity = self.remaining_capacity - count;
                Ok(Some(count))
            },
            Ok(None) => Ok(None),
            Err(error) => Err(error),
        }
    }

    fn remaining_capacity(&self) -> (capacity: usize)
        ensures
            capacity <= self.remaining_capacity,
            capacity <= old(self.storage).reported(),
            capacity == self.remaining_capacity || capacity == old(self.storage).reported(),
    {
        let reported: usize = self.storage.remaining_capacity();
        if self.remaining_capacity <= reported {
            self.remaining_capacity
        } else {
            reported
        }
    }

    fn has_remaining_capacity(&self) -> (has: bool) {
        self.remaining_capacity > 0 && self.storage.has_remaining_capacity()
    }

    fn put_bytes(&mut self, bytes: Bytes)
        ensures
            *final(final(self).storage) == *final(old(self).storage),
            exists|target: &mut S|
                {
                    &&& *target == *old(self).storage
                    &&& *final(target) == *final(self).storage
                    &&& #[trigger] call_ensures(S::put_bytes, (target, bytes), ())
                },
            final(self).remaining_capacity == old(self).remaining_capacity
                - crate::shared::contents(bytes).len(),
    {
        let len: usize = bytes.len();
        self.storage.put_bytes(bytes);
        self.remaining_capacity = self.remaining_capacity - len;
    }

    fn put_bytes_mut(&mut self, bytes: BytesMut)
        ensures
            *final(final(self).storage) == *final(old(self).storage),
            exists|target: &mut S|
                {
                    &&& *target == *old(self).storage
                    &&& *final(target) == *final(self).storage
                    &&& #[trigger] call_ensures(S::put_bytes_mut, (target, bytes), ())
                },
            final(self).remaining_capacity == old(self).remaining_capacity
                - crate::shared::buffered(bytes).len(),
    {
        let len: usize = bytes.len();
        self.storage.put_bytes_mut(bytes);
        self.remaining_capacity = self.remaining_capacity - len;
    }

    fn put_chunk(&mut self, chunk: Chunk<'_>)
        ensures
            *final(final(self).storage) == *final(old(self).storage),
            exists|target: &mut S|
                {
                    &&& *target == *old(self).storage
                    &&& *final(target) == *final(self).storage
                    &&& #[trigger] call_ensures(S::put_chunk, (target, chunk), ())
                },
            final(self).remaining_capacity == old(self).remaining_capacity - chunk@.len(),
    {
        let len: usize = chunk.len();
        self.storage.put_chunk(chunk);
        self.remaining_capacity = self.remaining_capacity - len;
    }
}

} // verus!
