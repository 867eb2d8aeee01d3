//! A destination that counts what is written to it.

use bytes::Bytes;
use bytes::BytesMut;

use vstd::prelude::*;

use crate::buffer::reader::Chunk;
use crate::buffer::writer::Buffer;
use crate::shared::buffered;
use crate::shared::contents;

verus! {

/// `count` raised by `n`, or the largest count there is.
pub open spec fn counted(count: usize, n: nat) -> int {
    if count + n <= usize::MAX {
        count + n
    } else {
        usize::MAX as int
    }
}

/// Counts the bytes written to the underlying storage.
pub struct TrackedWriter<'a, S: Buffer> {
    /// Where the bytes go.
    pub storage: &'a mut S,
    /// How many bytes went there.
    pub written: usize,
}

impl<'a, S: Buffer> TrackedWriter<'a, S> {
    /// Wraps `storage` to count the bytes written to it.
    pub fn new(storage: &'a mut S) -> (tracker: Self)
        ensures
            *tracker.storage == *old(storage),
            *final(tracker.storage) == *final(storage),
            tracker.written == 0,
    {
        TrackedWriter { storage, written: 0 }
    }

    /// The number of bytes written through this wrapper so far.
    pub fn written_len(&self) -> (len: usize)
        ensures
            len == self.written,
    {
        self.written
    }
}

impl<'a, S: Buffer> Buffer for TrackedWriter<'a, S> {
    const SPECIALIZES_BYTES: bool = S::SPECIALIZES_BYTES;

    const SPECIALIZES_BYTES_MUT: bool = S::SPECIALIZES_BYTES_MUT;

    open spec fn written(&self) -> Seq<u8> {
        self.storage.written()
    }

    open spec fn space(&self) -> int {
        self.storage.space()
    }

    open spec fn reported(&self) -> nat {
        self.storage.reported()
    }

    open spec fn honest(&self) -> bool {
        self.storage.honest()
    }

    open spec fn tally(&self) -> nat {
        self.written as nat
    }

    open spec fn may_expose(&self, n: nat) -> bool {
        self.storage.may_expose(n)
    }

    open spec fn exposes(&self, n: nat) -> bool {
        self.storage.exposes(n)
    }

    fn put_slice(&mut self, bytes: &[u8])
        ensures
            *final(final(self).storage) == *final(old(self).storage),
            exists|target: &mut S|
                {
                    &&& *target == *old(self).storage
                    &&& *final(target) == *final(self).storage
                    &&& #[trigger] call_ensures(S::put_slice, (target, bytes), ())
                },
            final(self).written == counted(old(self).written, bytes@.len()),
    {
        self.storage.put_slice(bytes);
        self.written = self.written.saturating_add(bytes.len());
    }

    fn put_uninit_slice<F, E>(&mut self, payload_len: usize, f: F) -> (result: Result<
        Option<usize>,
        E,
    >) where F: FnOnce(&mut [u8]) -> Result<usize, E>
        ensures
            *final(final(self).storage) == *final(old(self).storage),
            final(self).written == counted(
                old(self).written,
                match result {
                    Ok(Some(count)) => count as nat,
                    _ => 0,
                },
            ),
    {
        match self.storage.put_uninit_slice(payload_len, f) {
            Ok(Some(count)) => {
                self.written = self.written.saturating_add(count);
                Ok(Some(count))
            },
            Ok(None) => Ok(None),
            Err(error) => Err(error),
        }
    }

    fn remaining_capacity(&self) -> (capacity: usize) {
        self.storage.remaining_capacity()
    }

    fn has_remaining_capacity(&self) -> (has: bool) {
        self.storage.has_remaining_capacity()
    }

    fn put_bytes(&mut self, bytes: Bytes)
        ensures
            *final(final(self).storage) == *final(old(self).storage),
            exists|target: &mut S|
                {
                    &&& *target == *old(self).storage
                    &&& *final(target) == *final(self).storage
                    &&& #[trigger] call_ensures(S::put_bytes, (target, bytes), ())
                },
            final(self).written == counted(old(self).written, contents(bytes).len()),
    {
        let len: usize = bytes.len();
        self.storage.put_bytes(bytes);
        self.written = self.written.saturating_add(len);
    }

    fn put_bytes_mut(&mut self, bytes: BytesMut)
        ensures
            *final(final(self).storage) == *final(old(self).storage),
            exists|target: &mut S|
                {
                    &&& *target == *old(self).storage
                    &&& *final(target) == *final(self).storage
                    &&& #[trigger] call_ensures(S::put_bytes_mut, (target, bytes), ())
                },
            final(self).written == counted(old(self).written, buffered(bytes).len()),
    {
        let len: usize = bytes.len();
        self.storage.put_bytes_mut(bytes);
        self.written = self.written.saturating_add(len);
    }

    fn put_chunk(&mut self, chunk: Chunk<'_>)
        ensures
            *final(final(self).storage) == *final(old(self).storage),
            exists|target: &mut S|
                {
                    &&& *target == *old(self).storage
                    &&& *final(target) == *final(self).storage
                    &&& #[trigger] call_ensures(S::put_chunk, (target, chunk), ())
                },
            final(self).written == counted(old(self).written, chunk@.len()),
    {
        let len: usize = chunk.len();
        self.storage.put_chunk(chunk);
        self.written = self.written.saturating_add(len);
    }
}

} // verus!
