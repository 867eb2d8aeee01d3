//! A destination that asks for no more bytes after the first write.

use bytes::Bytes;
use bytes::BytesMut;

use vstd::prelude::*;

use crate::buffer::reader::Chunk;
use crate::buffer::writer::Buffer;
use crate::shared::buffered;
use crate::shared::contents;

verus! {

/// Reports exhausted capacity after the first non-empty write, so that a transfer loop which checks
/// the capacity performs exactly one round.
///
/// This is advisory: a transfer that checks the capacity once and then writes several chunks may
/// complete its round, and only the next check sees the destination as full. Wrap the storage in a
/// [`Limit`](crate::buffer::writer::Limit) where a hard cap is needed.
pub struct WriteOnce<'a, S: Buffer> {
    /// Where the bytes go.
    pub storage: &'a mut S,
    /// Whether any byte was written.
    pub did_write: bool,
}

impl<'a, S: Buffer> WriteOnce<'a, S> {
    /// Wraps `storage` to accept a single round of writes.
    pub fn new(storage: &'a mut S) -> (once: Self)
        ensures
            *once.storage == *old(storage),
            *final(once.storage) == *final(storage),
            !once.did_write,
    {
        WriteOnce { storage, did_write: false }
    }
}

impl<'a, S: Buffer> Buffer for WriteOnce<'a, S> {
    const SPECIALIZES_BYTES: bool = S::SPECIALIZES_BYTES;

    const SPECIALIZES_BYTES_MUT: bool = S::SPECIALIZES_BYTES_MUT;

    open spec fn written(&self) -> Seq<u8> {
        self.storage.written()
    }

    open spec fn space(&self) -> int {
        self.storage.space()
    }

    open spec fn reported(&self) -> nat {
        if self.did_write {
            0
        } else {
            self.storage.reported()
        }
    }

    open spec fn honest(&self) -> bool {
        self.storage.honest()
    }

    open spec fn tally(&self) -> nat {
        self.storage.tally()
    }

    open spec fn may_expose(&self, n: nat) -> bool {
        self.storage.may_expose(n)
    }

    open spec fn exposes(&self, n: nat) -> bool {
        self.storage.exposes(n)
    }

    fn put_slice(&mut self, bytes: &[u8])
        ensures
            *final(final(self).storage) == *final(old(self).storage),
            exists|target: &mut S|
                {
                    &&& *target == *old(self).storage
                    &&& *final(target) == *final(self).storage
                    &&& #[trigger] call_ensures(S::put_slice, (target, bytes), ())
                },
            final(self).did_write == (old(self).did_write || bytes@.len() > 0),
    {
        let did_write = bytes.len() > 0;
        self.storage.put_slice(bytes);
        self.did_write = self.did_write || did_write;
    }

    fn put_uninit_slice<F, E>(&mut self, payload_len: usize, f: F) -> (result: Result<
        Option<usize>,
        E,
    >) where F: FnOnce(&mut [u8]) -> Result<usize, E>
        ensures
            *final(final(self).storage) == *final(old(self).storage),
            final(self).did_write == (old(self).did_write || match result {
                Ok(Some(count)) => count > 0,
                _ => false,
            }),
    {
        match self.storage.put_uninit_slice(payload_len, f) {
            Ok(Some(count)) => {
                self.did_write = self.did_write || count > 0;
                Ok(Some(count))
            },
            Ok(None) => Ok(None),
            Err(error) => Err(error),
        }
    }

    fn remaining_capacity(&self) -> (capacity: usize)
        ensures
            self.did_write ==> capacity == 0,
            !self.did_write ==> capacity == old(self.storage).reported(),
    {
        let reported: usize = self.storage.remaining_capacity();
        if self.did_write {
            0
        } else {
            reported
        }
    }

    fn has_remaining_capacity(&self) -> (has: bool) {
        !self.did_write && self.storage.has_remaining_capacity()
    }

    fn put_bytes(&mut self, bytes: Bytes)
        ensures
            *final(final(self).storage) == *final(old(self).storage),
            exists|target: &mut S|
                {
                    &&& *target == *old(self).storage
                    &&& *final(target) == *final(self).storage
                    &&& #[trigger] call_ensures(S::put_bytes, (target, bytes), ())
                },
            final(self).did_write == (old(self).did_write || contents(bytes).len() > 0),
    {
        let did_write = !bytes.is_empty();
        self.storage.put_bytes(bytes);
        self.did_write = self.did_write || did_write;
    }

    fn put_bytes_mut(&mut self, bytes: BytesMut)
        ensures
            *final(final(self).storage) == *final(old(self).storage),
            exists|target: &mut S|
                {
                    &&& *target == *old(self).storage
                    &&& *final(target) == *final(self).storage
                    &&& #[trigger] call_ensures(S::put_bytes_mut, (target, bytes), ())
                },
            final(self).did_write == (old(self).did_write || buffered(bytes).len() > 0),
    {
        let did_write = !bytes.is_empty();
        self.storage.put_bytes_mut(bytes);
        self.did_write = self.did_write || did_write;
    }

    fn put_chunk(&mut self, chunk: Chunk<'_>)
        ensures
            *final(final(self).storage) == *final(old(self).storage),
            exists|target: &mut S|
                {
                    &&& *target == *old(self).storage
                    &&& *final(target) == *final(self).storage
                    &&& #[trigger] call_ensures(S::put_chunk, (target, chunk), ())
                },
            final(self).did_write == (old(self).did_write || chunk@.len() > 0),
    {
        let did_write = !chunk.is_empty();
        self.storage.put_chunk(chunk);
        self.did_write = self.did_write || did_write;
    }
}

} // verus!
