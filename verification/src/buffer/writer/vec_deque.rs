//! A deque of chunks as a destination: owned chunks are adopted without copying.

use std::collections::VecDeque;

use bytes::Bytes;
use bytes::BytesMut;

use vstd::prelude::*;

use crate::buffer::reader::Chunk;
use crate::buffer::writer::filled_by;
use crate::buffer::writer::Buffer;
use crate::chunks::chunk_views;
use crate::chunks::joined;
use crate::chunks::lemma_joined_push;
use crate::chunks::lemma_views_push;
use crate::shared::buffered;
use crate::shared::contents;
use crate::shared::frozen;

verus! {

impl Buffer for VecDeque<Bytes> {
    const SPECIALIZES_BYTES: bool = true;

    open spec fn written(&self) -> Seq<u8> {
        joined(chunk_views(self@))
    }

    open spec fn space(&self) -> int {
        usize::MAX - joined(chunk_views(self@)).len()
    }

    open spec fn reported(&self) -> nat {
        usize::MAX as nat
    }

    open spec fn honest(&self) -> bool {
        false
    }

    open spec fn tally(&self) -> nat {
        joined(chunk_views(self@)).len()
    }

    open spec fn may_expose(&self, n: nat) -> bool {
        true
    }

    open spec fn exposes(&self, n: nat) -> bool {
        n == 0
    }

    fn put_slice(&mut self, bytes: &[u8])
        ensures
            exists|chunk: Bytes| #[trigger]
                contents(chunk) == bytes@ && final(self)@ == old(self)@.push(chunk),
    {
        self.put_bytes(Bytes::copy_from_slice(bytes));
    }

    fn put_uninit_slice<F, E>(&mut self, payload_len: usize, f: F) -> (result: Result<
        Option<usize>,
        E,
    >) where F: FnOnce(&mut [u8]) -> Result<usize, E> {
        if payload_len > 0 {
            return Ok(None);
        }
        match filled_by(payload_len, f) {
            Ok(exposed) => {
                assert(self.written().skip(self.written().len() as int) =~= Seq::<u8>::empty());
                assert(self.written() + exposed@ =~= self.written());
                Ok(Some(0))
            },
            Err(error) => Err(error),
        }
    }

    fn remaining_capacity(&self) -> (capacity: usize)
        ensures
            capacity == usize::MAX,
    {
        usize::MAX
    }

    fn has_remaining_capacity(&self) -> (has: bool) {
        true
    }

    fn put_bytes(&mut self, bytes: Bytes)
        ensures
            final(self)@ == old(self)@.push(bytes),
    {
        proof {
            lemma_views_push(self@, bytes);
            lemma_joined_push(chunk_views(self@), contents(bytes));
        }
        self.push_back(bytes);
    }

    fn put_bytes_mut(&mut self, bytes: BytesMut)
        ensures
            exists|chunk: Bytes| #[trigger]
                contents(chunk) == buffered(bytes) && final(self)@ == old(self)@.push(chunk),
    {
        self.put_bytes(frozen(bytes));
    }

    fn put_chunk(&mut self, chunk: Chunk<'_>)
        ensures
            match chunk {
                Chunk::Bytes(bytes) => final(self)@ == old(self)@.push(bytes),
                _ => exists|held: Bytes| #[trigger]
                    contents(held) == chunk@ && final(self)@ == old(self)@.push(held),
            },
    {
        match chunk {
            Chunk::Slice(slice) => self.put_slice(slice),
            Chunk::Bytes(bytes) => self.put_bytes(bytes),
            Chunk::BytesMut(bytes) => self.put_bytes_mut(bytes),
        }
    }
}

} // verus!
