//! A source that counts what is read from it.

use vstd::prelude::*;

use crate::buffer::reader::Buffer;
use crate::buffer::reader::Chunk;
use crate::buffer::reader::Steady;
use crate::buffer::writer;

verus! {

/// Counts the bytes that are read from the wrapped source.
pub struct TrackedReader<'a, S: Buffer> {
    /// How many bytes the source had when it was wrapped.
    pub start: usize,
    /// Where the bytes come from.
    pub storage: &'a mut S,
}

impl<'a, S: Buffer> TrackedReader<'a, S> {
    /// How many bytes were read. Reads only ever shorten what remains, so the count is what the
    /// source had at first less what it has left.
    pub open spec fn consumed(&self) -> int {
        self.start - self.storage.remaining().len()
    }

    /// Wraps `storage` to count the bytes read from it.
    pub fn new(storage: &'a mut S) -> (tracker: Self)
        requires
            old(storage).remaining().len() <= usize::MAX,
        ensures
            *tracker.storage == *old(storage),
            *final(tracker.storage) == *final(storage),
            tracker.consumed() == 0,
    {
        let start: usize = storage.buffered_len();
        TrackedReader { start, storage }
    }

    /// The number of bytes read through this wrapper so far.
    pub fn consumed_len(&self) -> (len: usize)
        requires
            self.consumed() >= 0,
        ensures
            len == self.consumed(),
    {
        self.start - self.storage.buffered_len()
    }

    /// The wrapped source.
    pub fn storage(&self) -> (storage: &S)
        ensures
            *storage == *old(self.storage),
    {
        self.storage
    }
}

impl<'a, S: Buffer> Buffer for TrackedReader<'a, S> {
    type Error = S::Error;

    open spec fn remaining(&self) -> Seq<u8> {
        self.storage.remaining()
    }

    open spec fn runs(&self) -> Seq<Seq<u8>> {
        self.storage.runs()
    }

    open spec fn hands_back(&self) -> bool {
        self.storage.hands_back()
    }

    proof fn lemma_runs(&self) {
        self.storage.lemma_runs();
    }

    open spec fn fails(&self) -> bool {
        self.storage.fails()
    }

    open spec fn origin(&self) -> nat {
        self.start as nat
    }

    fn buffered_len(&self) -> (len: usize) {
        self.storage.buffered_len()
    }

    fn buffer_is_empty(&self) -> (empty: bool) {
        self.storage.buffer_is_empty()
    }

    fn read_chunk(&mut self, watermark: usize) -> (result: Result<Chunk<'_>, S::Error>)
        ensures
            *final(final(self).storage) == *final(old(self).storage),
            match result {
                Ok(chunk) => final(self).consumed() == old(self).consumed() + chunk@.len(),
                Err(_) => final(self).consumed() == old(self).consumed(),
            },
    {
        self.storage.read_chunk(watermark)
    }

    fn partial_copy_into<Dest>(&mut self, dest: &mut Dest) -> (result: Result<
        Chunk<'_>,
        S::Error,
    >) where Dest: writer::Buffer
        ensures
            *final(final(self).storage) == *final(old(self).storage),
            final(self).consumed() == old(self).consumed() + (final(dest).written().len() - old(
                dest).written().len()) + match result {
                Ok(chunk) => chunk@.len() as int,
                Err(_) => 0,
            },
    {
        self.storage.partial_copy_into(dest)
    }
}

impl<'a, S: Steady> Steady for TrackedReader<'a, S> {
    proof fn lemma_never_fails(&self) {
        self.storage.lemma_never_fails();
    }
}

} // verus!
