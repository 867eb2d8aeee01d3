//! A source that leaves no trailing chunk.

use vstd::prelude::*;

use crate::buffer::reader::Buffer;
use crate::buffer::reader::BufferExt;
use crate::buffer::reader::Chunk;
use crate::buffer::reader::Steady;
use crate::buffer::writer;

verus! {

/// Writes the trailing chunk of the wrapped source too, so that the chunk it returns is empty.
pub struct FullCopy<'a, S: Buffer> {
    /// Where the bytes come from.
    pub storage: &'a mut S,
}

impl<'a, S: Buffer> FullCopy<'a, S> {
    /// Wraps `storage`.
    pub fn new(storage: &'a mut S) -> (copy: Self)
        ensures
            *copy.storage == *old(storage),
            *final(copy.storage) == *final(storage),
    {
        FullCopy { storage }
    }
}

impl<'a, S: Buffer> Buffer for FullCopy<'a, S> {
    type Error = S::Error;

    open spec fn remaining(&self) -> Seq<u8> {
        self.storage.remaining()
    }

    open spec fn runs(&self) -> Seq<Seq<u8>> {
        self.storage.runs()
    }

    open spec fn hands_back(&self) -> bool {
        false
    }

    proof fn lemma_runs(&self) {
        self.storage.lemma_runs();
    }

    open spec fn fails(&self) -> bool {
        self.storage.fails()
    }

    open spec fn origin(&self) -> nat {
        self.storage.origin()
    }

    fn buffered_len(&self) -> (len: usize) {
        self.storage.buffered_len()
    }

    fn buffer_is_empty(&self) -> (empty: bool) {
        self.storage.buffer_is_empty()
    }

    fn read_chunk(&mut self, watermark: usize) -> (result: Result<Chunk<'_>, S::Error>)
        ensures
            *final(final(self).storage) == *final(old(self).storage),
    {
        self.storage.read_chunk(watermark)
    }

    fn partial_copy_into<Dest>(&mut self, dest: &mut Dest) -> (result: Result<
        Chunk<'_>,
        S::Error,
    >) where Dest: writer::Buffer
        ensures
            *final(final(self).storage) == *final(old(self).storage),
            result matches Ok(chunk) ==> chunk@.len() == 0,
    {
        match self.storage.copy_into(dest) {
            Ok(()) => Ok(Chunk::empty()),
            Err(error) => Err(error),
        }
    }
}

impl<'a, S: Steady> Steady for FullCopy<'a, S> {
    proof fn lemma_never_fails(&self) {
        self.storage.lemma_never_fails();
    }
}

} // verus!
