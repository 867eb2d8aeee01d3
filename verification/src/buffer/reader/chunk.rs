//! One contiguous run of bytes, borrowed or owned.

use core::convert::Infallible;

use bytes::Bytes;
use bytes::BytesMut;

use vstd::prelude::*;

use crate::buffer::reader::gained;
use crate::buffer::reader::sources::shorter;
use crate::buffer::reader::runs::lemma_cut_run;
use crate::buffer::reader::runs::lemma_one_run;
use crate::buffer::reader::Buffer;
use crate::buffer::reader::Steady;
use crate::buffer::writer;
use crate::chunks::least;
use crate::chunks::lemma_solid;
use crate::chunks::lemma_solid_one;
use crate::chunks::solid;
use crate::shared::buffer_slice;
use crate::shared::buffered;
use crate::shared::chunk_slice;
use crate::shared::contents;

verus! {

/// One contiguous run of bytes that a reader hands out.
pub enum Chunk<'a> {
    /// Borrowed bytes.
    Slice(&'a [u8]),
    /// A shared chunk.
    Bytes(Bytes),
    /// An owned buffer.
    BytesMut(BytesMut),
}

impl<'a> View for Chunk<'a> {
    type V = Seq<u8>;

    open spec fn view(&self) -> Seq<u8> {
        match self {
            Chunk::Slice(slice) => slice@,
            Chunk::Bytes(bytes) => contents(*bytes),
            Chunk::BytesMut(bytes) => buffered(*bytes),
        }
    }
}

impl<'a> Chunk<'a> {
    /// A chunk without bytes.
    pub fn empty() -> (chunk: Self)
        ensures
            chunk@ == Seq::<u8>::empty(),
    {
        Chunk::Bytes(Bytes::new())
    }

    /// The number of bytes.
    pub fn len(&self) -> (len: usize)
        ensures
            len == self@.len(),
    {
        match self {
            Chunk::Slice(slice) => slice.len(),
            Chunk::Bytes(bytes) => bytes.len(),
            Chunk::BytesMut(bytes) => bytes.len(),
        }
    }

    /// Whether there are no bytes.
    pub fn is_empty(&self) -> (empty: bool)
        ensures
            empty == (self@.len() == 0),
    {
        self.len() == 0
    }

    /// The bytes as a slice.
    pub fn as_slice(&self) -> (slice: &[u8])
        ensures
            slice@ == self@,
    {
        match self {
            Chunk::Slice(slice) => slice,
            Chunk::Bytes(bytes) => chunk_slice(bytes),
            Chunk::BytesMut(bytes) => buffer_slice(bytes),
        }
    }
}

impl<'a> From<&'a [u8]> for Chunk<'a> {
    fn from(slice: &'a [u8]) -> (chunk: Self)
        ensures
            chunk == Chunk::Slice(slice),
    {
        Chunk::Slice(slice)
    }
}

impl<'a> vstd::std_specs::convert::FromSpecImpl<&'a [u8]> for Chunk<'a> {
    open spec fn obeys_from_spec() -> bool {
        true
    }

    open spec fn from_spec(slice: &'a [u8]) -> Self {
        Chunk::Slice(slice)
    }
}

impl<'a> From<Bytes> for Chunk<'a> {
    fn from(bytes: Bytes) -> (chunk: Self)
        ensures
            chunk == Chunk::Bytes(bytes),
    {
        Chunk::Bytes(bytes)
    }
}

impl<'a> vstd::std_specs::convert::FromSpecImpl<Bytes> for Chunk<'a> {
    open spec fn obeys_from_spec() -> bool {
        true
    }

    open spec fn from_spec(bytes: Bytes) -> Self {
        Chunk::Bytes(bytes)
    }
}

impl<'a> From<BytesMut> for Chunk<'a> {
    fn from(bytes: BytesMut) -> (chunk: Self)
        ensures
            chunk == Chunk::BytesMut(bytes),
    {
        Chunk::BytesMut(bytes)
    }
}

impl<'a> vstd::std_specs::convert::FromSpecImpl<BytesMut> for Chunk<'a> {
    open spec fn obeys_from_spec() -> bool {
        true
    }

    open spec fn from_spec(bytes: BytesMut) -> Self {
        Chunk::BytesMut(bytes)
    }
}

/// A contiguous source cut in two, before a destination that gains nothing.
pub(crate) proof fn lemma_run(source: Seq<u8>, dest: Seq<u8>, at: int)
    requires
        0 <= at <= source.len(),
    ensures
        gained(dest, dest) == Seq::<u8>::empty(),
        dest + Seq::<u8>::empty() == dest,
        source == Seq::<u8>::empty() + source.take(at) + source.skip(at),
        source == source.take(at) + source.skip(at),
{
    assert(gained(dest, dest) =~= Seq::<u8>::empty());
    assert(dest + Seq::<u8>::empty() =~= dest);
    assert(source =~= Seq::<u8>::empty() + source.take(at) + source.skip(at));
    assert(source =~= source.take(at) + source.skip(at));
}

impl<'a> Chunk<'a> {
    /// Takes the first `at` bytes off this chunk.
    fn take_front(&mut self, at: usize) -> (front: Chunk<'_>)
        requires
            at <= old(self)@.len(),
        ensures
            front@ == old(self)@.take(at as int),
            final(self)@ == old(self)@.skip(at as int),
    {
        match self {
            Chunk::Slice(slice) => {
                let (front, rest) = slice.split_at(at);
                *slice = rest;
                Chunk::Slice(front)
            },
            Chunk::Bytes(bytes) => Chunk::Bytes(bytes.split_to(at)),
            Chunk::BytesMut(bytes) => Chunk::BytesMut(bytes.split_to(at)),
        }
    }
}

impl<'b> Buffer for Chunk<'b> {
    type Error = Infallible;

    open spec fn remaining(&self) -> Seq<u8> {
        self@
    }

    open spec fn runs(&self) -> Seq<Seq<u8>> {
        solid(seq![self@])
    }

    open spec fn hands_back(&self) -> bool {
        true
    }

    proof fn lemma_runs(&self) {
        lemma_solid(seq![self@]);
        lemma_solid_one(self@);
    }

    open spec fn fails(&self) -> bool {
        false
    }

    open spec fn origin(&self) -> nat {
        0
    }

    fn buffered_len(&self) -> (len: usize) {
        self.len()
    }

    fn buffer_is_empty(&self) -> (empty: bool) {
        self.is_empty()
    }

    fn read_chunk(&mut self, watermark: usize) -> (result: Result<Chunk<'_>, Infallible>)
        ensures
            result matches Ok(chunk) && chunk@ == old(self)@.take(
                least(watermark as int, old(self)@.len() as int),
            ),
    {
        let at: usize = shorter(self.len(), watermark);
        proof {
            lemma_run(self@, self@, at as int);
            lemma_cut_run(self@, at as int);
        }
        Ok(self.take_front(at))
    }

    fn partial_copy_into<Dest>(&mut self, dest: &mut Dest) -> (result: Result<
        Chunk<'_>,
        Infallible,
    >) where Dest: writer::Buffer
        ensures
            result matches Ok(chunk) && chunk@ == old(self).remaining().take(
                least(old(dest).reported() as int, old(self).remaining().len() as int),
            ),
            *final(dest) == *old(dest),
    {
        let at: usize = shorter(self.len(), dest.remaining_capacity());
        proof {
            lemma_run(self@, dest.written(), at as int);
            lemma_cut_run(self@, at as int);
            lemma_one_run(self@, *dest);
        }
        Ok(self.take_front(at))
    }
}

impl<'b> Steady for Chunk<'b> {
    proof fn lemma_never_fails(&self) {
    }
}

} // verus!
