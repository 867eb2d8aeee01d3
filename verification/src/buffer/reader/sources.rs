//! Slices, chunks and buffers as sources.

use core::convert::Infallible;

use bytes::Bytes;
use bytes::BytesMut;

use vstd::prelude::*;

use crate::buffer::reader::chunk::lemma_run;
use crate::buffer::reader::runs::lemma_cut_run;
use crate::buffer::reader::runs::lemma_one_run;
use crate::buffer::reader::Buffer;
use crate::buffer::reader::Chunk;
use crate::buffer::reader::Steady;
use crate::buffer::writer;
use crate::chunks::least;
use crate::chunks::lemma_solid;
use crate::chunks::lemma_solid_one;
use crate::chunks::solid;
use crate::shared::buffered;
use crate::shared::contents;

verus! {

/// The smaller of two lengths.
pub(crate) fn shorter(a: usize, b: usize) -> (least: usize)
    ensures
        least == if a <= b {
            a
        } else {
            b
        },
{
    if a <= b {
        a
    } else {
        b
    }
}

impl<'b> Buffer for &'b [u8] {
    type Error = Infallible;

    open spec fn remaining(&self) -> Seq<u8> {
        self@
    }

    open spec fn runs(&self) -> Seq<Seq<u8>> {
        solid(seq![self@])
    }

    open spec fn hands_back(&self) -> bool {
        true
    }

    proof fn lemma_runs(&self) {
        lemma_solid(seq![self@]);
        lemma_solid_one(self@);
    }

    open spec fn fails(&self) -> bool {
        false
    }

    open spec fn origin(&self) -> nat {
        0
    }

    fn buffered_len(&self) -> (len: usize) {
        self.len()
    }

    fn buffer_is_empty(&self) -> (empty: bool) {
        self.len() == 0
    }

    fn read_chunk(&mut self, watermark: usize) -> (result: Result<Chunk<'_>, Infallible>)
        ensures
            result matches Ok(chunk) && chunk is Slice && chunk@ == old(self).remaining().take(
                least(watermark as int, old(self).remaining().len() as int),
            ),
    {
        let at: usize = shorter(self.len(), watermark);
        proof {
            lemma_run(self@, self@, at as int);
            lemma_cut_run(self@, at as int);
        }
        let (front, rest) = self.split_at(at);
        *self = rest;
        Ok(Chunk::Slice(front))
    }

    fn partial_copy_into<Dest>(&mut self, dest: &mut Dest) -> (result: Result<
        Chunk<'_>,
        Infallible,
    >) where Dest: writer::Buffer
        ensures
            result matches Ok(chunk) && chunk is Slice && chunk@ == old(self).remaining().take(
                least(old(dest).reported() as int, old(self).remaining().len() as int),
            ),
            *final(dest) == *old(dest),
    {
        let at: usize = shorter(self.len(), dest.remaining_capacity());
        proof {
            lemma_run(self@, dest.written(), at as int);
            lemma_cut_run(self@, at as int);
            lemma_one_run(self@, *dest);
        }
        let (front, rest) = self.split_at(at);
        *self = rest;
        Ok(Chunk::Slice(front))
    }
}

impl Buffer for Bytes {
    type Error = Infallible;

    open spec fn remaining(&self) -> Seq<u8> {
        contents(*self)
    }

    open spec fn runs(&self) -> Seq<Seq<u8>> {
        solid(seq![contents(*self)])
    }

    open spec fn hands_back(&self) -> bool {
        true
    }

    proof fn lemma_runs(&self) {
        lemma_solid(seq![contents(*self)]);
        lemma_solid_one(contents(*self));
    }

    open spec fn fails(&self) -> bool {
        false
    }

    open spec fn origin(&self) -> nat {
        0
    }

    fn buffered_len(&self) -> (len: usize) {
        self.len()
    }

    fn buffer_is_empty(&self) -> (empty: bool) {
        self.is_empty()
    }

    fn read_chunk(&mut self, watermark: usize) -> (result: Result<Chunk<'_>, Infallible>)
        ensures
            result matches Ok(chunk) && chunk is Bytes && chunk@ == old(self).remaining().take(
                least(watermark as int, old(self).remaining().len() as int),
            ),
    {
        let at: usize = shorter(self.len(), watermark);
        proof {
            lemma_run(contents(*self), contents(*self), at as int);
            lemma_cut_run(contents(*self), at as int);
        }
        Ok(Chunk::Bytes(self.split_to(at)))
    }

    fn partial_copy_into<Dest>(&mut self, dest: &mut Dest) -> (result: Result<
        Chunk<'_>,
        Infallible,
    >) where Dest: writer::Buffer
        ensures
            result matches Ok(chunk) && chunk is Bytes && chunk@ == old(self).remaining().take(
                least(old(dest).reported() as int, old(self).remaining().len() as int),
            ),
            *final(dest) == *old(dest),
    {
        let at: usize = shorter(self.len(), dest.remaining_capacity());
        proof {
            lemma_run(contents(*self), dest.written(), at as int);
            lemma_cut_run(contents(*self), at as int);
            lemma_one_run(contents(*self), *dest);
        }
        Ok(Chunk::Bytes(self.split_to(at)))
    }
}

impl Buffer for BytesMut {
    type Error = Infallible;

    open spec fn remaining(&self) -> Seq<u8> {
        buffered(*self)
    }

    open spec fn runs(&self) -> Seq<Seq<u8>> {
        solid(seq![buffered(*self)])
    }

    open spec fn hands_back(&self) -> bool {
        true
    }

    proof fn lemma_runs(&self) {
        lemma_solid(seq![buffered(*self)]);
        lemma_solid_one(buffered(*self));
    }

    open spec fn fails(&self) -> bool {
        false
    }

    open spec fn origin(&self) -> nat {
        0
    }

    fn buffered_len(&self) -> (len: usize) {
        self.len()
    }

    fn buffer_is_empty(&self) -> (empty: bool) {
        self.is_empty()
    }

    fn read_chunk(&mut self, watermark: usize) -> (result: Result<Chunk<'_>, Infallible>)
        ensures
            result matches Ok(chunk) && chunk is BytesMut && chunk@ == old(self).remaining().take(
                least(watermark as int, old(self).remaining().len() as int),
            ),
    {
        let at: usize = shorter(self.len(), watermark);
        proof {
            lemma_run(buffered(*self), buffered(*self), at as int);
            lemma_cut_run(buffered(*self), at as int);
        }
        Ok(Chunk::BytesMut(self.split_to(at)))
    }

    fn partial_copy_into<Dest>(&mut self, dest: &mut Dest) -> (result: Result<
        Chunk<'_>,
        Infallible,
    >) where Dest: writer::Buffer
        ensures
            result matches Ok(chunk) && chunk is BytesMut && chunk@ == old(self).remaining().take(
                least(old(dest).reported() as int, old(self).remaining().len() as int),
            ),
            *final(dest) == *old(dest),
    {
        let at: usize = shorter(self.len(), dest.remaining_capacity());
        proof {
            lemma_run(buffered(*self), dest.written(), at as int);
            lemma_cut_run(buffered(*self), at as int);
            lemma_one_run(buffered(*self), *dest);
        }
        Ok(Chunk::BytesMut(self.split_to(at)))
    }
}

impl<'b> Steady for &'b [u8] {
    proof fn lemma_never_fails(&self) {
    }
}

impl Steady for Bytes {
    proof fn lemma_never_fails(&self) {
    }
}

impl Steady for BytesMut {
    proof fn lemma_never_fails(&self) {
    }
}

} // verus!
