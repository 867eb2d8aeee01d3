//! The rope itself: an owner of [`Parts`] that keeps them well formed.

use bytes::Bytes;
use bytes::BytesMut;

use vstd::prelude::*;

use crate::buffer::reader::Steady;
use crate::chunks::clipped;
use crate::chunks::front_piece;
use crate::chunks::joined;
use crate::chunks::least;
use crate::chunks::lemma_clipped_first;
use crate::chunks::lemma_clipped_joined;
use crate::chunks::lemma_clipped_skip;
use crate::chunks::lemma_clipped_take;
use crate::chunks::lemma_clipped_twice;
use crate::chunks::lemma_clipped_whole;
use crate::chunks::lemma_joined_concat;
use crate::chunks::lemma_joined_count;
use crate::chunks::lemma_joined_one;
use crate::chunks::lemma_joined_push;
use crate::chunks::lemma_joined_step;
use crate::chunks::none_empty;
use crate::rope::error::ByteRopeError;
use crate::rope::join::joined_deep;
use crate::rope::join::sliced_deep;
use crate::rope::join::split_deep;
use crate::rope::parts::lemma_repr;
use crate::rope::parts::parts_wf;
use crate::rope::parts::repr_chunks;
use crate::rope::parts::Parts;
use crate::rope::parts::DEMOTE_AT;
use crate::rope::parts::PROMOTE_AT;
use crate::rope::range::blamed_offset;
use crate::rope::range::end_offset;
use crate::rope::range::first_offset;
use crate::rope::range::resolve_range;
use crate::rope::range::within;
use crate::rope::range::ByteRange;
use crate::rope::replace::edited_chunks;
use crate::rope::replace::respliced;
use crate::rope::rewrite::rewritten;
use crate::rope::set_byte::byte_set;
use crate::rope::take::lemma_front;
use crate::rope::walk::Walk;
use crate::shared::buffer_from_chunk;
use crate::shared::buffered;
use crate::shared::chunk_slice;
use crate::shared::contents;
use crate::shared::frozen;

verus! {

/// A byte buffer made of shared chunks.
///
/// A rope with few chunks is a flat list of them; one with many keeps them in a tree, so that
/// clones are cheap and cutting and joining take logarithmic time. Either way it never holds an
/// empty chunk.
pub struct ByteRope {
    parts: Parts,
}

/// [`ByteRope`] under the name of the flat buffer that it can stand in for.
pub type ByteVec = ByteRope;

impl View for ByteRope {
    type V = Seq<u8>;

    /// The bytes of the rope, in order.
    open spec fn view(&self) -> Seq<u8> {
        joined(self.chunk_list())
    }
}

impl ByteRope {
    /// The bytes of each chunk, in order.
    pub closed spec fn chunk_list(&self) -> Seq<Seq<u8>> {
        repr_chunks(self.parts.repr)
    }

    /// Whether the chunks are kept in a tree.
    pub closed spec fn deep(&self) -> bool {
        self.parts.repr is Deep
    }

    #[verifier::type_invariant]
    spec fn well_formed(self) -> bool {
        parts_wf(self.parts)
    }

    /// Creates an empty rope.
    pub fn new() -> (rope: Self)
        ensures
            rope.chunk_list() == Seq::<Seq<u8>>::empty(),
            rope@ == Seq::<u8>::empty(),
            !rope.deep(),
    {
        ByteRope { parts: Parts::new() }
    }

    /// Creates an empty rope with room reserved for `cap` chunks.
    pub fn with_capacity(cap: usize) -> (rope: Self)
        requires
            cap <= isize::MAX / 32 + 1,
        ensures
            rope.chunk_list() == Seq::<Seq<u8>>::empty(),
            rope@ == Seq::<u8>::empty(),
            !rope.deep(),
    {
        ByteRope { parts: Parts::with_capacity(cap) }
    }

    /// Moves the contents out and leaves an empty rope.
    fn take_parts(&mut self) -> (parts: Parts)
        ensures
            parts_wf(parts),
            repr_chunks(parts.repr) == old(self).chunk_list(),
            parts.repr is Deep <==> old(self).deep(),
            final(self).chunk_list() == Seq::<Seq<u8>>::empty(),
            !final(self).deep(),
    {
        let mut rope = ByteRope::new();
        core::mem::swap(self, &mut rope);
        proof {
            use_type_invariant(&rope);
        }
        let ByteRope { parts } = rope;
        parts
    }

    /// The number of bytes.
    pub fn len(&self) -> (len: usize)
        ensures
            len == self@.len(),
    {
        proof {
            use_type_invariant(self);
        }
        self.parts.len
    }

    /// Whether there are no bytes.
    pub fn is_empty(&self) -> (empty: bool)
        ensures
            empty == (self@.len() == 0),
    {
        self.len() == 0
    }

    /// The number of chunks. None of them is empty.
    pub fn chunk_count(&self) -> (count: usize)
        ensures
            count == self.chunk_list().len(),
            none_empty(self.chunk_list()),
            count <= self@.len(),
    {
        proof {
            use_type_invariant(self);
            lemma_repr(self.parts.repr);
        }
        self.parts.chunk_count()
    }

    /// Counts the bytes of every chunk again and compares them with the length that the rope keeps;
    /// also looks for an empty chunk. The answer is always `true`.
    pub fn check_invariants(&self) -> (sound: bool)
        ensures
            sound,
    {
        let count: usize = self.chunk_count();
        let len: usize = self.len();
        let ghost list = self.chunk_list();
        let mut total: usize = 0;
        let mut i: usize = 0;
        assert(list.take(0) =~= Seq::<Seq<u8>>::empty());
        while i < count
            invariant
                i <= count,
                count == list.len(),
                list == self.chunk_list(),
                none_empty(list),
                len == joined(list).len(),
                total == joined(list.take(i as int)).len(),
            decreases count - i,
        {
            proof {
                lemma_joined_step(list, i as int);
            }
            match self.get(i) {
                Some(chunk) => {
                    assert(list[i as int].len() > 0);
                    if chunk.is_empty() {
                        return false;
                    }
                    total = total + chunk.len();
                },
                None => {
                    return false;
                },
            }
            i = i + 1;
        }
        assert(list.take(count as int) =~= list);
        total == len
    }

    /// Whether the chunks are kept in a tree.
    pub fn is_deep(&self) -> (deep: bool)
        ensures
            deep == self.deep(),
    {
        self.parts.is_deep()
    }

    /// Appends a chunk at the back. An empty chunk is ignored.
    pub fn push_back(&mut self, chunk: Bytes)
        requires
            old(self)@.len() + contents(chunk).len() <= usize::MAX,
        ensures
            final(self).chunk_list() == if contents(chunk).len() == 0 {
                old(self).chunk_list()
            } else {
                old(self).chunk_list().push(contents(chunk))
            },
            final(self)@ == old(self)@ + contents(chunk),
            final(self).deep() <==> old(self).deep() || (contents(chunk).len() > 0
                && final(self).chunk_list().len() > PROMOTE_AT),
    {
        let ghost added = contents(chunk);
        let parts = self.take_parts();
        proof {
            lemma_joined_push(old(self).chunk_list(), added);
            assert(old(self)@ + Seq::<u8>::empty() =~= old(self)@);
            if added.len() == 0 {
                assert(added =~= Seq::<u8>::empty());
            }
        }
        *self = ByteRope { parts: parts.push_back(chunk) };
    }

    /// Prepends a chunk at the front. An empty chunk is ignored.
    pub fn push_front(&mut self, chunk: Bytes)
        requires
            old(self)@.len() + contents(chunk).len() <= usize::MAX,
        ensures
            final(self).chunk_list() == if contents(chunk).len() == 0 {
                old(self).chunk_list()
            } else {
                seq![contents(chunk)] + old(self).chunk_list()
            },
            final(self)@ == contents(chunk) + old(self)@,
            final(self).deep() <==> old(self).deep() || (contents(chunk).len() > 0
                && final(self).chunk_list().len() > PROMOTE_AT),
    {
        let ghost added = contents(chunk);
        let parts = self.take_parts();
        proof {
            lemma_front(added, old(self).chunk_list());
            assert(Seq::<u8>::empty() + old(self)@ =~= old(self)@);
            if added.len() == 0 {
                assert(added =~= Seq::<u8>::empty());
            }
        }
        *self = ByteRope { parts: parts.push_front(chunk) };
    }

    /// Removes and returns the front chunk, or `None` if the rope is empty.
    pub fn pop_front(&mut self) -> (popped: Option<Bytes>)
        ensures
            match popped {
                Some(chunk) => {
                    &&& contents(chunk).len() > 0
                    &&& old(self).chunk_list() == seq![contents(chunk)] + final(self).chunk_list()
                    &&& old(self)@ == contents(chunk) + final(self)@
                    &&& final(self).deep() <==> old(self).deep() && final(self).chunk_list().len()
                        > DEMOTE_AT
                },
                None => {
                    &&& old(self).chunk_list().len() == 0
                    &&& final(self).chunk_list() == old(self).chunk_list()
                    &&& final(self).deep() == old(self).deep()
                },
            },
    {
        let parts = self.take_parts();
        let (popped, parts) = parts.pop_front();
        *self = ByteRope { parts };
        proof {
            if popped is Some {
                lemma_front(contents(popped->Some_0), self.chunk_list());
            }
        }
        popped
    }

    /// Removes and returns the back chunk, or `None` if the rope is empty.
    pub fn pop_back(&mut self) -> (popped: Option<Bytes>)
        ensures
            match popped {
                Some(chunk) => {
                    &&& contents(chunk).len() > 0
                    &&& old(self).chunk_list() == final(self).chunk_list().push(contents(chunk))
                    &&& old(self)@ == final(self)@ + contents(chunk)
                    &&& final(self).deep() <==> old(self).deep() && final(self).chunk_list().len()
                        > DEMOTE_AT
                },
                None => {
                    &&& old(self).chunk_list().len() == 0
                    &&& final(self).chunk_list() == old(self).chunk_list()
                    &&& final(self).deep() == old(self).deep()
                },
            },
    {
        let parts = self.take_parts();
        let (popped, parts) = parts.pop_back();
        *self = ByteRope { parts };
        proof {
            if popped is Some {
                lemma_joined_push(self.chunk_list(), contents(popped->Some_0));
            }
        }
        popped
    }

    /// Drops the first `len` bytes.
    pub fn advance(&mut self, len: usize) -> (result: Result<(), ByteRopeError>)
        ensures
            match result {
                Ok(()) => {
                    &&& len <= old(self)@.len()
                    &&& final(self)@ == old(self)@.skip(len as int)
                    &&& final(self).chunk_list() == clipped(
                        old(self).chunk_list(),
                        len as int,
                        old(self)@.len() as int,
                    )
                    &&& final(self).deep() <==> old(self).deep() && (len == 0
                        || final(self).chunk_list().len() > DEMOTE_AT)
                },
                Err(error) => {
                    &&& len > old(self)@.len()
                    &&& error == ByteRopeError::OutOfBounds(len)
                    &&& *final(self) == *old(self)
                },
            },
    {
        if len > self.len() {
            return Err(ByteRopeError::OutOfBounds(len));
        }
        let parts = self.take_parts();
        *self = ByteRope { parts: parts.consume_front(len) };
        proof {
            lemma_clipped_skip(old(self).chunk_list(), len as int);
        }
        Ok(())
    }

    /// The byte at `offset`, or `None` if that is out of bounds.
    pub fn byte_at(&self, offset: usize) -> (byte: Option<u8>)
        ensures
            match byte {
                Some(byte) => offset < self@.len() && byte == self@[offset as int],
                None => offset >= self@.len(),
            },
    {
        proof {
            use_type_invariant(self);
        }
        self.parts.byte_at(offset)
    }

    /// Sets the byte at `offset`.
    pub fn set_byte(&mut self, offset: usize, value: u8) -> (result: Result<(), ByteRopeError>)
        ensures
            match result {
                Ok(()) => {
                    &&& offset < old(self)@.len()
                    &&& final(self)@ == old(self)@.update(offset as int, value)
                    &&& exists|i: int, pieces: Seq<Seq<u8>>| #[trigger]
                        byte_set(
                            old(self).chunk_list(),
                            final(self).chunk_list(),
                            i,
                            pieces,
                            offset as int,
                            value,
                        )
                    &&& final(self).deep() == old(self).deep()
                },
                Err(error) => {
                    &&& offset >= old(self)@.len()
                    &&& error == ByteRopeError::OutOfBounds(offset)
                    &&& *final(self) == *old(self)
                },
            },
    {
        if offset >= self.len() {
            return Err(ByteRopeError::OutOfBounds(offset));
        }
        let parts = self.take_parts();
        *self = ByteRope { parts: parts.set_byte(offset, value) };
        Ok(())
    }

    /// Removes all bytes.
    pub fn clear(&mut self)
        ensures
            final(self).chunk_list() == Seq::<Seq<u8>>::empty(),
            final(self)@ == Seq::<u8>::empty(),
            !final(self).deep(),
    {
        *self = ByteRope::new();
    }

    /// The chunk at `index`, counted from the front, or `None` if there are fewer chunks.
    pub fn get(&self, index: usize) -> (chunk: Option<&Bytes>)
        ensures
            match chunk {
                Some(chunk) => {
                    &&& index < self.chunk_list().len()
                    &&& contents(*chunk) == self.chunk_list()[index as int]
                },
                None => index >= self.chunk_list().len(),
            },
    {
        proof {
            use_type_invariant(self);
        }
        self.parts.get(index)
    }

    /// Walks over the chunks from the front.
    pub(crate) fn walk(&self) -> (walk: Walk<'_>)
        ensures
            walk.wf(),
            walk.left() == self.chunk_list(),
    {
        proof {
            use_type_invariant(self);
        }
        self.parts.walk()
    }

    /// Moves all chunks of `other` to the back of this rope.
    pub fn append(&mut self, other: &mut Self)
        requires
            old(self)@.len() + old(other)@.len() <= usize::MAX,
        ensures
            final(self).chunk_list() == old(self).chunk_list() + old(other).chunk_list(),
            final(self)@ == old(self)@ + old(other)@,
            final(self).deep() <==> joined_deep(
                old(self).deep(),
                old(self).chunk_list().len(),
                old(other).deep(),
                old(other).chunk_list().len(),
            ),
            final(other).chunk_list() == Seq::<Seq<u8>>::empty(),
            final(other)@ == Seq::<u8>::empty(),
            !final(other).deep(),
    {
        let tail = other.take_parts();
        let parts = self.take_parts();
        proof {
            lemma_joined_concat(old(self).chunk_list(), old(other).chunk_list());
        }
        *self = ByteRope { parts: parts.append(tail) };
    }

    /// Splits off the first `at` bytes as a rope of their own; this rope keeps the rest.
    pub fn split_to(&mut self, at: usize) -> (result: Result<Self, ByteRopeError>)
        ensures
            match result {
                Ok(front) => {
                    &&& at <= old(self)@.len()
                    &&& front@ == old(self)@.take(at as int)
                    &&& final(self)@ == old(self)@.skip(at as int)
                    &&& front.chunk_list() == clipped(old(self).chunk_list(), 0, at as int)
                    &&& final(self).chunk_list() == clipped(
                        old(self).chunk_list(),
                        at as int,
                        old(self)@.len() as int,
                    )
                    &&& split_deep(
                        old(self).deep(),
                        old(self).chunk_list().len(),
                        front.chunk_list().len(),
                        front.deep(),
                        final(self).chunk_list().len(),
                        final(self).deep(),
                    )
                },
                Err(error) => {
                    &&& at > old(self)@.len()
                    &&& error == ByteRopeError::OutOfBounds(at)
                    &&& *final(self) == *old(self)
                },
            },
    {
        if at > self.len() {
            return Err(ByteRopeError::OutOfBounds(at));
        }
        let parts = self.take_parts();
        let (front, rest) = parts.split_to(at);
        *self = ByteRope { parts: rest };
        proof {
            lemma_clipped_take(old(self).chunk_list(), at as int);
            lemma_clipped_skip(old(self).chunk_list(), at as int);
        }
        Ok(ByteRope { parts: front })
    }

    /// The bytes in `range` as a rope that shares its chunks with this one.
    pub fn slice<B: ByteRange>(&self, range: B) -> (part: Self)
        requires
            range.settled(),
            within(range.lower(), range.upper(), self@.len()),
        ensures
            part@ == self@.subrange(
                first_offset(range.lower()),
                end_offset(range.upper(), self@.len()),
            ),
            part.chunk_list() == clipped(
                self.chunk_list(),
                first_offset(range.lower()),
                end_offset(range.upper(), self@.len()),
            ),
            sliced_deep(
                self.deep(),
                part@.len() == self@.len(),
                part.chunk_list().len(),
                part.deep(),
            ),
    {
        proof {
            use_type_invariant(self);
            lemma_clipped_joined(
                self.chunk_list(),
                first_offset(range.lower()),
                end_offset(range.upper(), self@.len()),
            );
        }
        match resolve_range(&range, self.len()) {
            Ok((start, end)) => ByteRope { parts: self.parts.slice(start, end) },
            Err(_) => vstd::pervasive::unreached(),
        }
    }

    /// Replaces the bytes in `range` with those of `value`.
    pub fn replace<B: ByteRange, R: Steady>(&mut self, range: B, value: R) -> (result: Result<
        (),
        ByteRopeError,
    >)
        requires
            range.settled(),
            within(range.lower(), range.upper(), old(self)@.len()) ==> old(self)@.len() - (
            end_offset(range.upper(), old(self)@.len()) - first_offset(range.lower()))
                + value.remaining().len() <= usize::MAX,
        ensures
            match result {
                Ok(()) => {
                    &&& within(range.lower(), range.upper(), old(self)@.len())
                    &&& final(self)@ == respliced(
                        old(self)@,
                        first_offset(range.lower()),
                        end_offset(range.upper(), old(self)@.len()),
                        value.remaining(),
                    )
                    &&& end_offset(range.upper(), old(self)@.len()) - first_offset(range.lower())
                        != value.remaining().len() ==> edited_chunks(
                        old(self).deep(),
                        old(self).chunk_list(),
                        first_offset(range.lower()),
                        end_offset(range.upper(), old(self)@.len()),
                        value.runs(),
                        final(self).chunk_list(),
                        final(self).deep(),
                    )
                    &&& end_offset(range.upper(), old(self)@.len()) - first_offset(range.lower())
                        == value.remaining().len() ==> {
                        &&& rewritten(
                            old(self).chunk_list(),
                            final(self).chunk_list(),
                            first_offset(range.lower()),
                            value.remaining(),
                        )
                        &&& final(self).deep() == old(self).deep()
                    }
                },
                Err(error) => {
                    &&& !within(range.lower(), range.upper(), old(self)@.len())
                    &&& error == ByteRopeError::OutOfBounds(
                        blamed_offset(range.lower(), range.upper(), old(self)@.len()) as usize,
                    )
                    &&& *final(self) == *old(self)
                },
            },
    {
        match resolve_range(&range, self.len()) {
            Ok((start, end)) => {
                let mut value = value;
                let parts = self.take_parts();
                *self = ByteRope { parts: parts.replace(start, end, &mut value) };
                Ok(())
            },
            Err(error) => Err(error),
        }
    }

    /// Keeps the first `len` bytes and drops the rest. A shorter rope stays as it is.
    pub fn truncate(&mut self, len: usize)
        ensures
            final(self)@ == if len < old(self)@.len() {
                old(self)@.take(len as int)
            } else {
                old(self)@
            },
            0 < len && len >= old(self)@.len() ==> *final(self) == *old(self),
            len <= old(self)@.len() ==> final(self).chunk_list() == clipped(
                old(self).chunk_list(),
                0,
                len as int,
            ),
            len < old(self)@.len() ==> (final(self).deep() <==> len > 0 && old(self).deep()
                && final(self).chunk_list().len() > DEMOTE_AT),
    {
        if len == 0 {
            self.clear();
            proof {
                assert(old(self)@.take(0) =~= Seq::<u8>::empty());
                if old(self)@.len() == 0 {
                    assert(old(self)@ =~= Seq::<u8>::empty());
                }
            }
            return;
        }
        let size: usize = self.len();
        proof {
            use_type_invariant(&*self);
            lemma_repr(self.parts.repr);
            lemma_clipped_whole(self.chunk_list());
            if size > len {
                lemma_clipped_take(self.chunk_list(), len as int);
            }
        }
        if size > len {
            let parts = self.take_parts();
            *self = ByteRope { parts: parts.consume_back(size - len) };
        }
    }

    /// The length of the front chunk, or `None` if the rope is empty.
    pub(crate) fn front_chunk_len(&self) -> (len: Option<usize>)
        ensures
            match len {
                Some(len) => {
                    &&& self.chunk_list().len() > 0
                    &&& len == self.chunk_list()[0].len()
                    &&& len > 0
                    &&& len <= self@.len()
                },
                None => self.chunk_list().len() == 0,
            },
    {
        proof {
            use_type_invariant(self);
            lemma_repr(self.parts.repr);
            if self.chunk_list().len() > 0 {
                let list = self.chunk_list();
                lemma_front(list[0], list.skip(1));
                assert(seq![list[0]] + list.skip(1) =~= list);
            }
        }
        self.parts.front_chunk_len()
    }

    /// Takes up to `watermark` bytes off the front as one chunk: the front chunk, or the start of
    /// it. The chunk is empty if the rope is or if no bytes are asked for.
    pub(crate) fn read_chunk_bytes(&mut self, watermark: usize) -> (chunk: Bytes)
        ensures
            old(self)@ == contents(chunk) + final(self)@,
            final(self).chunk_list() == clipped(
                old(self).chunk_list(),
                contents(chunk).len() as int,
                old(self)@.len() as int,
            ),
            contents(chunk) == front_piece(old(self).chunk_list(), watermark as int),
            old(self)@.len() > 0 && watermark > 0 ==> contents(chunk).len() > 0,
    {
        let count: usize = self.chunk_count();
        proof {
            use_type_invariant(&*self);
            lemma_joined_count(self.chunk_list());
            lemma_clipped_whole(self.chunk_list());
            assert(Seq::<u8>::empty() + self@ =~= self@);
            if count > 0 {
                assert(self.chunk_list()[0].take(0) =~= Seq::<u8>::empty());
                assert(self.chunk_list()[0].len() > 0);
            }
        }
        if watermark == 0 {
            return Bytes::new();
        }
        match self.pop_front() {
            None => {
                assert(old(self)@ =~= Seq::<u8>::empty());
                Bytes::new()
            },
            Some(chunk) => {
                let mut chunk = chunk;
                let ghost whole = contents(chunk);
                assert(old(self).chunk_list()[0] == whole);
                proof {
                    use_type_invariant(&*self);
                    lemma_repr(self.parts.repr);
                    lemma_clipped_first(
                        whole,
                        self.chunk_list(),
                        least(whole.len() as int, watermark as int),
                    );
                    lemma_clipped_whole(self.chunk_list());
                }
                if chunk.len() <= watermark {
                    return chunk;
                }
                let ghost rest = self@;
                let front = chunk.split_to(watermark);
                assert(whole =~= contents(front) + contents(chunk));
                assert(contents(front) + (contents(chunk) + rest) =~= contents(front) + contents(
                    chunk,
                ) + rest);
                self.push_front(chunk);
                front
            },
        }
    }

    /// Splits off the first `at` bytes, copied into one chunk.
    pub fn split_to_copy(&mut self, at: usize) -> (result: Result<Bytes, ByteRopeError>)
        requires
            at <= old(self)@.len() ==> at <= isize::MAX,
        ensures
            match result {
                Ok(front) => {
                    &&& at <= old(self)@.len()
                    &&& contents(front) == old(self)@.take(at as int)
                    &&& final(self)@ == old(self)@.skip(at as int)
                    &&& final(self).chunk_list() == clipped(
                        old(self).chunk_list(),
                        at as int,
                        old(self)@.len() as int,
                    )
                },
                Err(error) => {
                    &&& at > old(self)@.len()
                    &&& error == ByteRopeError::OutOfBounds(at)
                    &&& *final(self) == *old(self)
                },
            },
    {
        if at > self.len() {
            return Err(ByteRopeError::OutOfBounds(at));
        }
        Ok(self.copy_front_bytes(at))
    }

    /// Takes the first `len` bytes off the rope, copied into one chunk.
    fn copy_front_bytes(&mut self, len: usize) -> (front: Bytes)
        requires
            len <= old(self)@.len(),
            len <= isize::MAX,
        ensures
            contents(front) == old(self)@.take(len as int),
            final(self)@ == old(self)@.skip(len as int),
            final(self).chunk_list() == clipped(
                old(self).chunk_list(),
                len as int,
                old(self)@.len() as int,
            ),
    {
        let ghost whole = self@;
        let ghost list = self.chunk_list();
        let mut out = BytesMut::with_capacity(len);
        let mut left: usize = len;
        proof {
            use_type_invariant(&*self);
            lemma_repr(self.parts.repr);
            lemma_clipped_whole(list);
            assert(whole.take(0) =~= Seq::<u8>::empty());
            assert(whole.skip(0) =~= whole);
        }
        while left > 0
            invariant
                left <= len <= whole.len(),
                len <= isize::MAX,
                whole == joined(list),
                buffered(out) == whole.take(len - left),
                self@ == whole.skip(len - left),
                self.chunk_list() == clipped(list, len - left, whole.len() as int),
            decreases left,
        {
            let ghost before = self@;
            let chunk = self.read_chunk_bytes(left);
            let size: usize = chunk.len();
            proof {
                assert(size > 0);
                assert(contents(chunk) =~= before.take(size as int));
                assert(self@ =~= before.skip(size as int));
                assert(size <= left);
                assert(whole.take(len - left) + contents(chunk) =~= whole.take(len - left + size));
                assert(self@ =~= whole.skip(len - left + size));
                let rest = whole.len() - (len - left);
                lemma_clipped_twice(list, len - left, whole.len() as int, size as int, rest);
            }
            out.extend_from_slice(chunk_slice(&chunk));
            left -= size;
        }
        frozen(out)
    }

    /// The first `len` bytes as one chunk, taken off the rope. Nothing is copied if they lie in the
    /// front chunk.
    pub fn take_bytes(&mut self, len: usize) -> (front: Bytes)
        requires
            len <= old(self)@.len(),
            old(self).chunk_list().len() > 0 && old(self).chunk_list()[0].len() < len ==> len
                <= isize::MAX,
        ensures
            contents(front) == old(self)@.take(len as int),
            final(self)@ == old(self)@.skip(len as int),
            final(self).chunk_list() == clipped(
                old(self).chunk_list(),
                len as int,
                old(self)@.len() as int,
            ),
    {
        match self.front_chunk_len() {
            Some(size) => {
                if size >= len {
                    let ghost before = self@;
                    let front = self.read_chunk_bytes(len);
                    assert(contents(front) =~= before.take(len as int));
                    assert(self@ =~= before.skip(len as int));
                    return front;
                }
            },
            None => {},
        }
        self.copy_front_bytes(len)
    }

    /// The bytes of the front chunk; none if the rope is empty.
    pub fn front_slice(&self) -> (slice: &[u8])
        ensures
            slice@ == if self.chunk_list().len() == 0 {
                Seq::<u8>::empty()
            } else {
                self.chunk_list()[0]
            },
    {
        match self.get(0) {
            Some(chunk) => chunk_slice(chunk),
            None => &[],
        }
    }

    /// All bytes as one chunk. They are copied if there is more than one chunk.
    pub fn copy_to_bytes(&self) -> (whole: Bytes)
        requires
            self.chunk_list().len() > 1 ==> self@.len() <= isize::MAX,
        ensures
            contents(whole) == self@,
    {
        proof {
            use_type_invariant(self);
            lemma_repr(self.parts.repr);
        }
        if self.len() == 0 {
            assert(self@ =~= Seq::<u8>::empty());
            return Bytes::new();
        }
        if self.chunk_count() == 1 {
            if let Some(chunk) = self.get(0) {
                proof {
                    lemma_joined_one(self.chunk_list()[0]);
                    assert(self.chunk_list() =~= seq![self.chunk_list()[0]]);
                }
                return chunk.clone();
            }
        }
        proof {
            assert(self.chunk_list().len() != 0);
        }
        let mut out = BytesMut::with_capacity(self.len());
        self.parts.append_to(&mut out);
        assert(Seq::<u8>::empty() + self@ =~= self@);
        frozen(out)
    }

    /// All bytes as one buffer. They are copied if there is more than one chunk.
    pub fn copy_to_bytes_mut(self) -> (whole: BytesMut)
        requires
            self.chunk_list().len() > 1 ==> self@.len() <= isize::MAX,
        ensures
            buffered(whole) == self@,
    {
        proof {
            use_type_invariant(&self);
            lemma_repr(self.parts.repr);
        }
        if self.len() == 0 {
            assert(self@ =~= Seq::<u8>::empty());
            return BytesMut::new();
        }
        if self.chunk_count() == 1 {
            if let Some(chunk) = self.get(0) {
                proof {
                    lemma_joined_one(self.chunk_list()[0]);
                    assert(self.chunk_list() =~= seq![self.chunk_list()[0]]);
                }
                return buffer_from_chunk(chunk.clone());
            }
        }
        proof {
            assert(self.chunk_list().len() != 0);
        }
        let mut out = BytesMut::with_capacity(self.len());
        self.parts.append_to(&mut out);
        assert(Seq::<u8>::empty() + self@ =~= self@);
        out
    }

    /// The bytes as one slice if they lie in a single chunk or there are none.
    pub fn as_contiguous(&self) -> (slice: Option<&[u8]>)
        ensures
            match slice {
                Some(slice) => self.chunk_list().len() <= 1 && slice@ == self@,
                None => self.chunk_list().len() > 1,
            },
    {
        let count: usize = self.chunk_count();
        if count > 1 {
            return None;
        }
        proof {
            if count == 1 {
                lemma_joined_one(self.chunk_list()[0]);
                assert(self.chunk_list() =~= seq![self.chunk_list()[0]]);
            } else {
                assert(self@ =~= Seq::<u8>::empty());
            }
        }
        Some(self.front_slice())
    }
}

impl Clone for ByteRope {
    /// A rope over the same chunks.
    fn clone(&self) -> (copy: Self)
        ensures
            copy.chunk_list() == self.chunk_list(),
            copy@ == self@,
            copy.deep() == self.deep(),
    {
        proof {
            use_type_invariant(self);
        }
        ByteRope { parts: self.parts.share() }
    }
}

impl Default for ByteRope {
    /// An empty rope.
    fn default() -> (rope: Self)
        ensures
            rope.chunk_list() == Seq::<Seq<u8>>::empty(),
            rope@ == Seq::<u8>::empty(),
            !rope.deep(),
    {
        ByteRope::new()
    }
}

impl vstd::std_specs::core::IndexSpecImpl<usize> for ByteRope {
    /// An index is allowed if a chunk stands there.
    open spec fn index_req(&self, index: &usize) -> bool {
        *index < self.chunk_list().len()
    }
}

impl core::ops::Index<usize> for ByteRope {
    type Output = Bytes;

    /// The chunk at `index`, counted from the front.
    fn index(&self, index: usize) -> (chunk: &Bytes)
        ensures
            contents(*chunk) == self.chunk_list()[index as int],
    {
        match self.get(index) {
            Some(chunk) => chunk,
            None => vstd::pervasive::unreached(),
        }
    }
}

} // verus!
