//! Walking over the chunks of a rope, and draining them.

use bytes::Bytes;

use vstd::prelude::*;

use crate::rope::byte_rope::ByteRope;
use crate::rope::walk::Walk;
use crate::shared::contents;

verus! {

/// A walk over the chunks of a rope from both ends. From the front it goes along the tree; from the
/// back it looks up one chunk after the other.
pub struct Chunks<'a> {
    rope: &'a ByteRope,
    walk: Walk<'a>,
    front: usize,
    back: usize,
}

/// [`Chunks`] under the name that goes with [`ByteVec`](crate::rope::ByteVec).
pub type ChunkIter<'a> = Chunks<'a>;

impl ByteRope {
    /// Walks over the chunks in order.
    pub fn chunks(&self) -> (walk: Chunks<'_>)
        ensures
            walk.left() == self.chunk_list(),
    {
        let back: usize = self.chunk_count();
        proof {
            assert(self.chunk_list().subrange(0, back as int) =~= self.chunk_list());
            assert(self.chunk_list().skip(0) =~= self.chunk_list());
        }
        Chunks { rope: self, walk: self.walk(), front: 0, back }
    }
}

impl<'a> Chunks<'a> {
    #[verifier::type_invariant]
    spec fn in_range(self) -> bool {
        &&& self.front <= self.back <= self.rope.chunk_list().len()
        &&& self.walk.wf()
        &&& self.walk.left() == self.rope.chunk_list().skip(self.front as int)
    }

    /// The bytes of each chunk that is still to come.
    pub closed spec fn left(&self) -> Seq<Seq<u8>> {
        self.rope.chunk_list().subrange(self.front as int, self.back as int)
    }

    /// A walk that has come to its end.
    fn finished(rope: &'a ByteRope) -> (walk: Self)
        ensures
            walk.rope == rope,
    {
        let count: usize = rope.chunk_count();
        assert(rope.chunk_list().skip(count as int) =~= Seq::<Seq<u8>>::empty());
        Chunks { rope, walk: Walk::Done, front: count, back: count }
    }

    /// The next chunk from the front, or `None` if all were walked over.
    pub fn next(&mut self) -> (chunk: Option<&'a Bytes>)
        ensures
            match chunk {
                Some(chunk) => {
                    &&& old(self).left().len() > 0
                    &&& contents(*chunk) == old(self).left()[0]
                    &&& final(self).left() == old(self).left().skip(1)
                },
                None => {
                    &&& old(self).left().len() == 0
                    &&& final(self).left() == old(self).left()
                },
            },
    {
        proof {
            use_type_invariant(&*self);
        }
        if self.front == self.back {
            return None;
        }
        let mut current = Chunks::finished(self.rope);
        core::mem::swap(self, &mut current);
        proof {
            use_type_invariant(&current);
        }
        let Chunks { rope, walk, front, back } = current;
        let (chunk, walk) = walk.next_chunk();
        proof {
            let list = rope.chunk_list();
            assert(list.skip(front as int).len() > 0);
            assert(list.skip(front as int)[0] == list[front as int]);
            assert(list.skip(front as int).skip(1) =~= list.skip(front + 1));
            assert(walk.left() =~= list.skip(front as int).skip(1));
        }
        *self = Chunks { rope, walk, front: front + 1, back };
        assert(self.left() =~= old(self).left().skip(1));
        chunk
    }

    /// The next chunk from the back, or `None` if all were walked over.
    pub fn next_back(&mut self) -> (chunk: Option<&'a Bytes>)
        ensures
            match chunk {
                Some(chunk) => {
                    &&& old(self).left().len() > 0
                    &&& contents(*chunk) == old(self).left().last()
                    &&& final(self).left() == old(self).left().drop_last()
                },
                None => {
                    &&& old(self).left().len() == 0
                    &&& final(self).left() == old(self).left()
                },
            },
    {
        proof {
            use_type_invariant(&*self);
        }
        if self.front == self.back {
            return None;
        }
        let rope = self.rope;
        self.back = self.back - 1;
        let chunk = rope.get(self.back);
        assert(self.left() =~= old(self).left().drop_last());
        chunk
    }

    /// How many chunks are still to come.
    pub fn len(&self) -> (len: usize)
        ensures
            len == self.left().len(),
    {
        proof {
            use_type_invariant(self);
        }
        self.back - self.front
    }

    /// How many chunks were still to come.
    pub fn count(self) -> (count: usize)
        ensures
            count == self.left().len(),
    {
        self.len()
    }
}

/// Takes the chunks off a rope, front to back.
pub struct IntoChunks {
    rope: ByteRope,
}

/// [`IntoChunks`] under the name that goes with [`ByteVec`](crate::rope::ByteVec).
pub type DrainIter = IntoChunks;

impl ByteRope {
    /// Takes the chunks out of the rope, one after the other.
    pub fn into_iter(self) -> (drain: IntoChunks)
        ensures
            drain.left() == self.chunk_list(),
    {
        IntoChunks { rope: self }
    }
}

impl IntoChunks {
    /// The bytes of each chunk that is still to come.
    pub closed spec fn left(&self) -> Seq<Seq<u8>> {
        self.rope.chunk_list()
    }

    /// The next chunk, or `None` if all were taken.
    pub fn next(&mut self) -> (chunk: Option<Bytes>)
        ensures
            match chunk {
                Some(chunk) => old(self).left() == seq![contents(chunk)] + final(self).left(),
                None => old(self).left().len() == 0 && final(self).left().len() == 0,
            },
    {
        self.rope.pop_front()
    }

    /// How many chunks were still to come.
    pub fn count(self) -> (count: usize)
        ensures
            count == self.left().len(),
    {
        self.rope.chunk_count()
    }
}

} // verus!
