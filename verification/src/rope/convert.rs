//! Making ropes out of other byte containers, and back.

use std::collections::VecDeque;

use bytes::Bytes;
use bytes::BytesMut;

use vstd::prelude::*;
use vstd::std_specs::convert::FromSpecImpl;
use vstd::string::StringSliceAdditionalSpecFns;

use crate::chunks::chunk_views;
use crate::chunks::joined;
use crate::chunks::lemma_joined_concat;
use crate::chunks::lemma_joined_step;
use crate::chunks::solid;
use crate::rope::byte_rope::ByteRope;
use crate::rope::parts::PROMOTE_AT;
use crate::shared::buffered;
use crate::shared::chunk_from_vec;
use crate::shared::contents;
use crate::shared::frozen;

verus! {

impl ByteRope {
    /// A rope over one chunk.
    pub fn from_chunk(chunk: Bytes) -> (rope: Self)
        ensures
            rope@ == contents(chunk),
            rope.chunk_list() == solid(seq![contents(chunk)]),
            !rope.deep(),
    {
        // The length of a chunk is a `usize`, so the rope can take it.
        let _size: usize = chunk.len();
        let mut rope = ByteRope::new();
        proof {
            let one = seq![contents(chunk)];
            reveal_with_fuel(Seq::filter, 2);
            assert(one.drop_last() =~= Seq::<Seq<u8>>::empty());
            assert(Seq::<u8>::empty() + contents(chunk) =~= contents(chunk));
            assert(Seq::<Seq<u8>>::empty().push(contents(chunk)) =~= one);
        }
        rope.push_back(chunk);
        rope
    }

    /// A rope over the chunks of a list. Empty ones are left out.
    pub fn from_iter(chunks: Vec<Bytes>) -> (rope: Self)
        requires
            joined(chunk_views(chunks@)).len() <= usize::MAX,
        ensures
            rope.chunk_list() == solid(chunk_views(chunks@)),
            rope@ == joined(chunk_views(chunks@)),
            rope.deep() <==> rope.chunk_list().len() > PROMOTE_AT,
    {
        let mut rope = ByteRope::new();
        rope.extend(chunks);
        assert(Seq::<u8>::empty() + joined(chunk_views(chunks@)) =~= joined(chunk_views(chunks@)));
        assert(Seq::<Seq<u8>>::empty() + solid(chunk_views(chunks@)) =~= solid(
            chunk_views(chunks@),
        ));
        rope
    }

    /// Appends the chunks of a list. Empty ones are left out.
    pub fn extend(&mut self, chunks: Vec<Bytes>)
        requires
            old(self)@.len() + joined(chunk_views(chunks@)).len() <= usize::MAX,
        ensures
            final(self).chunk_list() == old(self).chunk_list() + solid(chunk_views(chunks@)),
            final(self)@ == old(self)@ + joined(chunk_views(chunks@)),
            final(self).deep() <==> old(self).deep() || (final(self).chunk_list().len() > old(
                self,
            ).chunk_list().len() && final(self).chunk_list().len() > PROMOTE_AT),
    {
        let ghost list = chunk_views(chunks@);
        let ghost before = self.chunk_list();
        let ghost bytes = self@;
        let ghost was_deep = self.deep();
        let mut i: usize = 0;
        proof {
            assert(list.take(0) =~= Seq::<Seq<u8>>::empty());
            reveal(Seq::filter);
            assert(before + solid(list.take(0)) =~= before);
            assert(bytes + joined(list.take(0)) =~= bytes);
        }
        while i < chunks.len()
            invariant
                i <= chunks@.len(),
                list == chunk_views(chunks@),
                bytes.len() + joined(list).len() <= usize::MAX,
                self.chunk_list() == before + solid(list.take(i as int)),
                self@ == bytes + joined(list.take(i as int)),
                self.deep() <==> was_deep || (self.chunk_list().len() > before.len()
                    && self.chunk_list().len() > PROMOTE_AT),
            decreases chunks@.len() - i,
        {
            proof {
                lemma_joined_step(list, i as int);
                reveal(Seq::filter);
                assert(list.take(i + 1).drop_last() =~= list.take(i as int));
                assert(list.take(i + 1).last() == list[i as int]);
                assert(bytes + joined(list.take(i as int)) + list[i as int] =~= bytes + joined(
                    list.take(i + 1),
                ));
                assert(before + solid(list.take(i as int)).push(list[i as int]) =~= (before
                    + solid(list.take(i as int))).push(list[i as int]));
            }
            self.push_back(chunks[i].clone());
            i = i + 1;
        }
        assert(list.take(chunks@.len() as int) =~= list);
    }

    /// Appends byte vectors, each as one chunk. Empty ones are left out.
    pub fn extend_vecs(&mut self, vecs: Vec<Vec<u8>>)
        requires
            old(self)@.len() + joined(vec_views(vecs@)).len() <= usize::MAX,
        ensures
            final(self).chunk_list() == old(self).chunk_list() + solid(vec_views(vecs@)),
            final(self)@ == old(self)@ + joined(vec_views(vecs@)),
            final(self).deep() <==> old(self).deep() || (final(self).chunk_list().len() > old(
                self,
            ).chunk_list().len() && final(self).chunk_list().len() > PROMOTE_AT),
    {
        let ghost list = vec_views(vecs@);
        let ghost before = self.chunk_list();
        let ghost bytes = self@;
        let ghost was_deep = self.deep();
        let mut vecs = vecs;
        let mut parts: VecDeque<Bytes> = VecDeque::new();
        while vecs.len() > 0
            invariant
                list == vec_views(vecs@) + chunk_views(parts@),
            decreases vecs@.len(),
        {
            let ghost held = vecs@;
            let ghost made = parts@;
            if let Some(last) = vecs.pop() {
                let chunk = chunk_from_vec(last);
                parts.push_front(chunk);
                proof {
                    assert(vec_views(vecs@) + chunk_views(parts@) =~= vec_views(held) + chunk_views(
                        made,
                    ));
                }
            }
        }
        proof {
            assert(vec_views(vecs@) + chunk_views(parts@) =~= chunk_views(parts@));
            assert(bytes + joined(Seq::<Seq<u8>>::empty()) =~= bytes);
        }
        let ghost mut done = Seq::<Seq<u8>>::empty();
        proof {
            reveal(Seq::filter);
            assert(before + solid(done) =~= before);
        }
        while parts.len() > 0
            invariant
                bytes.len() + joined(list).len() <= usize::MAX,
                list == done + chunk_views(parts@),
                self.chunk_list() == before + solid(done),
                self@ == bytes + joined(done),
                self.deep() <==> was_deep || (self.chunk_list().len() > before.len()
                    && self.chunk_list().len() > PROMOTE_AT),
            decreases parts@.len(),
        {
            let ghost held = parts@;
            if let Some(chunk) = parts.pop_front() {
                proof {
                    assert(done + chunk_views(held) =~= done.push(contents(chunk)) + chunk_views(
                        parts@,
                    ));
                    lemma_joined_concat(done.push(contents(chunk)), chunk_views(parts@));
                    crate::chunks::lemma_joined_push(done, contents(chunk));
                    assert(bytes + joined(done) + contents(chunk) =~= bytes + joined(
                        done.push(contents(chunk)),
                    ));
                    reveal(Seq::filter);
                    assert(done.push(contents(chunk)).drop_last() =~= done);
                    assert(before + solid(done).push(contents(chunk)) =~= (before + solid(
                        done,
                    )).push(contents(chunk)));
                    done = done.push(contents(chunk));
                }
                self.push_back(chunk);
            }
        }
        assert(done + chunk_views(parts@) =~= done);
    }

    /// Appends the chunks of other ropes.
    pub fn extend_ropes(&mut self, ropes: Vec<ByteRope>)
        requires
            old(self)@.len() + joined(rope_views(ropes@)).len() <= usize::MAX,
        ensures
            final(self).chunk_list() == old(self).chunk_list() + rope_chunks(ropes@),
            final(self)@ == old(self)@ + joined(rope_views(ropes@)),
    {
        let ghost list = rope_views(ropes@);
        let ghost before = self.chunk_list();
        let ghost bytes = self@;
        let mut i: usize = 0;
        proof {
            assert(before + rope_chunks(ropes@.take(0)) =~= before);
            assert(list.take(0) =~= Seq::<Seq<u8>>::empty());
            assert(bytes + joined(list.take(0)) =~= bytes);
        }
        while i < ropes.len()
            invariant
                i <= ropes@.len(),
                list == rope_views(ropes@),
                bytes.len() + joined(list).len() <= usize::MAX,
                self.chunk_list() == before + rope_chunks(ropes@.take(i as int)),
                self@ == bytes + joined(list.take(i as int)),
            decreases ropes@.len() - i,
        {
            proof {
                lemma_joined_step(list, i as int);
                assert(bytes + joined(list.take(i as int)) + list[i as int] =~= bytes + joined(
                    list.take(i + 1),
                ));
            }
            proof {
                let own = ropes@[i as int].chunk_list();
                assert(ropes@.take(i + 1).drop_last() =~= ropes@.take(i as int));
                assert(before + (rope_chunks(ropes@.take(i as int)) + own) =~= before + rope_chunks(
                    ropes@.take(i as int),
                ) + own);
            }
            let mut next = ropes[i].clone();
            self.append(&mut next);
            i = i + 1;
        }
        assert(ropes@.take(ropes@.len() as int) =~= ropes@);
        assert(list.take(ropes@.len() as int) =~= list);
    }

    /// The chunks of the rope in a vector.
    pub fn into_vec(self) -> (chunks: Vec<Bytes>)
        ensures
            chunk_views(chunks@) == self.chunk_list(),
    {
        let ghost list = self.chunk_list();
        let mut rope = self;
        let mut chunks: Vec<Bytes> = Vec::new();
        assert(chunk_views(chunks@) + list =~= list);
        loop
            invariant
                chunk_views(chunks@) + rope.chunk_list() == list,
            ensures
                chunk_views(chunks@) == list,
            decreases rope.chunk_list().len(),
        {
            let ghost held = chunks@;
            match rope.pop_front() {
                Some(chunk) => {
                    chunks.push(chunk);
                    assert(chunk_views(chunks@) + rope.chunk_list() =~= chunk_views(held) + (
                    seq![contents(chunk)] + rope.chunk_list()));
                },
                None => {
                    assert(chunk_views(chunks@) + rope.chunk_list() =~= chunk_views(chunks@));
                    break;
                },
            }
        }
        chunks
    }
}

/// The bytes of each vector in a list.
pub open spec fn vec_views(vecs: Seq<Vec<u8>>) -> Seq<Seq<u8>> {
    Seq::new(vecs.len(), |i: int| vecs[i]@)
}

/// The bytes of each rope in a list.
pub open spec fn rope_views(ropes: Seq<ByteRope>) -> Seq<Seq<u8>> {
    Seq::new(ropes.len(), |i: int| ropes[i]@)
}

/// The chunks of all ropes in a list, one rope after the other.
pub open spec fn rope_chunks(ropes: Seq<ByteRope>) -> Seq<Seq<u8>>
    decreases ropes.len(),
{
    if ropes.len() == 0 {
        Seq::empty()
    } else {
        rope_chunks(ropes.drop_last()) + ropes.last().chunk_list()
    }
}

impl From<Bytes> for ByteRope {
    fn from(chunk: Bytes) -> (rope: Self)
        ensures
            rope@ == contents(chunk),
            rope.chunk_list() == solid(seq![contents(chunk)]),
            !rope.deep(),
    {
        ByteRope::from_chunk(chunk)
    }
}

impl FromSpecImpl<Bytes> for ByteRope {
    open spec fn obeys_from_spec() -> bool {
        false
    }

    open spec fn from_spec(chunk: Bytes) -> Self {
        vstd::pervasive::arbitrary()
    }
}

impl From<BytesMut> for ByteRope {
    fn from(buffer: BytesMut) -> (rope: Self)
        ensures
            rope@ == buffered(buffer),
            rope.chunk_list() == solid(seq![buffered(buffer)]),
            !rope.deep(),
    {
        ByteRope::from_chunk(frozen(buffer))
    }
}

impl FromSpecImpl<BytesMut> for ByteRope {
    open spec fn obeys_from_spec() -> bool {
        false
    }

    open spec fn from_spec(buffer: BytesMut) -> Self {
        vstd::pervasive::arbitrary()
    }
}

impl From<Vec<u8>> for ByteRope {
    fn from(bytes: Vec<u8>) -> (rope: Self)
        ensures
            rope@ == bytes@,
            rope.chunk_list() == solid(seq![bytes@]),
            !rope.deep(),
    {
        ByteRope::from_chunk(chunk_from_vec(bytes))
    }
}

impl FromSpecImpl<Vec<u8>> for ByteRope {
    open spec fn obeys_from_spec() -> bool {
        false
    }

    open spec fn from_spec(bytes: Vec<u8>) -> Self {
        vstd::pervasive::arbitrary()
    }
}

impl From<String> for ByteRope {
    fn from(text: String) -> (rope: Self)
        ensures
            rope@ == vstd::utf8::encode_utf8(text@),
            rope.chunk_list() == solid(seq![vstd::utf8::encode_utf8(text@)]),
            !rope.deep(),
    {
        ByteRope::from_chunk(chunk_from_vec(text.into_bytes()))
    }
}

impl FromSpecImpl<String> for ByteRope {
    open spec fn obeys_from_spec() -> bool {
        false
    }

    open spec fn from_spec(text: String) -> Self {
        vstd::pervasive::arbitrary()
    }
}

impl From<&'static [u8]> for ByteRope {
    fn from(bytes: &'static [u8]) -> (rope: Self)
        ensures
            rope@ == bytes@,
            rope.chunk_list() == solid(seq![bytes@]),
            !rope.deep(),
    {
        ByteRope::from_chunk(Bytes::from_static(bytes))
    }
}

impl FromSpecImpl<&'static [u8]> for ByteRope {
    open spec fn obeys_from_spec() -> bool {
        false
    }

    open spec fn from_spec(bytes: &'static [u8]) -> Self {
        vstd::pervasive::arbitrary()
    }
}

impl<const LEN: usize> From<&'static [u8; LEN]> for ByteRope {
    fn from(bytes: &'static [u8; LEN]) -> (rope: Self)
        ensures
            rope@ == bytes@,
            rope.chunk_list() == solid(seq![bytes@]),
            !rope.deep(),
    {
        ByteRope::from_chunk(Bytes::from_static(bytes.as_slice()))
    }
}

impl<const LEN: usize> FromSpecImpl<&'static [u8; LEN]> for ByteRope {
    open spec fn obeys_from_spec() -> bool {
        false
    }

    open spec fn from_spec(bytes: &'static [u8; LEN]) -> Self {
        vstd::pervasive::arbitrary()
    }
}

impl From<&'static str> for ByteRope {
    fn from(text: &'static str) -> (rope: Self)
        ensures
            rope@ == text.spec_bytes(),
            rope.chunk_list() == solid(seq![text.spec_bytes()]),
            !rope.deep(),
    {
        ByteRope::from_chunk(Bytes::from_static(text.as_bytes()))
    }
}

impl FromSpecImpl<&'static str> for ByteRope {
    open spec fn obeys_from_spec() -> bool {
        false
    }

    open spec fn from_spec(text: &'static str) -> Self {
        vstd::pervasive::arbitrary()
    }
}

impl From<ByteRope> for Vec<Bytes> {
    fn from(rope: ByteRope) -> (chunks: Self)
        ensures
            chunk_views(chunks@) == rope.chunk_list(),
    {
        rope.into_vec()
    }
}

impl FromSpecImpl<ByteRope> for Vec<Bytes> {
    open spec fn obeys_from_spec() -> bool {
        false
    }

    open spec fn from_spec(rope: ByteRope) -> Self {
        vstd::pervasive::arbitrary()
    }
}

impl From<ByteRope> for VecDeque<Bytes> {
    fn from(rope: ByteRope) -> (chunks: Self)
        ensures
            chunk_views(chunks@) == rope.chunk_list(),
    {
        let ghost list = rope.chunk_list();
        let mut rope = rope;
        let mut chunks: VecDeque<Bytes> = VecDeque::new();
        assert(list + chunk_views(chunks@) =~= list);
        loop
            invariant
                rope.chunk_list() + chunk_views(chunks@) == list,
            ensures
                chunk_views(chunks@) == list,
            decreases rope.chunk_list().len(),
        {
            let ghost held = chunks@;
            match rope.pop_back() {
                Some(chunk) => {
                    chunks.push_front(chunk);
                    assert(rope.chunk_list() + chunk_views(chunks@) =~= rope.chunk_list().push(
                        contents(chunk),
                    ) + chunk_views(held));
                },
                None => {
                    assert(rope.chunk_list() + chunk_views(chunks@) =~= chunk_views(chunks@));
                    break;
                },
            }
        }
        chunks
    }
}

impl FromSpecImpl<ByteRope> for VecDeque<Bytes> {
    open spec fn obeys_from_spec() -> bool {
        false
    }

    open spec fn from_spec(rope: ByteRope) -> Self {
        vstd::pervasive::arbitrary()
    }
}

} // verus!
