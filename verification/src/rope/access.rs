//! Reading a rope: single bytes, single chunks, and all bytes at once.

use std::collections::VecDeque;

use bytes::Bytes;
use bytes::BytesMut;

use vstd::prelude::*;

use crate::chunks::chunk_views;
use crate::chunks::joined;
use crate::chunks::lemma_joined_at;
use crate::chunks::lemma_joined_step;
use crate::rope::parts::deque_bytes;
use crate::rope::parts::lemma_deep;
use crate::rope::parts::lemma_no_views;
use crate::rope::parts::lemma_repr;
use crate::rope::parts::parts_wf;
use crate::rope::parts::repr_chunks;
use crate::rope::parts::Parts;
use crate::rope::parts::Repr;
use crate::rope::take::lemma_front;
use crate::rope::tree::tree_bytes;
use crate::shared::buffered;
use crate::shared::chunk_slice;
use crate::shared::contents;

verus! {

/// The chunk of a deque that holds the byte at `offset`, and the offset of the byte in it.
pub(crate) fn find_in_deque(chunks: &VecDeque<Bytes>, offset: usize) -> (place: (usize, usize))
    requires
        offset < joined(chunk_views(chunks@)).len(),
    ensures
        place.0 < chunks@.len(),
        place.1 < contents(chunks@[place.0 as int]).len(),
        offset == joined(chunk_views(chunks@).take(place.0 as int)).len() + place.1,
{
    let ghost views = chunk_views(chunks@);
    let mut local: usize = offset;
    let mut i: usize = 0;
    assert(views.take(0) =~= Seq::<Seq<u8>>::empty());
    loop
        invariant
            i <= chunks.len(),
            views == chunk_views(chunks@),
            offset < joined(views).len(),
            offset == joined(views.take(i as int)).len() + local,
        decreases chunks.len() - i,
    {
        proof {
            if i == chunks.len() {
                assert(views.take(i as int) =~= views);
            }
            lemma_joined_step(views, i as int);
        }
        let len: usize = chunks[i].len();
        if local < len {
            return (i, local);
        }
        local = local - len;
        i = i + 1;
    }
}

/// The byte at `offset` of what the chunks of a deque spell.
fn byte_in_deque(chunks: &VecDeque<Bytes>, offset: usize) -> (byte: u8)
    requires
        offset < joined(chunk_views(chunks@)).len(),
    ensures
        byte == joined(chunk_views(chunks@))[offset as int],
{
    let (index, local) = find_in_deque(chunks, offset);
    proof {
        lemma_joined_at(chunk_views(chunks@), index as int);
    }
    chunk_slice(&chunks[index])[local]
}

/// Appends every byte of a deque of chunks to `out`.
fn append_deque(chunks: &VecDeque<Bytes>, out: &mut BytesMut)
    requires
        buffered(*old(out)).len() + joined(chunk_views(chunks@)).len() <= isize::MAX,
    ensures
        buffered(*final(out)) == buffered(*old(out)) + joined(chunk_views(chunks@)),
{
    let ghost before = buffered(*out);
    let ghost views = chunk_views(chunks@);
    let mut i: usize = 0;
    proof {
        assert(views.take(0) =~= Seq::<Seq<u8>>::empty());
        assert(before + joined(views.take(0)) =~= before);
    }
    while i < chunks.len()
        invariant
            i <= chunks.len(),
            views == chunk_views(chunks@),
            before.len() + joined(views).len() <= isize::MAX,
            buffered(*out) == before + joined(views.take(i as int)),
        decreases chunks.len() - i,
    {
        proof {
            lemma_joined_step(views, i as int);
            assert(before + (joined(views.take(i as int)) + views[i as int]) =~= before + joined(
                views.take(i as int),
            ) + views[i as int]);
        }
        out.extend_from_slice(chunk_slice(&chunks[i]));
        i = i + 1;
    }
    assert(views.take(i as int) =~= views);
}

impl Parts {
    /// The byte at `offset`.
    pub(crate) fn byte_at(&self, offset: usize) -> (byte: Option<u8>)
        requires
            parts_wf(*self),
        ensures
            match byte {
                Some(byte) => {
                    &&& offset < self.len
                    &&& byte == joined(repr_chunks(self.repr))[offset as int]
                },
                None => offset >= self.len,
            },
    {
        if offset >= self.len {
            return None;
        }
        match &self.repr {
            Repr::Small { head, additional } => {
                proof {
                    lemma_no_views();
                    lemma_front(contents(*head), chunk_views(additional@));
                }
                if offset < head.len() {
                    Some(chunk_slice(head)[offset])
                } else {
                    Some(byte_in_deque(additional, offset - head.len()))
                }
            },
            Repr::Deep(deep) => {
                proof {
                    lemma_deep(**deep);
                }
                let head_bytes: usize = deque_bytes(&deep.head);
                let tree_len: usize = deep.tree.byte_len();
                if offset < head_bytes {
                    Some(byte_in_deque(&deep.head, offset))
                } else if offset < head_bytes + tree_len {
                    Some(deep.tree.byte_at(offset - head_bytes))
                } else {
                    Some(byte_in_deque(&deep.tail, offset - head_bytes - tree_len))
                }
            },
        }
    }

    /// The chunk at `index`.
    pub(crate) fn get(&self, index: usize) -> (chunk: Option<&Bytes>)
        requires
            parts_wf(*self),
        ensures
            match chunk {
                Some(chunk) => {
                    &&& index < repr_chunks(self.repr).len()
                    &&& contents(*chunk) == repr_chunks(self.repr)[index as int]
                },
                None => index >= repr_chunks(self.repr).len(),
            },
    {
        match &self.repr {
            Repr::Small { head, additional } => {
                if index == 0 {
                    if head.is_empty() {
                        None
                    } else {
                        Some(head)
                    }
                } else if index - 1 < additional.len() {
                    Some(&additional[index - 1])
                } else {
                    None
                }
            },
            Repr::Deep(deep) => {
                if index < deep.head.len() {
                    Some(&deep.head[index])
                } else {
                    let inner: usize = index - deep.head.len();
                    let count: usize = deep.tree.chunk_count();
                    if inner < count {
                        deep.tree.get_chunk(inner)
                    } else if inner - count < deep.tail.len() {
                        Some(&deep.tail[inner - count])
                    } else {
                        None
                    }
                }
            },
        }
    }

    /// The length of the first chunk.
    pub(crate) fn front_chunk_len(&self) -> (len: Option<usize>)
        requires
            parts_wf(*self),
        ensures
            match len {
                Some(len) => {
                    &&& repr_chunks(self.repr).len() > 0
                    &&& len == repr_chunks(self.repr)[0].len()
                    &&& len > 0
                },
                None => repr_chunks(self.repr).len() == 0,
            },
    {
        proof {
            lemma_repr(self.repr);
        }
        match self.get(0) {
            Some(chunk) => Some(chunk.len()),
            None => None,
        }
    }

    /// Appends every byte to `out`, straight from the storage.
    pub(crate) fn append_to(&self, out: &mut BytesMut)
        requires
            parts_wf(*self),
            buffered(*old(out)).len() + self.len <= isize::MAX,
        ensures
            buffered(*final(out)) == buffered(*old(out)) + joined(repr_chunks(self.repr)),
    {
        let ghost before = buffered(*out);
        let ghost whole = joined(repr_chunks(self.repr));
        match &self.repr {
            Repr::Small { head, additional } => {
                proof {
                    lemma_no_views();
                    lemma_front(contents(*head), chunk_views(additional@));
                }
                if head.is_empty() {
                    assert(before + whole =~= before);
                } else {
                    out.extend_from_slice(chunk_slice(head));
                    append_deque(additional, out);
                    assert(before + contents(*head) + joined(chunk_views(additional@)) =~= before
                        + whole);
                }
            },
            Repr::Deep(deep) => {
                proof {
                    lemma_deep(**deep);
                }
                append_deque(&deep.head, out);
                deep.tree.append_to(out);
                append_deque(&deep.tail, out);
                assert(before + joined(chunk_views(deep.head@)) + tree_bytes(deep.tree) + joined(
                    chunk_views(deep.tail@),
                ) =~= before + whole);
            },
        }
    }
}

} // verus!
