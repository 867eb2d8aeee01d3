//! Overwriting part of a chunk with a bounded copy, and putting the result back into a list.

use std::collections::VecDeque;

use bytes::Bytes;
use bytes::BytesMut;

use vstd::prelude::*;
use vstd::slice::slice_subrange;

use crate::buffer::reader::Infallible;
use crate::buffer::reader::Steady;
use crate::buffer::writer::slice::overwrite_slice;
use crate::chunks::chunk_views;
use crate::chunks::joined;
use crate::chunks::lemma_joined_at;
use crate::chunks::lemma_joined_concat;
use crate::chunks::lemma_joined_one;
use crate::chunks::lemma_none_empty_concat;
use crate::chunks::none_empty;
use crate::rope::owned::deque_slot;
use crate::shared::buffer_copy;
use crate::shared::buffer_slice_mut;
use crate::shared::buffered;
use crate::shared::chunk_slice;
use crate::shared::chunk_subrange;
use crate::shared::contents;
use crate::shared::frozen;

verus! {

/// The largest shared chunk that is copied whole when a part of it is overwritten. A larger one is
/// split, so that the copy is bounded by the part that changes.
pub const COW_SPLIT_ABOVE: usize = 4096;

/// What replaces a chunk of which a part was overwritten.
pub enum CowEdit {
    /// One chunk.
    InPlace(Bytes),
    /// The untouched front and back of the chunk, where there are any, around the new part.
    Split { prefix: Option<Bytes>, mid: Bytes, suffix: Option<Bytes> },
}

/// `bytes` with the part that starts at `at` overwritten by `new`.
pub open spec fn patched(bytes: Seq<u8>, at: int, new: Seq<u8>) -> Seq<u8> {
    bytes.take(at) + new + bytes.skip(at + new.len())
}

/// The chunk, unless it is empty.
pub open spec fn unless_empty(chunk: Seq<u8>) -> Seq<Seq<u8>> {
    if chunk.len() == 0 {
        Seq::empty()
    } else {
        seq![chunk]
    }
}

/// `pieces` can take the place of a chunk of which the part at `at` was overwritten by `new`: one
/// chunk with all bytes or, of a large chunk, the new part between what is left of the chunk.
pub open spec fn cow_pieces(chunk: Seq<u8>, at: int, new: Seq<u8>, pieces: Seq<Seq<u8>>) -> bool {
    ||| pieces == seq![patched(chunk, at, new)]
    ||| chunk.len() > COW_SPLIT_ABOVE && pieces == unless_empty(chunk.take(at)) + seq![new]
        + unless_empty(chunk.skip(at + new.len()))
}

/// The chunk, if there is one.
pub open spec fn optional(chunk: Option<Bytes>) -> Seq<Bytes> {
    match chunk {
        Some(chunk) => seq![chunk],
        None => Seq::empty(),
    }
}

impl CowEdit {
    /// The chunks that take the place of the one that was edited.
    pub open spec fn pieces(self) -> Seq<Bytes> {
        match self {
            CowEdit::InPlace(chunk) => seq![chunk],
            CowEdit::Split { prefix, mid, suffix } => optional(prefix) + seq![mid] + optional(
                suffix,
            ),
        }
    }
}

/// A piece of a patched sequence that covers two patches in a row.
pub proof fn lemma_patched_twice(bytes: Seq<u8>, at: int, first: Seq<u8>, second: Seq<u8>)
    requires
        0 <= at,
        at + first.len() + second.len() <= bytes.len(),
    ensures
        patched(patched(bytes, at, first), at + first.len(), second) == patched(
            bytes,
            at,
            first + second,
        ),
{
    assert(patched(patched(bytes, at, first), at + first.len(), second) =~= patched(
        bytes,
        at,
        first + second,
    ));
}

/// A patch inside the middle one of three parts.
pub proof fn lemma_patched_inside(
    front: Seq<u8>,
    middle: Seq<u8>,
    back: Seq<u8>,
    at: int,
    new: Seq<u8>,
)
    requires
        0 <= at,
        at + new.len() <= middle.len(),
    ensures
        patched(front + middle + back, front.len() + at, new) == front + patched(middle, at, new)
            + back,
{
    assert(patched(front + middle + back, front.len() + at, new) =~= front + patched(
        middle,
        at,
        new,
    ) + back);
}

/// A patch of nothing changes nothing.
pub proof fn lemma_patched_empty(bytes: Seq<u8>, at: int)
    requires
        0 <= at <= bytes.len(),
    ensures
        patched(bytes, at, Seq::empty()) == bytes,
{
    assert(patched(bytes, at, Seq::empty()) =~= bytes);
}

/// Fills `target` with the next bytes of `value`.
fn fill<R: Steady>(target: &mut [u8], value: &mut R)
    requires
        old(target)@.len() <= old(value).remaining().len(),
    ensures
        final(target)@ == old(value).remaining().take(old(target)@.len() as int),
        final(value).remaining() == old(value).remaining().skip(old(target)@.len() as int),
{
    let len: usize = target.len();
    let ghost source = value.remaining();
    let mut done: usize = 0;
    assert(source.skip(0) =~= source);
    assert(target@.take(0) =~= source.take(0));
    while done < len
        invariant
            done <= len,
            len == target@.len(),
            len <= source.len(),
            target@.take(done as int) == source.take(done as int),
            value.remaining() == source.skip(done as int),
        decreases len - done,
    {
        let ghost before = target@;
        let chunk = value.infallible_read_chunk(len - done);
        let count: usize = chunk.len();
        let (_, rest) = target.split_at_mut(done);
        let (now, _) = rest.split_at_mut(count);
        overwrite_slice(now, chunk.as_slice());
        proof {
            let next = (done + count) as int;
            assert(chunk@ =~= source.subrange(done as int, next));
            assert(target@ =~= before.take(done as int) + chunk@ + before.skip(next));
            assert(target@.take(next) =~= source.take(next)) by {
                assert forall|i: int| 0 <= i < next implies target@.take(next)[i] == source.take(
                    next,
                )[i] by {
                    if i < done {
                        assert(before.take(done as int)[i] == source.take(done as int)[i]);
                    }
                }
            }
            assert(value.remaining() =~= source.skip(next)) by {
                let rest = source.skip(done as int);
                assert(rest == chunk@ + value.remaining());
                assert(rest.len() == chunk@.len() + value.remaining().len());
                assert forall|i: int| 0 <= i < value.remaining().len() implies value.remaining()[i]
                    == source.skip(next)[i] by {
                    assert(rest[count + i] == value.remaining()[i]);
                    assert(rest[count + i] == source[done + count + i]);
                }
            }
        }
        done = done + count;
    }
    assert(target@.take(done as int) =~= target@);
}

/// Overwrites `span` bytes of `buffer` at `at` with the next bytes of `value`.
fn write_span<R: Steady>(buffer: &mut BytesMut, at: usize, span: usize, value: &mut R)
    requires
        at + span <= buffered(*old(buffer)).len(),
        span <= old(value).remaining().len(),
    ensures
        buffered(*final(buffer)) == patched(
            buffered(*old(buffer)),
            at as int,
            old(value).remaining().take(span as int),
        ),
        final(value).remaining() == old(value).remaining().skip(span as int),
{
    let ghost before = buffered(*buffer);
    let slice: &mut [u8] = buffer_slice_mut(buffer);
    let (_, rest) = slice.split_at_mut(at);
    let (target, _) = rest.split_at_mut(span);
    fill(target, value);
    assert(buffered(*buffer) =~= patched(
        before,
        at as int,
        old(value).remaining().take(span as int),
    ));
}

/// Overwrites `span` bytes of `chunk` at `at` with the next bytes of `value`.
///
/// The chunk's own allocation is written where nothing else holds it. A shared chunk is copied,
/// whole if it is small; of a large one only the part that changes is copied, and the rest is
/// shared with it.
pub(crate) fn cow_edit<R: Steady>(chunk: Bytes, at: usize, span: usize, value: &mut R) -> (edit:
    CowEdit)
    requires
        1 <= span,
        at + span <= contents(chunk).len(),
        span <= old(value).remaining().len(),
    ensures
        joined(chunk_views(edit.pieces())) == patched(
            contents(chunk),
            at as int,
            old(value).remaining().take(span as int),
        ),
        none_empty(chunk_views(edit.pieces())),
        cow_pieces(
            contents(chunk),
            at as int,
            old(value).remaining().take(span as int),
            chunk_views(edit.pieces()),
        ),
        1 <= edit.pieces().len() <= 1 + (if at > 0 {
            1int
        } else {
            0
        }) + (if at + span < contents(chunk).len() {
            1int
        } else {
            0
        }),
        final(value).remaining() == old(value).remaining().skip(span as int),
{
    let ghost new = value.remaining().take(span as int);
    match chunk.try_into_mut() {
        Ok(mut buffer) => {
            write_span(&mut buffer, at, span, value);
            let edited = frozen(buffer);
            proof {
                lemma_one_piece(edited);
            }
            CowEdit::InPlace(edited)
        },
        Err(shared) => {
            if shared.len() <= COW_SPLIT_ABOVE {
                let mut buffer = buffer_copy(chunk_slice(&shared));
                write_span(&mut buffer, at, span, value);
                let edited = frozen(buffer);
                proof {
                    lemma_one_piece(edited);
                }
                CowEdit::InPlace(edited)
            } else {
                let end: usize = at + span;
                let len: usize = shared.len();
                let mut buffer = buffer_copy(slice_subrange(chunk_slice(&shared), at, end));
                write_span(&mut buffer, 0, span, value);
                let mid = frozen(buffer);
                proof {
                    let part = contents(shared).subrange(at as int, end as int);
                    assert(patched(part, 0, new) =~= new);
                    lemma_one_piece(mid);
                }
                if at == 0 && end == len {
                    assert(patched(contents(shared), 0, new) =~= new);
                    return CowEdit::InPlace(mid);
                }
                let prefix: Option<Bytes> = if at > 0 {
                    Some(chunk_subrange(&shared, 0, at))
                } else {
                    None
                };
                let suffix: Option<Bytes> = if end < len {
                    Some(chunk_subrange(&shared, end, len))
                } else {
                    None
                };
                proof {
                    lemma_pieces(prefix, mid, suffix);
                    let whole = contents(shared);
                    let front = joined(chunk_views(optional(prefix)));
                    let back = joined(chunk_views(optional(suffix)));
                    assert(front =~= whole.take(at as int));
                    assert(back =~= whole.skip(end as int));
                    assert(front + new + back =~= patched(whole, at as int, new));
                    assert(chunk_views(optional(prefix)) =~= unless_empty(whole.take(at as int)));
                    assert(chunk_views(optional(suffix)) =~= unless_empty(whole.skip(end as int)));
                    assert(chunk_views(optional(prefix) + seq![mid] + optional(suffix))
                        =~= unless_empty(whole.take(at as int)) + seq![new] + unless_empty(
                        whole.skip(end as int),
                    ));
                }
                CowEdit::Split { prefix, mid, suffix }
            }
        },
    }
}

/// A list of one chunk.
proof fn lemma_one_piece(chunk: Bytes)
    ensures
        chunk_views(seq![chunk]) == seq![contents(chunk)],
        joined(chunk_views(seq![chunk])) == contents(chunk),
        none_empty(chunk_views(seq![chunk])) == (contents(chunk).len() > 0),
{
    assert(chunk_views(seq![chunk]) =~= seq![contents(chunk)]);
    lemma_joined_one(contents(chunk));
    if none_empty(chunk_views(seq![chunk])) {
        assert(chunk_views(seq![chunk])[0].len() > 0);
    }
}

/// A list of at most one chunk.
proof fn lemma_optional(chunk: Option<Bytes>)
    ensures
        chunk matches Some(chunk) ==> joined(chunk_views(optional(Some(chunk)))) == contents(chunk)
            && none_empty(chunk_views(optional(Some(chunk)))) == (contents(chunk).len() > 0),
        chunk is None ==> joined(chunk_views(optional(chunk))) == Seq::<u8>::empty() && none_empty(
            chunk_views(optional(chunk)),
        ),
{
    match chunk {
        Some(chunk) => lemma_one_piece(chunk),
        None => {
            assert(chunk_views(optional(chunk)) =~= Seq::<Seq<u8>>::empty());
        },
    }
}

/// What the pieces of a split chunk spell.
proof fn lemma_pieces(prefix: Option<Bytes>, mid: Bytes, suffix: Option<Bytes>)
    requires
        prefix matches Some(chunk) ==> contents(chunk).len() > 0,
        contents(mid).len() > 0,
        suffix matches Some(chunk) ==> contents(chunk).len() > 0,
    ensures
        joined(chunk_views(optional(prefix) + seq![mid] + optional(suffix))) == joined(
            chunk_views(optional(prefix)),
        ) + contents(mid) + joined(chunk_views(optional(suffix))),
        none_empty(chunk_views(optional(prefix) + seq![mid] + optional(suffix))),
        prefix matches Some(chunk) ==> joined(chunk_views(optional(prefix))) == contents(chunk),
        prefix is None ==> joined(chunk_views(optional(prefix))) == Seq::<u8>::empty(),
        suffix matches Some(chunk) ==> joined(chunk_views(optional(suffix))) == contents(chunk),
        suffix is None ==> joined(chunk_views(optional(suffix))) == Seq::<u8>::empty(),
{
    lemma_optional(prefix);
    lemma_one_piece(mid);
    lemma_optional(suffix);
    let a = chunk_views(optional(prefix));
    let b = chunk_views(seq![mid]);
    let c = chunk_views(optional(suffix));
    assert(chunk_views(optional(prefix) + seq![mid] + optional(suffix)) =~= a + b + c);
    lemma_joined_concat(a + b, c);
    lemma_joined_concat(a, b);
    lemma_none_empty_concat(a + b, c);
    lemma_none_empty_concat(a, b);
}

/// What a chunk list becomes when the pieces of an edit take the place of the chunk at `i`.
pub open spec fn replaced(chunks: Seq<Bytes>, i: int, pieces: Seq<Bytes>) -> Seq<Bytes> {
    chunks.take(i) + pieces + chunks.skip(i + 1)
}

/// What a chunk list with a replaced chunk spells.
pub proof fn lemma_replaced(chunks: Seq<Bytes>, i: int, pieces: Seq<Bytes>)
    requires
        0 <= i < chunks.len(),
    ensures
        joined(chunk_views(replaced(chunks, i, pieces))) == joined(chunk_views(chunks.take(i)))
            + joined(chunk_views(pieces)) + joined(chunk_views(chunks.skip(i + 1))),
        none_empty(chunk_views(replaced(chunks, i, pieces))) == (none_empty(
            chunk_views(chunks.take(i)),
        ) && none_empty(chunk_views(pieces)) && none_empty(chunk_views(chunks.skip(i + 1)))),
        joined(chunk_views(chunks)) == joined(chunk_views(chunks.take(i))) + contents(chunks[i])
            + joined(chunk_views(chunks.skip(i + 1))),
        none_empty(chunk_views(chunks)) ==> none_empty(chunk_views(chunks.take(i))) && none_empty(
            chunk_views(chunks.skip(i + 1)),
        ),
{
    let a = chunk_views(chunks.take(i));
    let b = chunk_views(pieces);
    let c = chunk_views(chunks.skip(i + 1));
    assert(chunk_views(replaced(chunks, i, pieces)) =~= a + b + c);
    lemma_joined_concat(a + b, c);
    lemma_joined_concat(a, b);
    lemma_none_empty_concat(a + b, c);
    lemma_none_empty_concat(a, b);
    let all = chunk_views(chunks);
    lemma_joined_at(all, i);
    assert(all.take(i) =~= a);
    assert(all.skip(i + 1) =~= c);
    if none_empty(all) {
        assert forall|j: int| 0 <= j < a.len() implies (#[trigger] a[j]).len() > 0 by {
            assert(all[j] == a[j]);
        }
        assert forall|j: int| 0 <= j < c.len() implies (#[trigger] c[j]).len() > 0 by {
            assert(all[j + i + 1] == c[j]);
        }
    }
}

/// Puts the pieces of an edit in the place of chunk `i`. Returns how many chunks that added.
pub(crate) fn splice_cow_vec(chunks: &mut Vec<Bytes>, i: usize, edit: CowEdit) -> (added: usize)
    requires
        i < old(chunks).len(),
    ensures
        final(chunks)@ == replaced(old(chunks)@, i as int, edit.pieces()),
        added == edit.pieces().len() - 1,
{
    let ghost before = chunks@;
    match edit {
        CowEdit::InPlace(chunk) => {
            chunks.set(i, chunk);
            assert(chunks@ =~= replaced(before, i as int, edit.pieces()));
            0
        },
        CowEdit::Split { prefix, mid, suffix } => {
            chunks.set(i, mid);
            let mut added: usize = 0;
            match suffix {
                Some(chunk) => {
                    chunks.insert(i + 1, chunk);
                    added = added + 1;
                },
                None => {},
            }
            match prefix {
                Some(chunk) => {
                    chunks.insert(i, chunk);
                    added = added + 1;
                },
                None => {},
            }
            assert(chunks@ =~= replaced(before, i as int, edit.pieces()));
            added
        },
    }
}

/// Puts the pieces of an edit in the place of chunk `i`. Returns how many chunks that added.
pub(crate) fn splice_cow_deque(chunks: &mut VecDeque<Bytes>, i: usize, edit: CowEdit) -> (added:
    usize)
    requires
        i < old(chunks).len(),
    ensures
        final(chunks)@ == replaced(old(chunks)@, i as int, edit.pieces()),
        added == edit.pieces().len() - 1,
{
    let ghost before = chunks@;
    match edit {
        CowEdit::InPlace(chunk) => {
            *deque_slot(chunks, i) = chunk;
            assert(chunks@ =~= replaced(before, i as int, edit.pieces()));
            0
        },
        CowEdit::Split { prefix, mid, suffix } => {
            *deque_slot(chunks, i) = mid;
            let mut added: usize = 0;
            match suffix {
                Some(chunk) => {
                    chunks.insert(i + 1, chunk);
                    added = added + 1;
                },
                None => {},
            }
            match prefix {
                Some(chunk) => {
                    chunks.insert(i, chunk);
                    added = added + 1;
                },
                None => {},
            }
            assert(chunks@ =~= replaced(before, i as int, edit.pieces()));
            added
        },
    }
}

/// Puts the pieces of an edit in the place of `head`: the first becomes the new `head`, the others
/// go to the front of `additional`. Returns how many went there.
pub(crate) fn splice_cow_head(
    head: &mut Bytes,
    additional: &mut VecDeque<Bytes>,
    edit: CowEdit,
) -> (added: usize)
    ensures
        seq![*final(head)] + final(additional)@ == edit.pieces() + old(additional)@,
        added == edit.pieces().len() - 1,
{
    let ghost before = additional@;
    match edit {
        CowEdit::InPlace(chunk) => {
            *head = chunk;
            0
        },
        CowEdit::Split { prefix, mid, suffix } => {
            let mut added: usize = 0;
            match suffix {
                Some(chunk) => {
                    additional.push_front(chunk);
                    added = added + 1;
                },
                None => {},
            }
            match prefix {
                Some(chunk) => {
                    additional.push_front(mid);
                    added = added + 1;
                    *head = chunk;
                },
                None => {
                    *head = mid;
                },
            }
            assert(seq![*head] + additional@ =~= edit.pieces() + before);
            added
        },
    }
}

} // verus!
