//! Replacing part of a rope.
//!
//! An edit that keeps the length overwrites the bytes where they are. A small edit inside one chunk
//! of a small rope makes that chunk anew. Any other edit of a small rope cuts its deque and puts the
//! new chunks in between; a deep rope does the same with its tree.

use std::collections::VecDeque;

use bytes::Bytes;
use bytes::BytesMut;

use vstd::prelude::*;
use vstd::slice::slice_subrange;

use crate::buffer::reader::sources::shorter;
use crate::buffer::reader::Chunk;
use crate::buffer::reader::Infallible;
use crate::buffer::reader::Steady;
use crate::chunks::chunk_views;
use crate::chunks::clipped;
use crate::chunks::joined;
use crate::chunks::lemma_clipped_between;
use crate::chunks::lemma_clipped_drop;
use crate::chunks::lemma_clipped_full;
use crate::chunks::lemma_clipped_one;
use crate::chunks::lemma_clipped_skip;
use crate::chunks::lemma_clipped_take;
use crate::chunks::lemma_clipped_twice;
use crate::chunks::lemma_clipped_whole;
use crate::chunks::lemma_joined_at;
use crate::chunks::lemma_joined_concat;
use crate::chunks::lemma_joined_count;
use crate::chunks::lemma_joined_cut;
use crate::chunks::lemma_joined_one;
use crate::chunks::lemma_joined_step;
use crate::chunks::lemma_none_empty_concat;
use crate::chunks::lemma_views_concat;
use crate::chunks::none_empty;
use crate::rope::access::find_in_deque;
use crate::rope::edit::cow_edit;
use crate::rope::edit::lemma_patched_empty;
use crate::rope::edit::lemma_patched_inside;
use crate::rope::edit::lemma_patched_twice;
use crate::rope::edit::lemma_replaced;
use crate::rope::edit::patched;
use crate::rope::edit::replaced;
use crate::rope::edit::splice_cow_deque;
use crate::rope::edit::splice_cow_head;
use crate::rope::edit::unless_empty;
use crate::rope::owned::deque_slot;
use crate::rope::parts::deep_chunks;
use crate::rope::parts::deque_bytes;
use crate::rope::parts::extend_blocks;
use crate::rope::parts::lemma_deep;
use crate::rope::parts::lemma_no_views;
use crate::rope::parts::lemma_views_back;
use crate::rope::parts::lemma_views_front;
use crate::rope::parts::parts_wf;
use crate::rope::parts::repr_chunks;
use crate::rope::parts::repr_wf;
use crate::rope::parts::small_chunks;
use crate::rope::parts::Deep;
use crate::rope::parts::Parts;
use crate::rope::parts::Repr;
use crate::rope::parts::DEMOTE_AT;
use crate::rope::parts::PROMOTE_AT;
use crate::rope::rewrite::lemma_rewritten_concat;
use crate::rope::rewrite::lemma_rewritten_end;
use crate::rope::rewrite::lemma_rewritten_none;
use crate::rope::rewrite::lemma_rewritten_nothing;
use crate::rope::rewrite::lemma_rewritten_piece;
use crate::rope::rewrite::lemma_rewritten_step;
use crate::rope::rewrite::rewritten;
use crate::rope::tree::tree_bytes;
use crate::rope::tree::tree_chunks;
use crate::rope::tree::tree_wf;
use crate::rope::tree::Tree;
use crate::rope::write::lemma_list_step;
use crate::rope::write::lemma_overwrite_step;
use crate::shared::buffered;
use crate::shared::chunk_slice;
use crate::shared::chunk_subrange;
use crate::shared::contents;
use crate::shared::frozen;

verus! {

/// The largest chunk that an edit inside one chunk leaves whole. Below it, the edited chunk is made
/// anew instead of being cut, so that small edits do not fragment the rope.
pub const COALESCE_MAX: usize = 256;

/// `bytes` with the part from `start` to `end` replaced by `new`.
pub open spec fn respliced(bytes: Seq<u8>, start: int, end: int, new: Seq<u8>) -> Seq<u8> {
    bytes.take(start) + new + bytes.skip(end)
}

/// An edit of the bytes from `start` to `end` lies inside the chunk `i` and, with `added` new bytes,
/// leaves a chunk that is small enough to be made anew.
pub open spec fn coalesces(
    chunks: Seq<Seq<u8>>,
    i: int,
    start: int,
    end: int,
    added: int,
) -> bool {
    let before = joined(chunks.take(i)).len();
    &&& 0 <= i < chunks.len()
    &&& before <= start < before + chunks[i].len()
    &&& end <= before + chunks[i].len()
    &&& chunks[i].len() - (end - start) + added <= COALESCE_MAX
}

/// The chunks with the bytes from `start` to `end`, all of them in the chunk `i`, replaced by `new`
/// in that chunk. If nothing is left of it the chunk goes.
pub open spec fn coalesced(
    chunks: Seq<Seq<u8>>,
    i: int,
    start: int,
    end: int,
    new: Seq<u8>,
) -> Seq<Seq<u8>> {
    let before = joined(chunks.take(i)).len();
    chunks.take(i) + unless_empty(respliced(chunks[i], start - before, end - before, new))
        + chunks.skip(i + 1)
}

/// The chunks cut at `start` and `end`, with `runs` in place of what lies between.
pub open spec fn spliced(
    chunks: Seq<Seq<u8>>,
    start: int,
    end: int,
    runs: Seq<Seq<u8>>,
) -> Seq<Seq<u8>> {
    clipped(chunks, 0, start) + runs + clipped(chunks, end, joined(chunks).len() as int)
}

/// What an edit that changes the length makes of the chunks of a rope. A small rope coalesces where
/// it can; otherwise the chunks are cut, and the runs of the new bytes go in between.
pub open spec fn edited_chunks(
    deep: bool,
    chunks: Seq<Seq<u8>>,
    start: int,
    end: int,
    runs: Seq<Seq<u8>>,
    after: Seq<Seq<u8>>,
    deep_after: bool,
) -> bool {
    let new = joined(runs);
    if deep {
        &&& after == spliced(chunks, start, end, runs)
        &&& deep_after == (after.len() > DEMOTE_AT)
    } else if exists|i: int| #[trigger] coalesces(chunks, i, start, end, new.len() as int) {
        &&& !deep_after
        &&& exists|i: int|
            {
                &&& #[trigger] coalesces(chunks, i, start, end, new.len() as int)
                &&& after == coalesced(chunks, i, start, end, new)
            }
    } else {
        &&& after == spliced(chunks, start, end, runs)
        &&& deep_after == (after.len() >= PROMOTE_AT)
    }
}

/// Overwrites `count` bytes at `offset` of what the chunks of a deque spell.
#[verifier::rlimit(40)]
fn overwrite_deque<R: Steady>(
    chunks: &mut VecDeque<Bytes>,
    offset: usize,
    count: usize,
    value: &mut R,
)
    requires
        1 <= count,
        offset + count <= joined(chunk_views(old(chunks)@)).len(),
        joined(chunk_views(old(chunks)@)).len() <= usize::MAX,
        none_empty(chunk_views(old(chunks)@)),
        count <= old(value).remaining().len(),
    ensures
        joined(chunk_views(final(chunks)@)) == patched(
            joined(chunk_views(old(chunks)@)),
            offset as int,
            old(value).remaining().take(count as int),
        ),
        none_empty(chunk_views(final(chunks)@)),
        rewritten(
            chunk_views(old(chunks)@),
            chunk_views(final(chunks)@),
            offset as int,
            old(value).remaining().take(count as int),
        ),
        final(value).remaining() == old(value).remaining().skip(count as int),
{
    let ghost whole = joined(chunk_views(chunks@));
    let ghost source = value.remaining();
    let ghost views = chunk_views(chunks@);
    let (start, start_local) = find_in_deque(chunks, offset);
    let mut idx: usize = start;
    let mut local: usize = start_local;
    let mut remaining: usize = count;
    proof {
        lemma_patched_empty(whole, offset as int);
        assert(source.take(0) =~= Seq::<u8>::empty());
        assert(source.skip(0) =~= source);
        assert(views.take(idx as int) =~= chunk_views(chunks@.take(idx as int)));
        lemma_rewritten_none(views.take(idx as int), offset as int, Seq::empty());
    }
    let ghost mut passed = idx as int;
    while remaining > 0
        invariant
            remaining <= count,
            offset + count <= whole.len() <= usize::MAX,
            count <= source.len(),
            joined(chunk_views(chunks@)) == patched(
                whole,
                offset as int,
                source.take(count - remaining),
            ),
            none_empty(chunk_views(chunks@)),
            value.remaining() == source.skip(count - remaining),
            remaining > 0 ==> idx < chunks@.len() && local < contents(chunks@[idx as int]).len(),
            remaining > 0 ==> joined(chunk_views(chunks@.take(idx as int))).len() + local == offset
                + (count - remaining),
            views == chunk_views(old(chunks)@),
            0 <= passed <= views.len(),
            rewritten(
                views.take(passed),
                chunk_views(chunks@.take(idx as int)),
                offset as int,
                source.take(count - remaining),
            ),
            0 <= idx <= chunks@.len(),
            chunks@.skip(idx as int) == old(chunks)@.skip(passed),
            remaining > 0 ==> joined(views.take(passed)).len() + local == offset + (count
                - remaining),
            remaining < count ==> local == 0,
            remaining == 0 ==> offset + count <= joined(views.take(passed)).len(),
        decreases remaining,
    {
        let ghost done = source.take(count - remaining);
        let ghost before = chunks@;
        let len: usize = chunks[idx].len();
        let here: usize = shorter(len - local, remaining);
        let mut taken = Bytes::new();
        std::mem::swap(&mut taken, deque_slot(chunks, idx));
        let ghost next = value.remaining().take(here as int);
        let edit = cow_edit(taken, local, here, value);
        let ghost pieces = edit.pieces();
        proof {
            lemma_overwrite_step(
                whole,
                offset as int,
                done,
                before,
                idx as int,
                local as int,
                next,
                pieces,
            );
            assert(done + next =~= source.take(count - remaining + here));
            assert(source.skip(count - remaining).skip(here as int) =~= source.skip(
                count - remaining + here,
            ));
            assert(replaced(chunks@, idx as int, pieces) =~= replaced(before, idx as int, pieces));
            lemma_replaced(before, idx as int, pieces);
            lemma_list_step(
                old(chunks)@,
                before,
                passed,
                idx as int,
                offset as int,
                done,
                local as int,
                next,
                pieces,
            );
            passed = passed + 1;
        }
        let more: usize = splice_cow_deque(chunks, idx, edit);
        // The number of chunks is a `usize`, so the next index is one too.
        let _count: usize = chunks.len();
        remaining = remaining - here;
        idx = idx + 1 + more;
        local = 0;
        proof {
            assert(chunks@.take(idx as int) =~= before.take((idx - 1 - more) as int) + pieces);
            assert(chunks@.skip(idx as int) =~= before.skip(idx - more));
            if remaining > 0 {
                let all = chunk_views(chunks@);
                let at = (idx - 1 - more) as int;
                assert(chunks@.take(idx as int) =~= replaced(before, at, pieces).take(
                    at + pieces.len(),
                ));
                lemma_joined_cut(all, idx as int);
                assert(all.take(idx as int) =~= chunk_views(chunks@.take(idx as int)));
                if idx >= chunks@.len() {
                    assert(all.skip(idx as int) =~= Seq::<Seq<u8>>::empty());
                    assert(false);
                }
                assert(all[idx as int].len() > 0);
            }
        }
    }
    proof {
        lemma_rewritten_end(
            views.take(passed),
            chunk_views(chunks@.take(idx as int)),
            views.skip(passed),
            offset as int,
            source.take(count as int),
        );
        assert(views.take(passed) + views.skip(passed) =~= views);
        assert(chunk_views(chunks@.take(idx as int)) + views.skip(passed) =~= chunk_views(chunks@))
            by {
            lemma_views_concat(chunks@.take(idx as int), chunks@.skip(idx as int));
            assert(chunks@.take(idx as int) + chunks@.skip(idx as int) =~= chunks@);
            assert(chunk_views(old(chunks)@.skip(passed)) =~= views.skip(passed));
        }
    }
}

/// All chunks of a small rope in one deque.
fn unify(head: Bytes, additional: VecDeque<Bytes>) -> (chunks: VecDeque<Bytes>)
    requires
        repr_wf((Repr::Small { head, additional })),
    ensures
        chunk_views(chunks@) == small_chunks(head, additional@),
        none_empty(chunk_views(chunks@)),
{
    let mut chunks = additional;
    proof {
        lemma_no_views();
        lemma_views_front(head, chunks@);
    }
    if !head.is_empty() {
        chunks.push_front(head);
    } else {
        assert(chunks@ =~= Seq::<Bytes>::empty());
    }
    chunks
}

/// A small rope over the chunks of a deque.
fn from_deque(chunks: VecDeque<Bytes>, len: usize) -> (parts: Parts)
    requires
        none_empty(chunk_views(chunks@)),
        len == joined(chunk_views(chunks@)).len(),
    ensures
        parts_wf(parts),
        repr_chunks(parts.repr) == chunk_views(chunks@),
        !(parts.repr is Deep),
{
    let ghost all = chunks@;
    let mut additional = chunks;
    proof {
        lemma_no_views();
    }
    match additional.pop_front() {
        Some(head) => {
            proof {
                assert(seq![head] + additional@ =~= all);
                lemma_views_front(head, additional@);
            }
            Parts { len, repr: Repr::Small { head, additional } }
        },
        None => {
            assert(all =~= Seq::<Bytes>::empty());
            Parts { len, repr: Repr::Small { head: Bytes::new(), additional } }
        },
    }
}

/// The sections of two deep ropes have the same lengths.
pub open spec fn same_sections(a: Deep, b: Deep) -> bool {
    &&& joined(chunk_views(a.head@)).len() == joined(chunk_views(b.head@)).len()
    &&& tree_bytes(a.tree).len() == tree_bytes(b.tree).len()
    &&& joined(chunk_views(a.tail@)).len() == joined(chunk_views(b.tail@)).len()
}

/// Overwrites `count` bytes at `offset` of the first section of a deep rope.
fn overwrite_head<R: Steady>(deep: Box<Deep>, offset: usize, count: usize, value: &mut R) -> (after:
    Box<Deep>)
    requires
        repr_wf(Repr::Deep(deep)),
        1 <= count,
        offset + count <= joined(chunk_views(deep.head@)).len(),
        joined(deep_chunks(*deep)).len() <= usize::MAX,
        count <= old(value).remaining().len(),
    ensures
        repr_wf(Repr::Deep(after)),
        same_sections(*deep, *after),
        joined(deep_chunks(*after)) == patched(
            joined(deep_chunks(*deep)),
            offset as int,
            old(value).remaining().take(count as int),
        ),
        after.tree == deep.tree,
        after.tail == deep.tail,
        rewritten(
            chunk_views(deep.head@),
            chunk_views(after.head@),
            offset as int,
            old(value).remaining().take(count as int),
        ),
        final(value).remaining() == old(value).remaining().skip(count as int),
{
    let ghost new = value.remaining().take(count as int);
    let ghost a = joined(chunk_views(deep.head@));
    let ghost b = tree_bytes(deep.tree);
    let ghost c = joined(chunk_views(deep.tail@));
    proof {
        lemma_deep(*deep);
        lemma_regroup(a, b, c);
        lemma_patched_inside(Seq::empty(), a, b + c, offset as int, new);
        lemma_regroup(patched(a, offset as int, new), b, c);
    }
    let mut deep = deep;
    overwrite_deque(&mut deep.head, offset, count, value);
    proof {
        lemma_deep(*deep);
    }
    deep
}

/// Overwrites `count` bytes at `offset` of the tree of a deep rope.
fn overwrite_tree<R: Steady>(deep: Box<Deep>, offset: usize, count: usize, value: &mut R) -> (after:
    Box<Deep>)
    requires
        repr_wf(Repr::Deep(deep)),
        1 <= count,
        offset + count <= tree_bytes(deep.tree).len(),
        joined(deep_chunks(*deep)).len() <= usize::MAX,
        count <= old(value).remaining().len(),
    ensures
        repr_wf(Repr::Deep(after)),
        same_sections(*deep, *after),
        joined(deep_chunks(*after)) == patched(
            joined(deep_chunks(*deep)),
            joined(chunk_views(deep.head@)).len() + offset,
            old(value).remaining().take(count as int),
        ),
        after.head == deep.head,
        after.tail == deep.tail,
        rewritten(
            tree_chunks(deep.tree),
            tree_chunks(after.tree),
            offset as int,
            old(value).remaining().take(count as int),
        ),
        final(value).remaining() == old(value).remaining().skip(count as int),
{
    let ghost new = value.remaining().take(count as int);
    let ghost a = joined(chunk_views(deep.head@));
    let ghost b = tree_bytes(deep.tree);
    let ghost c = joined(chunk_views(deep.tail@));
    proof {
        lemma_deep(*deep);
        lemma_patched_inside(a, b, c, offset as int, new);
    }
    let mut deep = deep;
    deep.tree.overwrite(offset, count, value);
    proof {
        lemma_deep(*deep);
    }
    deep
}

/// Overwrites `count` bytes at `offset` of the last section of a deep rope.
fn overwrite_tail<R: Steady>(deep: Box<Deep>, offset: usize, count: usize, value: &mut R) -> (after:
    Box<Deep>)
    requires
        repr_wf(Repr::Deep(deep)),
        1 <= count,
        offset + count <= joined(chunk_views(deep.tail@)).len(),
        joined(deep_chunks(*deep)).len() <= usize::MAX,
        count <= old(value).remaining().len(),
    ensures
        repr_wf(Repr::Deep(after)),
        same_sections(*deep, *after),
        joined(deep_chunks(*after)) == patched(
            joined(deep_chunks(*deep)),
            joined(chunk_views(deep.head@)).len() + tree_bytes(deep.tree).len() + offset,
            old(value).remaining().take(count as int),
        ),
        after.head == deep.head,
        after.tree == deep.tree,
        rewritten(
            chunk_views(deep.tail@),
            chunk_views(after.tail@),
            offset as int,
            old(value).remaining().take(count as int),
        ),
        final(value).remaining() == old(value).remaining().skip(count as int),
{
    let ghost new = value.remaining().take(count as int);
    let ghost a = joined(chunk_views(deep.head@));
    let ghost b = tree_bytes(deep.tree);
    let ghost c = joined(chunk_views(deep.tail@));
    proof {
        lemma_deep(*deep);
        lemma_regroup(a, b, c);
        lemma_patched_inside(a + b, c, Seq::empty(), offset as int, new);
        lemma_regroup(a, b, patched(c, offset as int, new));
    }
    let mut deep = deep;
    overwrite_deque(&mut deep.tail, offset, count, value);
    proof {
        lemma_deep(*deep);
    }
    deep
}

/// Three parts in a row, with nothing in front or behind.
proof fn lemma_regroup(a: Seq<u8>, b: Seq<u8>, c: Seq<u8>)
    ensures
        Seq::<u8>::empty() + a + (b + c) == a + b + c,
        a + b + c + Seq::<u8>::empty() == a + b + c,
{
    assert(Seq::<u8>::empty() + a + (b + c) =~= a + b + c);
    assert(a + b + c + Seq::<u8>::empty() =~= a + b + c);
}

/// The chunks of a deep rope: those of its first section, then the others.
proof fn lemma_deep_sections(deep: Deep)
    ensures
        deep_chunks(deep) == chunk_views(deep.head@) + (tree_chunks(deep.tree) + chunk_views(
            deep.tail@,
        )),
{
    assert(deep_chunks(deep) =~= chunk_views(deep.head@) + (tree_chunks(deep.tree) + chunk_views(
        deep.tail@,
    )));
}

/// See [`lemma_deep_sections`], for every deep rope.
proof fn lemma_all_deep_sections()
    ensures
        forall|deep: Deep|
            #[trigger] deep_chunks(deep) == chunk_views(deep.head@) + (tree_chunks(deep.tree)
                + chunk_views(deep.tail@)),
{
    assert forall|deep: Deep|
        #[trigger] deep_chunks(deep) == chunk_views(deep.head@) + (tree_chunks(deep.tree)
            + chunk_views(deep.tail@)) by {
        lemma_deep_sections(deep);
    }
}

/// Overwrites `count` bytes at `start` of a deep rope: in the first deque, in the tree and in the
/// last deque, as far as they are covered.
fn overwrite_deep<R: Steady>(deep: Box<Deep>, start: usize, count: usize, value: &mut R) -> (after:
    Box<Deep>)
    requires
        repr_wf(Repr::Deep(deep)),
        1 <= count,
        start + count <= joined(deep_chunks(*deep)).len(),
        joined(deep_chunks(*deep)).len() <= usize::MAX,
        count <= old(value).remaining().len(),
    ensures
        repr_wf(Repr::Deep(after)),
        joined(deep_chunks(*after)) == patched(
            joined(deep_chunks(*deep)),
            start as int,
            old(value).remaining().take(count as int),
        ),
        rewritten(
            deep_chunks(*deep),
            deep_chunks(*after),
            start as int,
            old(value).remaining().take(count as int),
        ),
        final(value).remaining() == old(value).remaining().skip(count as int),
{
    let ghost whole = joined(deep_chunks(*deep));
    let ghost source = value.remaining();
    proof {
        lemma_deep(*deep);
    }
    let head_bytes: usize = deque_bytes(&deep.head);
    let ghost head = chunk_views(deep.head@);
    let ghost rest = tree_chunks(deep.tree) + chunk_views(deep.tail@);
    let ghost new = source.take(count as int);
    proof {
        lemma_deep_sections(*deep);
        lemma_all_deep_sections();
    }
    if start >= head_bytes {
        proof {
            lemma_rewritten_none(head, start as int, new);
            assert forall|after: Seq<Seq<u8>>|
                #[trigger] rewritten(rest, after, start - head_bytes, new) implies rewritten(
                head + rest,
                head + after,
                start as int,
                new,
            ) by {
                lemma_rewritten_concat(head, head, rest, after, start as int, new);
            }
        }
        return overwrite_rest(deep, start - head_bytes, count, value);
    }
    let here: usize = shorter(head_bytes - start, count);
    let now = overwrite_head(deep, start, here, value);
    let ghost head_after = chunk_views(now.head@);
    if here == count {
        proof {
            lemma_rewritten_end(head, head_after, rest, start as int, new);
        }
        return now;
    }
    proof {
        let done = source.take(here as int);
        let next = source.skip(here as int).take(count - here);
        assert(done + next =~= new);
        assert forall|after: Seq<Seq<u8>>| #[trigger] rewritten(rest, after, 0, next) implies rewritten(
            head + rest,
            head_after + after,
            start as int,
            new,
        ) by {
            lemma_rewritten_step(head, head_after, rest, after, start as int, done, 0, next);
        }
        lemma_overwritten(whole, start as int, source, here as int, count - here);
    }
    overwrite_rest(now, 0, count - here, value)
}

/// Overwrites `count` bytes of a deep rope, `offset` bytes behind its first section.
fn overwrite_rest<R: Steady>(deep: Box<Deep>, offset: usize, count: usize, value: &mut R) -> (after:
    Box<Deep>)
    requires
        repr_wf(Repr::Deep(deep)),
        1 <= count,
        joined(chunk_views(deep.head@)).len() + offset + count <= joined(deep_chunks(*deep)).len(),
        joined(deep_chunks(*deep)).len() <= usize::MAX,
        count <= old(value).remaining().len(),
    ensures
        repr_wf(Repr::Deep(after)),
        joined(deep_chunks(*after)) == patched(
            joined(deep_chunks(*deep)),
            joined(chunk_views(deep.head@)).len() + offset,
            old(value).remaining().take(count as int),
        ),
        after.head == deep.head,
        rewritten(
            tree_chunks(deep.tree) + chunk_views(deep.tail@),
            tree_chunks(after.tree) + chunk_views(after.tail@),
            offset as int,
            old(value).remaining().take(count as int),
        ),
        final(value).remaining() == old(value).remaining().skip(count as int),
{
    let ghost whole = joined(deep_chunks(*deep));
    let ghost source = value.remaining();
    let ghost start = joined(chunk_views(deep.head@)).len() + offset;
    proof {
        lemma_deep(*deep);
    }
    let tree_len: usize = deep.tree.byte_len();
    let ghost middle = tree_chunks(deep.tree);
    let ghost back = chunk_views(deep.tail@);
    let ghost new = source.take(count as int);
    if offset >= tree_len {
        proof {
            lemma_rewritten_none(middle, offset as int, new);
            assert forall|after: Seq<Seq<u8>>|
                #[trigger] rewritten(back, after, offset - tree_len, new) implies rewritten(
                middle + back,
                middle + after,
                offset as int,
                new,
            ) by {
                lemma_rewritten_concat(middle, middle, back, after, offset as int, new);
            }
        }
        return overwrite_tail(deep, offset - tree_len, count, value);
    }
    let here: usize = shorter(tree_len - offset, count);
    let now = overwrite_tree(deep, offset, here, value);
    let ghost middle_after = tree_chunks(now.tree);
    if here == count {
        proof {
            lemma_rewritten_end(middle, middle_after, back, offset as int, new);
        }
        return now;
    }
    proof {
        let done = source.take(here as int);
        let next = source.skip(here as int).take(count - here);
        assert(done + next =~= new);
        assert forall|after: Seq<Seq<u8>>| #[trigger] rewritten(back, after, 0, next) implies rewritten(
            middle + back,
            middle_after + after,
            offset as int,
            new,
        ) by {
            lemma_rewritten_step(middle, middle_after, back, after, offset as int, done, 0, next);
        }
        lemma_deep(*now);
        lemma_overwritten(whole, start, source, here as int, count - here);
    }
    overwrite_tail(now, 0, count - here, value)
}

/// An overwrite that used the first `done` items of a source goes on with the next `here`.
proof fn lemma_overwritten(whole: Seq<u8>, start: int, source: Seq<u8>, done: int, here: int)
    requires
        0 <= start,
        0 <= done,
        0 <= here,
        done + here <= source.len(),
        start + done + here <= whole.len(),
    ensures
        patched(
            patched(whole, start, source.take(done)),
            start + done,
            source.skip(done).take(here),
        ) == patched(whole, start, source.take(done + here)),
        source.skip(done).skip(here) == source.skip(done + here),
        patched(whole, start, source.take(done)).len() == whole.len(),
{
    let next = source.skip(done).take(here);
    lemma_patched_twice(whole, start, source.take(done), next);
    assert(source.take(done) + next =~= source.take(done + here));
    assert(source.skip(done).skip(here) =~= source.skip(done + here));
}

/// Overwrites `count` bytes at `offset` of the first chunk of a small rope.
fn overwrite_first<R: Steady>(
    head: Bytes,
    additional: VecDeque<Bytes>,
    len: usize,
    offset: usize,
    count: usize,
    value: &mut R,
) -> (parts: Parts)
    requires
        repr_wf((Repr::Small { head, additional })),
        len == joined(small_chunks(head, additional@)).len(),
        1 <= count,
        offset + count <= contents(head).len(),
        count <= old(value).remaining().len(),
    ensures
        parts_wf(parts),
        joined(repr_chunks(parts.repr)) == patched(
            joined(small_chunks(head, additional@)),
            offset as int,
            old(value).remaining().take(count as int),
        ),
        !(parts.repr is Deep),
        rewritten(
            small_chunks(head, additional@),
            repr_chunks(parts.repr),
            offset as int,
            old(value).remaining().take(count as int),
        ),
        final(value).remaining() == old(value).remaining().skip(count as int),
{
    let ghost first = contents(head);
    let ghost rest = additional@;
    let ghost new = value.remaining().take(count as int);
    let edit = cow_edit(head, offset, count, value);
    let ghost pieces = edit.pieces();
    let mut front = Bytes::new();
    let mut additional = additional;
    let _added: usize = splice_cow_head(&mut front, &mut additional, edit);
    proof {
        lemma_views_front(front, additional@);
        lemma_views_front(head, rest);
        lemma_views_concat(pieces, rest);
        lemma_joined_concat(chunk_views(pieces), chunk_views(rest));
        lemma_none_empty_concat(chunk_views(pieces), chunk_views(rest));
        let others = joined(chunk_views(rest));
        lemma_rewritten_piece(first, offset as int, new, chunk_views(pieces));
        lemma_joined_one(first);
        lemma_rewritten_end(
            seq![first],
            chunk_views(pieces),
            chunk_views(rest),
            offset as int,
            new,
        );
        lemma_patched_inside(Seq::<u8>::empty(), first, others, offset as int, new);
        assert(Seq::<u8>::empty() + first + others =~= first + others);
        assert(Seq::<u8>::empty() + patched(first, offset as int, new) + others =~= patched(
            first,
            offset as int,
            new,
        ) + others);
        assert(patched(first, offset as int, new).len() == first.len());
    }
    Parts { len, repr: Repr::Small { head: front, additional } }
}

impl Parts {
    /// Overwrites `count` bytes at `start` with the next bytes of `value`.
    pub(crate) fn overwrite_range<R: Steady>(self, start: usize, count: usize, value: &mut R) -> (
    parts: Self)
        requires
            parts_wf(self),
            1 <= count,
            start + count <= self.len,
            count <= old(value).remaining().len(),
        ensures
            parts_wf(parts),
            joined(repr_chunks(parts.repr)) == patched(
                joined(repr_chunks(self.repr)),
                start as int,
                old(value).remaining().take(count as int),
            ),
            rewritten(
                repr_chunks(self.repr),
                repr_chunks(parts.repr),
                start as int,
                old(value).remaining().take(count as int),
            ),
            parts.repr is Deep == self.repr is Deep,
            final(value).remaining() == old(value).remaining().skip(count as int),
    {
        let len: usize = self.len;
        let parts = match self.repr {
            Repr::Small { head, additional } => {
                if start < head.len() && count <= head.len() - start {
                    overwrite_first(head, additional, len, start, count, value)
                } else {
                    let mut chunks = unify(head, additional);
                    overwrite_deque(&mut chunks, start, count, value);
                    from_deque(chunks, len)
                }
            },
            Repr::Deep(deep) => {
                let deep = overwrite_deep(deep, start, count, value);
                Parts { len, repr: Repr::Deep(deep) }
            },
        };
        parts
    }
}

/// Moves every byte of `value` to the back of a deque of chunks. Owned chunks are not copied.
fn drain_into<R: Steady>(value: &mut R, chunks: &mut VecDeque<Bytes>)
    requires
        none_empty(chunk_views(old(chunks)@)),
        old(value).remaining().len() <= usize::MAX,
    ensures
        none_empty(chunk_views(final(chunks)@)),
        chunk_views(final(chunks)@) == chunk_views(old(chunks)@) + old(value).runs(),
        joined(chunk_views(final(chunks)@)) == joined(chunk_views(old(chunks)@)) + old(
            value,
        ).remaining(),
        final(value).remaining() == Seq::<u8>::empty(),
{
    let ghost source = value.remaining();
    let ghost before = joined(chunk_views(chunks@));
    let ghost list = chunk_views(chunks@);
    let ghost runs = value.runs();
    loop
        invariant
            none_empty(chunk_views(chunks@)),
            joined(chunk_views(chunks@)) + value.remaining() == before + source,
            chunk_views(chunks@) + value.runs() == list + runs,
            value.remaining().len() <= usize::MAX,
        ensures
            none_empty(chunk_views(chunks@)),
            joined(chunk_views(chunks@)) == before + source,
            chunk_views(chunks@) == list + runs,
            value.remaining() == Seq::<u8>::empty(),
        decreases value.remaining().len(),
    {
        let ghost rest = value.remaining();
        let ghost left = value.runs();
        let ghost held = chunks@;
        proof {
            value.lemma_runs();
            lemma_joined_count(left);
            if left.len() > 0 {
                lemma_joined_at(left, 0);
                lemma_clipped_drop(left, 1, 0);
                assert(left.take(1) =~= seq![left[0]]);
                lemma_joined_one(left[0]);
                lemma_none_empty_concat(left.take(1), left.skip(1));
                assert(left.take(1) + left.skip(1) =~= left);
                lemma_clipped_whole(left.skip(1));
            }
        }
        let chunk = value.infallible_read_chunk(usize::MAX);
        let next = match chunk {
            Chunk::Slice(slice) => Bytes::copy_from_slice(slice),
            Chunk::Bytes(bytes) => bytes,
            Chunk::BytesMut(bytes) => frozen(bytes),
        };
        if next.is_empty() {
            proof {
                assert(value.remaining() =~= Seq::<u8>::empty());
                assert(joined(chunk_views(chunks@)) + value.remaining() =~= joined(
                    chunk_views(chunks@),
                ));
                value.lemma_runs();
                lemma_joined_count(value.runs());
                assert(chunk_views(chunks@) + value.runs() =~= chunk_views(chunks@));
            }
            break;
        }
        proof {
            lemma_views_back(held, next);
            assert(joined(chunk_views(held)) + contents(next) + value.remaining() =~= joined(
                chunk_views(held),
            ) + rest);
            assert(contents(next) == left[0]);
            assert(chunk_views(held).push(contents(next)) + left.skip(1) =~= chunk_views(held)
                + left);
        }
        chunks.push_back(next);
    }
}

/// The chunk that `offset` falls into and the place in it; the end of the deque is behind its last
/// chunk.
fn locate(chunks: &VecDeque<Bytes>, len: usize, offset: usize) -> (place: (usize, usize))
    requires
        len == joined(chunk_views(chunks@)).len(),
        offset <= len,
    ensures
        place.0 <= chunks@.len(),
        place.0 < chunks@.len() ==> place.1 < contents(chunks@[place.0 as int]).len(),
        place.0 == chunks@.len() ==> place.1 == 0,
        offset == joined(chunk_views(chunks@).take(place.0 as int)).len() + place.1,
{
    if offset == len {
        assert(chunk_views(chunks@).take(chunks@.len() as int) =~= chunk_views(chunks@));
        (chunks.len(), 0)
    } else {
        find_in_deque(chunks, offset)
    }
}

/// The bytes before a place in a deque of chunks, and the bytes from it on.
proof fn lemma_place(chunks: Seq<Bytes>, i: int, local: int)
    requires
        0 <= i <= chunks.len(),
        i < chunks.len() ==> 0 <= local < contents(chunks[i]).len(),
        i == chunks.len() ==> local == 0,
    ensures
        ({
            let whole = joined(chunk_views(chunks));
            let at = joined(chunk_views(chunks).take(i)).len() + local;
            &&& 0 <= at <= whole.len()
            &&& joined(chunk_views(chunks.take(i))) == joined(chunk_views(chunks).take(i))
            &&& i < chunks.len() ==> {
                &&& whole.take(at) == joined(chunk_views(chunks.take(i))) + contents(
                    chunks[i],
                ).take(local)
                &&& whole.skip(at) == contents(chunks[i]).skip(local) + joined(
                    chunk_views(chunks.skip(i + 1)),
                )
                &&& joined(chunk_views(chunks).take(i)).len() + contents(chunks[i]).len()
                    <= whole.len()
            }
            &&& i == chunks.len() ==> {
                &&& whole.take(at) == joined(chunk_views(chunks.take(i)))
                &&& whole.skip(at) == Seq::<u8>::empty()
            }
        }),
{
    let views = chunk_views(chunks);
    let whole = joined(views);
    let at = joined(views.take(i)).len() + local;
    assert(views.take(i) =~= chunk_views(chunks.take(i)));
    if i < chunks.len() {
        lemma_joined_at(views, i);
        assert(views.skip(i + 1) =~= chunk_views(chunks.skip(i + 1)));
        let front = joined(chunk_views(chunks.take(i)));
        let own = contents(chunks[i]);
        let back = joined(chunk_views(chunks.skip(i + 1)));
        assert(whole =~= front + own + back);
        assert(whole.take(at) =~= front + own.take(local));
        assert(whole.skip(at) =~= own.skip(local) + back);
    } else {
        assert(views.take(i) =~= views);
        assert(whole.take(at) =~= whole);
        assert(whole.skip(at) =~= Seq::<u8>::empty());
    }
}

/// Makes the chunk at `i` anew: its bytes before `from`, then all of `value`, then its bytes from
/// `to` on. If nothing is left the chunk goes.
fn splice_one_chunk<R: Steady>(
    chunks: &mut VecDeque<Bytes>,
    i: usize,
    from: usize,
    to: usize,
    value: &mut R,
)
    requires
        i < old(chunks)@.len(),
        from <= to <= contents(old(chunks)@[i as int]).len(),
        contents(old(chunks)@[i as int]).len() - (to - from) + old(value).remaining().len()
            <= COALESCE_MAX,
        none_empty(chunk_views(old(chunks)@)),
    ensures
        none_empty(chunk_views(final(chunks)@)),
        joined(chunk_views(final(chunks)@)) == joined(chunk_views(old(chunks)@.take(i as int)))
            + respliced(
            contents(old(chunks)@[i as int]),
            from as int,
            to as int,
            old(value).remaining(),
        ) + joined(chunk_views(old(chunks)@.skip(i + 1))),
        chunk_views(final(chunks)@) == chunk_views(old(chunks)@).take(i as int) + unless_empty(
            respliced(
                contents(old(chunks)@[i as int]),
                from as int,
                to as int,
                old(value).remaining(),
            ),
        ) + chunk_views(old(chunks)@).skip(i + 1),
        final(value).remaining() == Seq::<u8>::empty(),
{
    let ghost before = chunks@;
    let ghost own = contents(before[i as int]);
    let ghost new = value.remaining();
    let len: usize = chunks[i].len();
    let mut buffer = BytesMut::with_capacity(COALESCE_MAX);
    buffer.extend_from_slice(slice_subrange(chunk_slice(&chunks[i]), 0, from));
    let ghost front = buffered(buffer);
    assert(front =~= own.take(from as int));
    value.infallible_copy_into(&mut buffer);
    proof {
        let gain = crate::buffer::reader::gained(front, buffered(buffer));
        assert(new =~= gain + value.remaining());
        assert(value.remaining().len() == 0);
        assert(gain =~= new);
        assert(value.remaining() =~= Seq::<u8>::empty());
        assert(buffered(buffer) =~= front + new);
    }
    buffer.extend_from_slice(slice_subrange(chunk_slice(&chunks[i]), to, len));
    proof {
        assert(own.subrange(to as int, len as int) =~= own.skip(to as int));
        assert(buffered(buffer) =~= respliced(own, from as int, to as int, new));
    }
    let chunk = frozen(buffer);
    if chunk.is_empty() {
        let _ = chunks.remove(i);
        proof {
            lemma_no_views();
            let none = Seq::<Bytes>::empty();
            lemma_replaced(before, i as int, none);
            assert(chunks@ =~= replaced(before, i as int, none));
            assert(contents(chunk) =~= Seq::<u8>::empty());
            assert(chunk_views(chunks@) =~= chunk_views(before).take(i as int)
                + Seq::<Seq<u8>>::empty() + chunk_views(before).skip(i + 1));
        }
    } else {
        proof {
            lemma_no_views();
            let one = seq![chunk];
            lemma_replaced(before, i as int, one);
            assert(before.update(i as int, chunk) =~= replaced(before, i as int, one));
            lemma_views_front(chunk, Seq::empty());
            assert(seq![chunk] + Seq::<Bytes>::empty() =~= one);
            assert(contents(chunk) + Seq::<u8>::empty() =~= contents(chunk));
        }
        *deque_slot(chunks, i) = chunk;
        assert(chunk_views(chunks@) =~= chunk_views(before).take(i as int) + seq![contents(chunk)]
            + chunk_views(before).skip(i + 1));
    }
}

/// What a list that was cut and joined spells.
proof fn lemma_spliced(chunks: Seq<Seq<u8>>, start: int, end: int, runs: Seq<Seq<u8>>)
    requires
        0 <= start <= end <= joined(chunks).len(),
    ensures
        joined(spliced(chunks, start, end, runs)) == respliced(
            joined(chunks),
            start,
            end,
            joined(runs),
        ),
{
    let front = clipped(chunks, 0, start);
    let back = clipped(chunks, end, joined(chunks).len() as int);
    lemma_joined_concat(front + runs, back);
    lemma_joined_concat(front, runs);
    lemma_clipped_take(chunks, start);
    lemma_clipped_skip(chunks, end);
}

/// Replaces the bytes from `start` to `end` of what the chunks of a deque spell: the deque is cut at
/// both places, and the chunks of `value` go in between.
fn splice_flat<R: Steady>(
    chunks: VecDeque<Bytes>,
    len: usize,
    start: usize,
    end: usize,
    value: &mut R,
) -> (after: VecDeque<Bytes>)
    requires
        none_empty(chunk_views(chunks@)),
        len == joined(chunk_views(chunks@)).len(),
        start <= end <= len,
        old(value).remaining().len() <= usize::MAX,
    ensures
        none_empty(chunk_views(after@)),
        chunk_views(after@) == spliced(
            chunk_views(chunks@),
            start as int,
            end as int,
            old(value).runs(),
        ),
        joined(chunk_views(after@)) == respliced(
            joined(chunk_views(chunks@)),
            start as int,
            end as int,
            old(value).remaining(),
        ),
        final(value).remaining() == Seq::<u8>::empty(),
{
    let ghost all = chunks@;
    let ghost views = chunk_views(chunks@);
    proof {
        value.lemma_runs();
        lemma_spliced(views, start as int, end as int, value.runs());
    }
    let mut chunks = chunks;
    let (si, so) = locate(&chunks, len, start);
    let (ei, eo) = locate(&chunks, len, end);
    proof {
        lemma_place_cut(all, si as int, so as int);
        lemma_place_cut(all, ei as int, eo as int);
        lemma_order(all, si as int, so as int, ei as int, eo as int);
        lemma_clipped_full(views, 0, start as int);
        lemma_clipped_full(views, end as int, len as int);
    }
    let prefix: Option<Bytes> = if so > 0 {
        Some(chunk_subrange(&chunks[si], 0, so))
    } else {
        None
    };
    let suffix: Option<Bytes> = if ei < chunks.len() {
        Some(chunk_subrange(&chunks[ei], eo, chunks[ei].len()))
    } else {
        None
    };
    let rest_at: usize = if ei < chunks.len() {
        ei + 1
    } else {
        chunks.len()
    };
    let tail = chunks.split_off(rest_at);
    chunks.truncate(si);
    proof {
        assert(chunks@ =~= all.take(si as int));
        assert(tail@ =~= all.skip(rest_at as int));
        if so > 0 {
            let own = contents(all[si as int]);
            assert(own.subrange(0, so as int) =~= own.take(so as int));
        }
        if ei < all.len() {
            let own = contents(all[ei as int]);
            assert(own.subrange(eo as int, own.len() as int) =~= own.skip(eo as int));
        } else {
            lemma_no_views();
            assert(tail@ =~= Seq::<Bytes>::empty());
        }
        assert(chunk_views(chunks@) + piece_list(prefix) =~= clipped(views, 0, start as int));
        assert(piece_list(suffix) + chunk_views(tail@) =~= clipped(views, end as int, len as int));
        lemma_none_empty_concat(piece_list(suffix), chunk_views(tail@));
    }
    match prefix {
        Some(chunk) => {
            proof {
                lemma_views_back(chunks@, chunk);
                assert(chunk_views(chunks@).push(contents(chunk)) =~= chunk_views(chunks@)
                    + piece_list(prefix));
            }
            chunks.push_back(chunk);
        },
        None => {
            assert(chunk_views(chunks@) + piece_list(prefix) =~= chunk_views(chunks@));
        },
    }
    drain_into(value, &mut chunks);
    proof {
        assert(chunk_views(chunks@) + piece_list(suffix) + chunk_views(tail@) =~= chunk_views(
            chunks@,
        ) + (piece_list(suffix) + chunk_views(tail@)));
        if suffix is Some {
            assert(piece_list(suffix)[0].len() > 0);
        }
    }
    close_up(chunks, suffix, tail)
}

/// The bytes of a piece as a list of chunks, which is empty if there is none.
pub open spec fn piece_list(piece: Option<Bytes>) -> Seq<Seq<u8>> {
    match piece {
        Some(chunk) => seq![contents(chunk)],
        None => Seq::empty(),
    }
}

/// The chunks before a place in a deque, and the chunks from it on.
proof fn lemma_place_cut(chunks: Seq<Bytes>, i: int, local: int)
    requires
        none_empty(chunk_views(chunks)),
        0 <= i <= chunks.len(),
        i < chunks.len() ==> 0 <= local < contents(chunks[i]).len(),
        i == chunks.len() ==> local == 0,
    ensures
        ({
            let views = chunk_views(chunks);
            let at = joined(views.take(i)).len() + local;
            let len = joined(views).len() as int;
            &&& clipped(views, 0, at) == chunk_views(chunks.take(i)) + if local > 0 {
                seq![contents(chunks[i]).take(local)]
            } else {
                Seq::empty()
            }
            &&& i < chunks.len() ==> clipped(views, at, len) == seq![contents(chunks[i]).skip(local)]
                + chunk_views(chunks.skip(i + 1))
            &&& i == chunks.len() ==> clipped(views, at, len) == Seq::<Seq<u8>>::empty()
        }),
{
    let views = chunk_views(chunks);
    let at = joined(views.take(i)).len() + local;
    let len = joined(views).len() as int;
    assert(views.take(i) =~= chunk_views(chunks.take(i)));
    if i < chunks.len() {
        let own = seq![views[i]];
        let back = views.skip(i + 1);
        assert(back =~= chunk_views(chunks.skip(i + 1)));
        assert(views.take(i) + own + back =~= views);
        lemma_none_empty_concat(views.take(i) + own, back);
        lemma_none_empty_concat(views.take(i), own);
        lemma_joined_one(views[i]);
        lemma_clipped_between(views.take(i), own, back, local);
        lemma_clipped_one(views[i], local, views[i].len() as int);
        assert(views[i].subrange(local, views[i].len() as int) =~= views[i].skip(local));
        if local > 0 {
            lemma_clipped_one(views[i], 0, local);
            assert(views[i].subrange(0, local) =~= views[i].take(local));
        }
    } else {
        assert(views.take(i) =~= views);
        lemma_clipped_whole(views);
        assert(views + Seq::<Seq<u8>>::empty() =~= views);
    }
}

/// Puts a piece, if there is one, and then the chunks of `tail` behind those of `chunks`.
fn close_up(chunks: VecDeque<Bytes>, piece: Option<Bytes>, tail: VecDeque<Bytes>) -> (after:
    VecDeque<Bytes>)
    requires
        none_empty(chunk_views(chunks@)),
        none_empty(chunk_views(tail@)),
        piece matches Some(chunk) ==> contents(chunk).len() > 0,
    ensures
        none_empty(chunk_views(after@)),
        chunk_views(after@) == chunk_views(chunks@) + piece_list(piece) + chunk_views(tail@),
{
    let ghost list = chunk_views(chunks@);
    let mut chunks = chunks;
    let mut tail = tail;
    match piece {
        Some(chunk) => {
            proof {
                lemma_views_back(chunks@, chunk);
                assert(list.push(contents(chunk)) =~= list + piece_list(piece));
            }
            chunks.push_back(chunk);
        },
        None => {
            assert(list + piece_list(piece) =~= list);
        },
    }
    proof {
        lemma_views_concat(chunks@, tail@);
        lemma_none_empty_concat(chunk_views(chunks@), chunk_views(tail@));
    }
    chunks.append(&mut tail);
    chunks
}

/// Of two places in a deque, the one with fewer bytes before it comes first.
proof fn lemma_order(chunks: Seq<Bytes>, i: int, a: int, j: int, b: int)
    requires
        0 <= i <= chunks.len(),
        0 <= j <= chunks.len(),
        i < chunks.len() ==> 0 <= a < contents(chunks[i]).len(),
        j < chunks.len() ==> 0 <= b < contents(chunks[j]).len(),
        i == chunks.len() ==> a == 0,
        j == chunks.len() ==> b == 0,
        joined(chunk_views(chunks).take(i)).len() + a <= joined(chunk_views(chunks).take(j)).len()
            + b,
    ensures
        i <= j,
{
    if i > j {
        let views = chunk_views(chunks);
        lemma_joined_step(views, j);
        lemma_joined_cut(views.take(i), j + 1);
        assert(views.take(i).take(j + 1) =~= views.take(j + 1));
    }
}

impl Parts {
    /// Replaces the bytes from `start` to `end` with all of `value`.
    pub(crate) fn replace<R: Steady>(self, start: usize, end: usize, value: &mut R) -> (parts: Self)
        requires
            parts_wf(self),
            start <= end <= self.len,
            old(value).remaining().len() <= usize::MAX,
            self.len - (end - start) + old(value).remaining().len() <= usize::MAX,
        ensures
            parts_wf(parts),
            joined(repr_chunks(parts.repr)) == respliced(
                joined(repr_chunks(self.repr)),
                start as int,
                end as int,
                old(value).remaining(),
            ),
            end - start != old(value).remaining().len() ==> edited_chunks(
                self.repr is Deep,
                repr_chunks(self.repr),
                start as int,
                end as int,
                old(value).runs(),
                repr_chunks(parts.repr),
                parts.repr is Deep,
            ),
            end - start == old(value).remaining().len() ==> {
                &&& rewritten(
                    repr_chunks(self.repr),
                    repr_chunks(parts.repr),
                    start as int,
                    old(value).remaining(),
                )
                &&& parts.repr is Deep == self.repr is Deep
            },
            final(value).remaining() == Seq::<u8>::empty(),
    {
        let ghost whole = joined(repr_chunks(self.repr));
        let ghost new = value.remaining();
        let removed: usize = end - start;
        let added: usize = value.buffered_len();
        if removed == 0 && added == 0 {
            proof {
                assert(new =~= Seq::<u8>::empty());
                lemma_rewritten_nothing(repr_chunks(self.repr), start as int);
                assert(respliced(whole, start as int, end as int, new) =~= whole);
            }
            return self;
        }
        if removed == added {
            proof {
                assert(new.take(added as int) =~= new);
                assert(new.skip(added as int) =~= Seq::<u8>::empty());
                assert(patched(whole, start as int, new) =~= respliced(
                    whole,
                    start as int,
                    end as int,
                    new,
                ));
            }
            return self.overwrite_range(start, added, value);
        }
        let len: usize = self.len;
        match self.repr {
            Repr::Small { head, additional } => replace_small(
                unify(head, additional),
                len,
                start,
                end,
                added,
                value,
            ),
            Repr::Deep(deep) => replace_deep(deep, len, start, end, added, value),
        }
    }
}

/// Replaces the bytes from `start` to `end` of a small rope. Inside one chunk, and where the result
/// is small, that chunk is made anew; otherwise the deque is cut.
fn replace_small<R: Steady>(
    chunks: VecDeque<Bytes>,
    len: usize,
    start: usize,
    end: usize,
    added: usize,
    value: &mut R,
) -> (parts: Parts)
    requires
        none_empty(chunk_views(chunks@)),
        len == joined(chunk_views(chunks@)).len(),
        start <= end <= len,
        added == old(value).remaining().len(),
        len - (end - start) + added <= usize::MAX,
    ensures
        parts_wf(parts),
        joined(repr_chunks(parts.repr)) == respliced(
            joined(chunk_views(chunks@)),
            start as int,
            end as int,
            old(value).remaining(),
        ),
        edited_chunks(
            false,
            chunk_views(chunks@),
            start as int,
            end as int,
            old(value).runs(),
            repr_chunks(parts.repr),
            parts.repr is Deep,
        ),
        final(value).remaining() == Seq::<u8>::empty(),
{
    let ghost whole = joined(chunk_views(chunks@));
    let ghost all = chunks@;
    let ghost new = value.remaining();
    let ghost views = chunk_views(chunks@);
    proof {
        value.lemma_runs();
    }
    let total: usize = len - (end - start) + added;
    let mut chunks = chunks;
    let (i, from) = locate(&chunks, len, start);
    if i < chunks.len() {
        let own: usize = chunks[i].len();
        proof {
            lemma_place(all, i as int, from as int);
        }
        if end - start <= own - from {
            let to: usize = from + (end - start);
            let kept: usize = own - (to - from);
            if kept <= COALESCE_MAX && added <= COALESCE_MAX - kept {
                splice_one_chunk(&mut chunks, i, from, to, value);
                proof {
                    let front = joined(chunk_views(all.take(i as int)));
                    let middle = contents(all[i as int]);
                    let back = joined(chunk_views(all.skip(i + 1)));
                    lemma_joined_at(chunk_views(all), i as int);
                    assert(chunk_views(all).skip(i + 1) =~= chunk_views(all.skip(i + 1)));
                    assert(whole =~= front + middle + back);
                    assert(front + respliced(middle, from as int, to as int, new) + back
                        =~= respliced(whole, start as int, end as int, new));
                    assert(coalesces(views, i as int, start as int, end as int, new.len() as int));
                }
                return from_deque(chunks, total);
            }
        }
    }
    proof {
        assert forall|k: int| !#[trigger] coalesces(
            views,
            k,
            start as int,
            end as int,
            new.len() as int,
        ) by {
            if 0 <= k < views.len() && joined(views.take(k)).len() <= start < joined(
                views.take(k),
            ).len() + views[k].len() {
                lemma_order(all, i as int, from as int, k, start - joined(views.take(k)).len());
                if i < all.len() {
                    lemma_order(all, k, start - joined(views.take(k)).len(), i as int, from as int);
                }
            }
        }
    }
    let chunks = splice_flat(chunks, len, start, end, value);
    let parts = from_deque(chunks, total);
    if parts.chunk_count() >= PROMOTE_AT {
        parts.promote()
    } else {
        parts
    }
}

/// Replaces the bytes from `start` to `end` of a deep rope. Where they all lie in the tree, only the
/// tree is cut and joined; otherwise the whole rope becomes one tree first.
fn replace_deep<R: Steady>(
    deep: Box<Deep>,
    len: usize,
    start: usize,
    end: usize,
    added: usize,
    value: &mut R,
) -> (parts: Parts)
    requires
        repr_wf(Repr::Deep(deep)),
        len == joined(deep_chunks(*deep)).len(),
        start <= end <= len,
        added == old(value).remaining().len(),
        len - (end - start) + added <= usize::MAX,
    ensures
        parts_wf(parts),
        joined(repr_chunks(parts.repr)) == respliced(
            joined(deep_chunks(*deep)),
            start as int,
            end as int,
            old(value).remaining(),
        ),
        repr_chunks(parts.repr) == spliced(
            deep_chunks(*deep),
            start as int,
            end as int,
            old(value).runs(),
        ),
        parts.repr is Deep <==> repr_chunks(parts.repr).len() > DEMOTE_AT,
        final(value).remaining() == Seq::<u8>::empty(),
{
    let ghost whole = joined(deep_chunks(*deep));
    let ghost new = value.remaining();
    let ghost runs = value.runs();
    proof {
        lemma_deep(*deep);
        lemma_no_views();
    }
    let head_bytes: usize = deque_bytes(&deep.head);
    let tree_len: usize = deep.tree.byte_len();
    if start >= head_bytes && end <= head_bytes + tree_len {
        let total: usize = len - (end - start) + added;
        let ghost a = joined(chunk_views(deep.head@));
        let ghost b = tree_bytes(deep.tree);
        let ghost c = joined(chunk_views(deep.tail@));
        proof {
            let front = chunk_views(deep.head@);
            let own = tree_chunks(deep.tree);
            let back = chunk_views(deep.tail@);
            lemma_clipped_between(front, own, back, start - head_bytes);
            lemma_clipped_between(front, own, back, end - head_bytes);
            let left = clipped(own, 0, start - head_bytes);
            let right = clipped(own, end - head_bytes, b.len() as int);
            assert(front + (left + runs + right) + back =~= front + left + runs + (right + back));
        }
        let mut deep = deep;
        let tree = splice_tree(&deep.tree, start - head_bytes, end - head_bytes, value);
        deep.tree = tree;
        proof {
            lemma_deep(*deep);
            assert(whole =~= a + b + c);
            assert(a + respliced(b, start - head_bytes, end - head_bytes, new) + c =~= respliced(
                whole,
                start as int,
                end as int,
                new,
            ));
        }
        let parts = Parts { len: total, repr: Repr::Deep(deep) };
        return parts.maybe_demote();
    }
    let folded = Parts { len, repr: Repr::Deep(deep) };
    let tree = folded.into_tree();
    Parts::from_tree(splice_tree(&tree, start, end, value))
}

/// A tree with the bytes from `start` to `end` replaced by all of `value`.
fn splice_tree<R: Steady>(tree: &Tree, start: usize, end: usize, value: &mut R) -> (after: Tree)
    requires
        tree_wf(*tree),
        start <= end <= tree_bytes(*tree).len(),
        tree_bytes(*tree).len() - (end - start) + old(value).remaining().len() <= usize::MAX,
        old(value).remaining().len() <= usize::MAX,
    ensures
        tree_wf(after),
        tree_chunks(after) == spliced(
            tree_chunks(*tree),
            start as int,
            end as int,
            old(value).runs(),
        ),
        tree_bytes(after) == respliced(
            tree_bytes(*tree),
            start as int,
            end as int,
            old(value).remaining(),
        ),
        final(value).remaining() == Seq::<u8>::empty(),
{
    let ghost whole = tree_bytes(*tree);
    let ghost new = value.remaining();
    let (left, rest) = tree.split(start);
    let (_, right) = rest.split(end - start);
    let mut chunks: VecDeque<Bytes> = VecDeque::new();
    proof {
        lemma_no_views();
        assert(whole.skip(start as int).skip(end - start) =~= whole.skip(end as int));
        lemma_clipped_twice(
            tree_chunks(*tree),
            start as int,
            whole.len() as int,
            end - start,
            whole.len() - start,
        );
    }
    drain_into(value, &mut chunks);
    assert(joined(chunk_views(chunks@)) =~= new);
    let mut middle = Tree::new();
    let ghost added = chunk_views(chunks@);
    extend_blocks(&mut middle, chunks);
    proof {
        assert(Seq::<Seq<u8>>::empty() + added =~= added);
        lemma_joined_concat(tree_chunks(left), tree_chunks(middle));
        lemma_joined_concat(
            tree_chunks(left) + tree_chunks(middle),
            tree_chunks(right),
        );
    }
    Tree::concat(Tree::concat(left, middle), right)
}

} // verus!
