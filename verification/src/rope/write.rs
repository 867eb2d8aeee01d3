//! Overwriting bytes below a node.
//!
//! The bytes keep their number, but a shared chunk may be split where it is overwritten, so that a
//! node can overflow. It then hands its back part to its parent as a new sibling.

use std::sync::Arc;

use bytes::Bytes;

use vstd::prelude::*;

use crate::buffer::reader::Steady;
use crate::buffer::reader::sources::shorter;
use crate::chunks::chunk_views;
use crate::chunks::joined;
use crate::chunks::lemma_joined_concat;
use crate::chunks::lemma_joined_cut;
use crate::chunks::lemma_joined_step;
use crate::chunks::lemma_none_empty_concat;
use crate::chunks::lemma_views_concat;
use crate::chunks::none_empty;
use crate::rope::edit::cow_edit;
use crate::rope::edit::cow_pieces;
use crate::rope::edit::lemma_patched_empty;
use crate::rope::edit::lemma_patched_inside;
use crate::rope::edit::lemma_patched_twice;
use crate::rope::edit::lemma_replaced;
use crate::rope::edit::patched;
use crate::rope::edit::replaced;
use crate::rope::edit::splice_cow_vec;
use crate::rope::node::branch_sized;
use crate::rope::node::block_wf;
use crate::rope::node::chunks_len;
use crate::rope::node::find_child;
use crate::rope::node::find_chunk;
use crate::rope::node::kids_bytes;
use crate::rope::node::kids_chunks;
use crate::rope::node::kids_wf;
use crate::rope::node::lemma_kids_at;
use crate::rope::node::lemma_kids_cut;
use crate::rope::node::lemma_kids_full;
use crate::rope::node::lemma_kids_reach;
use crate::rope::node::lemma_kids_update;
use crate::rope::node::lemma_node_full;
use crate::rope::node::node_bytes;
use crate::rope::node::node_chunks;
use crate::rope::node::wf;
use crate::rope::node::Block;
use crate::rope::node::Branch;
use crate::rope::node::Node;
use crate::rope::node::FANOUT;
use crate::rope::owned::arc_make_mut;
use crate::rope::owned::deque_slot;
use crate::rope::rewrite::lemma_rewritten_end;
use crate::rope::rewrite::lemma_rewritten_none;
use crate::rope::rewrite::lemma_rewritten_piece;
use crate::rope::rewrite::lemma_rewritten_step;
use crate::rope::rewrite::rewritten;
use crate::shared::contents;

verus! {

/// How an edit changed the shape of a node.
pub struct InsertResult {
    /// How many chunks were added.
    pub added: usize,
    /// The part of the node that no longer fits: its new right sibling.
    pub overflow: Option<Node>,
}

/// The chunks below a node, if there is one.
pub open spec fn optional_chunks(node: Option<Node>, h: nat) -> Seq<Seq<u8>> {
    match node {
        Some(node) => node_chunks(node, h),
        None => Seq::empty(),
    }
}

/// The bytes below a node, if there is one.
pub open spec fn optional_bytes(node: Option<Node>, h: nat) -> Seq<u8> {
    joined(optional_chunks(node, h))
}

/// The node, if there is one, is well formed.
pub open spec fn optional_wf(node: Option<Node>, h: nat) -> bool {
    node matches Some(node) ==> wf(node, h)
}

/// An edit overwrote the bytes of `before` that start at `at` with `new`. The node became `after`
/// and what overflowed. Chunks that the edit does not touch stay. If the whole node was overwritten,
/// nothing overflowed.
pub open spec fn edited(
    before: Node,
    after: Node,
    result: InsertResult,
    h: nat,
    at: int,
    new: Seq<u8>,
) -> bool {
    &&& wf(after, h)
    &&& optional_wf(result.overflow, h)
    &&& node_bytes(after, h) + optional_bytes(result.overflow, h) == patched(
        node_bytes(before, h),
        at,
        new,
    )
    &&& node_chunks(after, h).len() + optional_chunks(result.overflow, h).len() == node_chunks(
        before,
        h,
    ).len() + result.added
    &&& rewritten(
        node_chunks(before, h),
        node_chunks(after, h) + optional_chunks(result.overflow, h),
        at,
        new,
    )
    &&& at == 0 && new.len() == node_bytes(before, h).len() ==> result.overflow is None
}

/// Puts `chunks` into a block and returns what does not fit as a sibling.
pub(crate) fn finish_leaf(block: &mut Block, chunks: Vec<Bytes>, added: usize) -> (result: InsertResult)
    requires
        1 <= chunks@.len() <= 2 * FANOUT,
        none_empty(chunk_views(chunks@)),
        joined(chunk_views(chunks@)).len() == old(block).bytes,
    ensures
        result.added == added,
        block_wf(*final(block)),
        optional_wf(result.overflow, 0),
        chunk_views(final(block).chunks@) + optional_chunks(result.overflow, 0) == chunk_views(
            chunks@,
        ),
        result.overflow is None <==> chunks@.len() <= FANOUT,
{
    let mut chunks = chunks;
    let ghost all = chunk_views(chunks@);
    if chunks.len() <= FANOUT {
        block.chunks = chunks;
        assert(chunk_views(block.chunks@) + Seq::<Seq<u8>>::empty() =~= all);
        InsertResult { added, overflow: None }
    } else {
        let right = chunks.split_off(FANOUT);
        proof {
            let front = chunk_views(chunks@);
            let back = chunk_views(right@);
            assert(front + back =~= all);
            lemma_joined_concat(front, back);
            lemma_none_empty_concat(front, back);
        }
        block.bytes = chunks_len(&chunks);
        block.chunks = chunks;
        InsertResult { added, overflow: Some(Node::leaf(right)) }
    }
}

/// Cuts the children of a branch after the first `FANOUT` and returns the rest as a sibling.
pub(crate) fn split_branch_off(branch: &mut Branch, Ghost(h): Ghost<nat>) -> (node: Node)
    requires
        branch_sized(*old(branch), h),
        FANOUT < old(branch).children@.len() <= 2 * FANOUT,
    ensures
        branch_sized(*final(branch), h),
        final(branch).children@.len() == FANOUT,
        wf(node, h + 1),
        kids_chunks(final(branch).children@, h) + node_chunks(node, h + 1) == kids_chunks(
            old(branch).children@,
            h,
        ),
{
    let ghost before = *branch;
    let right_children = branch.children.split_off(FANOUT);
    let right_sizes = branch.sizes.split_off(FANOUT);
    let ghost left = branch.children@;
    let ghost right = right_children@;
    let mut right_total: usize = 0;
    let mut right_count: usize = 0;
    let mut i: usize = 0;
    proof {
        assert(left =~= before.children@.take(FANOUT as int));
        assert(right =~= before.children@.skip(FANOUT as int));
        lemma_kids_cut(before.children@, FANOUT as int, h);
        assert(kids_wf(right, h)) by {
            assert forall|j: int| 0 <= j < right.len() implies wf(#[trigger] right[j], h) by {
                assert(right[j] == before.children@[j + FANOUT]);
            }
        }
        assert(right.take(0) =~= Seq::<Node>::empty());
        assert forall|j: int| 0 <= j < right.len() implies #[trigger] right_sizes@[j]
            == node_bytes(right[j], h).len() by {
            assert(right_sizes@[j] == before.sizes@[j + FANOUT]);
            assert(right[j] == before.children@[j + FANOUT]);
        }
    }
    while i < right_children.len()
        invariant
            i <= right_children.len(),
            right == right_children@,
            right_sizes@.len() == right.len(),
            kids_wf(right, h),
            kids_bytes(right, h).len() <= usize::MAX,
            kids_chunks(right, h).len() <= usize::MAX,
            forall|j: int|
                0 <= j < right.len() ==> #[trigger] right_sizes@[j] == node_bytes(
                    right[j],
                    h,
                ).len(),
            right_total == kids_bytes(right.take(i as int), h).len(),
            right_count == kids_chunks(right.take(i as int), h).len(),
        decreases right_children.len() - i,
    {
        proof {
            lemma_kids_reach(right, i as int, h);
            assert(wf(right[i as int], h));
        }
        right_total = right_total + right_sizes[i];
        right_count = right_count + right_children[i].chunk_len(Ghost(h));
        i = i + 1;
    }
    proof {
        assert(right.take(i as int) =~= right);
    }
    branch.total = branch.total - right_total;
    branch.count = branch.count - right_count;
    proof {
        assert forall|j: int| 0 <= j < left.len() implies wf(#[trigger] left[j], h) by {
            assert(left[j] == before.children@[j]);
        }
        assert forall|j: int| 0 <= j < left.len() implies #[trigger] branch.sizes@[j]
            == node_bytes(left[j], h).len() by {
            assert(branch.sizes@[j] == before.sizes@[j]);
            assert(left[j] == before.children@[j]);
        }
    }
    Node::Branch(
        Arc::new(
            Branch {
                children: right_children,
                sizes: right_sizes,
                total: right_total,
                count: right_count,
            },
        ),
    )
}

/// The children of a branch after child `i` handed out `overflow`.
pub open spec fn with_sibling(kids: Seq<Node>, i: int, overflow: Option<Node>) -> Seq<Node> {
    match overflow {
        Some(node) => kids.insert(i + 1, node),
        None => kids,
    }
}

/// What a list of nodes holds once a sibling was inserted.
pub proof fn lemma_with_sibling(kids: Seq<Node>, i: int, overflow: Option<Node>, h: nat)
    requires
        0 <= i < kids.len(),
    ensures
        kids_chunks(with_sibling(kids, i, overflow), h) == kids_chunks(kids.take(i), h)
            + node_chunks(kids[i], h) + optional_chunks(overflow, h) + kids_chunks(
            kids.skip(i + 1),
            h,
        ),
        kids_bytes(with_sibling(kids, i, overflow), h) == kids_bytes(kids.take(i), h)
            + node_bytes(kids[i], h) + optional_bytes(overflow, h) + kids_bytes(
            kids.skip(i + 1),
            h,
        ),
        kids_chunks(with_sibling(kids, i, overflow).take(i + 1 + (if overflow is Some {
            1int
        } else {
            0
        })), h) == kids_chunks(kids.take(i), h) + node_chunks(kids[i], h) + optional_chunks(
            overflow,
            h,
        ),
{
    let front = kids_chunks(kids.take(i), h);
    let own = node_chunks(kids[i], h);
    let back = kids_chunks(kids.skip(i + 1), h);
    lemma_kids_at(kids, i, h);
    match overflow {
        Some(node) => {
            let all = kids.insert(i + 1, node);
            lemma_kids_at(all, i + 1, h);
            assert(all.take(i + 1) =~= kids.take(i + 1));
            assert(all.skip(i + 2) =~= kids.skip(i + 1));
            assert(all[i + 1] == node);
            assert(front + own + node_chunks(node, h) + back =~= (front + own) + node_chunks(
                node,
                h,
            ) + back);
        },
        None => {
            assert(front + own + Seq::<Seq<u8>>::empty() + back =~= front + own + back);
            assert(front + own + Seq::<Seq<u8>>::empty() =~= front + own);
        },
    }
    lemma_joined_concat(front + own + optional_chunks(overflow, h), back);
    lemma_joined_concat(front + own, optional_chunks(overflow, h));
    lemma_joined_concat(front, own);
}

/// Takes the result of an edit of child `i` into its branch: the number of chunks grows, and a
/// sibling that the child handed out goes next to it. The number of bytes stays.
pub(crate) fn absorb_child_insert(
    branch: &mut Branch,
    i: usize,
    result: InsertResult,
    Ghost(child): Ghost<Node>,
    Ghost(h): Ghost<nat>,
) -> (step: usize)
    requires
        i < old(branch).children@.len(),
        old(branch).children@.len() + 1 <= usize::MAX,
        stale(*old(branch), i as int, child, h),
        optional_wf(result.overflow, h),
        node_bytes(old(branch).children@[i as int], h).len() + optional_bytes(
            result.overflow,
            h,
        ).len() == node_bytes(child, h).len(),
        node_chunks(old(branch).children@[i as int], h).len() + optional_chunks(
            result.overflow,
            h,
        ).len() == node_chunks(child, h).len() + result.added,
    ensures
        branch_sized(*final(branch), h),
        final(branch).children@ == with_sibling(
            old(branch).children@,
            i as int,
            result.overflow,
        ),
        step == if result.overflow is Some {
            2int
        } else {
            1
        },
{
    let ghost before = *branch;
    let ghost kids = branch.children@;
    proof {
        lemma_kids_update(kids, i as int, child, h);
        lemma_with_sibling(kids, i as int, result.overflow, h);
        let after = with_sibling(kids, i as int, result.overflow);
        assert forall|j: int| 0 <= j < after.len() implies wf(#[trigger] after[j], h) by {
            if j <= i || result.overflow is None {
                assert(after[j] == kids[j]);
            } else if j > i + 1 {
                assert(after[j] == kids[j - 1]);
            }
        }
        lemma_kids_full(after, h);
    }
    branch.count = branch.count + result.added;
    match result.overflow {
        Some(sibling) => {
            let size: usize = branch.children[i].byte_len(Ghost(h));
            *deque_slot(&mut branch.sizes, i) = size;
            let sibling_size: usize = sibling.byte_len(Ghost(h));
            branch.children.insert(i + 1, sibling);
            branch.sizes.insert(i + 1, sibling_size);
            proof {
                assert(branch.children@ =~= with_sibling(kids, i as int, result.overflow));
                let after = branch.children@;
                assert forall|j: int| 0 <= j < after.len() implies #[trigger] branch.sizes@[j]
                    == node_bytes(after[j], h).len() by {
                    if j < i {
                        assert(branch.sizes@[j] == before.sizes@[j]);
                        assert(after[j] == kids[j]);
                    } else if j > i + 1 {
                        assert(branch.sizes@[j] == before.sizes@[j - 1]);
                        assert(after[j] == kids[j - 1]);
                    }
                }
            }
            2
        },
        None => {
            assert forall|j: int| 0 <= j < kids.len() implies #[trigger] branch.sizes@[j]
                == node_bytes(kids[j], h).len() by {
                assert(branch.sizes@[j] == before.sizes@[j]);
            }
            1
        },
    }
}

/// A branch whose child `i` was edited, while its cached numbers are still those from when the
/// child was `child`.
pub open spec fn stale(branch: Branch, i: int, child: Node, h: nat) -> bool {
    &&& branch.sizes@.len() == branch.children@.len()
    &&& forall|j: int| #![trigger branch.children@[j]]
        0 <= j < branch.children@.len() ==> wf(branch.children@[j], h)
    &&& forall|j: int| #![trigger branch.sizes@[j]]
        0 <= j < branch.children@.len() ==> branch.sizes@[j] == if j == i {
            node_bytes(child, h).len()
        } else {
            node_bytes(branch.children@[j], h).len()
        }
    &&& branch.total == kids_bytes(branch.children@.update(i, child), h).len()
    &&& branch.count == kids_chunks(branch.children@.update(i, child), h).len()
}


/// One step of an overwrite that goes through a list of chunks: the chunk at `idx`, which starts
/// `start` bytes into the list, was overwritten from `local` on with `next`.
pub proof fn lemma_overwrite_step(
    whole: Seq<u8>,
    offset: int,
    done: Seq<u8>,
    chunks: Seq<Bytes>,
    idx: int,
    local: int,
    next: Seq<u8>,
    pieces: Seq<Bytes>,
)
    requires
        0 <= idx < chunks.len(),
        0 <= local,
        0 <= offset,
        local + next.len() <= contents(chunks[idx]).len(),
        offset + done.len() + next.len() <= whole.len(),
        none_empty(chunk_views(chunks)),
        none_empty(chunk_views(pieces)),
        joined(chunk_views(pieces)) == patched(contents(chunks[idx]), local, next),
        joined(chunk_views(chunks)) == patched(whole, offset, done),
        joined(chunk_views(chunks.take(idx))).len() + local == offset + done.len(),
    ensures
        joined(chunk_views(replaced(chunks, idx, pieces))) == patched(whole, offset, done + next),
        none_empty(chunk_views(replaced(chunks, idx, pieces))),
        joined(chunk_views(replaced(chunks, idx, pieces).take(idx + pieces.len()))).len() == joined(
            chunk_views(chunks.take(idx)),
        ).len() + contents(chunks[idx]).len(),
{
    lemma_replaced(chunks, idx, pieces);
    let front = joined(chunk_views(chunks.take(idx)));
    let own = contents(chunks[idx]);
    let back = joined(chunk_views(chunks.skip(idx + 1)));
    lemma_patched_inside(front, own, back, local, next);
    lemma_patched_twice(whole, offset, done, next);
    let after = replaced(chunks, idx, pieces);
    assert(after.take(idx + pieces.len()) =~= chunks.take(idx) + pieces);
    assert(chunk_views(chunks.take(idx) + pieces) =~= chunk_views(chunks.take(idx)) + chunk_views(
        pieces,
    ));
    lemma_joined_concat(chunk_views(chunks.take(idx)), chunk_views(pieces));
}

/// One step of an overwrite that goes through a list of chunks, of which it has passed the first
/// `passed`. They gave way to the first `idx` of `chunks`, and the next one gives way to `pieces`.
pub(crate) proof fn lemma_list_step(
    all: Seq<Bytes>,
    chunks: Seq<Bytes>,
    passed: int,
    idx: int,
    offset: int,
    done: Seq<u8>,
    local: int,
    next: Seq<u8>,
    pieces: Seq<Bytes>,
)
    requires
        0 <= passed <= all.len(),
        0 <= idx < chunks.len(),
        chunks.skip(idx) == all.skip(passed),
        rewritten(
            chunk_views(all).take(passed),
            chunk_views(chunks.take(idx)),
            offset,
            done,
        ),
        joined(chunk_views(all).take(passed)).len() + local == offset + done.len(),
        0 <= local,
        done.len() == 0 || local == 0,
        0 < next.len(),
        local + next.len() <= contents(chunks[idx]).len(),
        cow_pieces(contents(chunks[idx]), local, next, chunk_views(pieces)),
    ensures
        passed < all.len(),
        rewritten(
            chunk_views(all).take(passed + 1),
            chunk_views(chunks.take(idx) + pieces),
            offset,
            done + next,
        ),
        chunks.skip(idx + 1) == all.skip(passed + 1),
        joined(chunk_views(all).take(passed + 1)).len() == joined(
            chunk_views(all).take(passed),
        ).len() + contents(chunks[idx]).len(),
{
    let views = chunk_views(all);
    assert(chunks.skip(idx).len() == chunks.len() - idx);
    assert(all.skip(passed).len() == all.len() - passed);
    assert(chunks[idx] == chunks.skip(idx)[0]);
    assert(all[passed] == all.skip(passed)[0]);
    lemma_joined_step(views, passed);
    lemma_rewritten_piece(views[passed], local, next, chunk_views(pieces));
    lemma_rewritten_step(
        views.take(passed),
        chunk_views(chunks.take(idx)),
        seq![views[passed]],
        chunk_views(pieces),
        offset,
        done,
        local,
        next,
    );
    assert(views.take(passed) + seq![views[passed]] =~= views.take(passed + 1));
    lemma_views_concat(chunks.take(idx), pieces);
    assert(all.skip(passed).skip(1) =~= all.skip(passed + 1));
    assert(chunks.skip(idx).skip(1) =~= chunks.skip(idx + 1));
}

/// Overwrites `count` bytes at `offset` of what `chunks` spell with the next bytes of `value`.
/// Returns how many chunks that added: at most one at either end, and none if everything was
/// overwritten.
#[verifier::rlimit(40)]
fn overwrite_vec<R: Steady>(
    chunks: &mut Vec<Bytes>,
    offset: usize,
    count: usize,
    value: &mut R,
) -> (added: usize)
    requires
        1 <= count,
        offset + count <= joined(chunk_views(old(chunks)@)).len(),
        joined(chunk_views(old(chunks)@)).len() <= usize::MAX,
        none_empty(chunk_views(old(chunks)@)),
        count <= old(value).remaining().len(),
        old(chunks)@.len() <= FANOUT,
    ensures
        joined(chunk_views(final(chunks)@)) == patched(
            joined(chunk_views(old(chunks)@)),
            offset as int,
            old(value).remaining().take(count as int),
        ),
        none_empty(chunk_views(final(chunks)@)),
        final(chunks)@.len() == old(chunks)@.len() + added,
        added <= 2,
        offset == 0 && count == joined(chunk_views(old(chunks)@)).len() ==> added == 0,
        rewritten(
            chunk_views(old(chunks)@),
            chunk_views(final(chunks)@),
            offset as int,
            old(value).remaining().take(count as int),
        ),
        final(value).remaining() == old(value).remaining().skip(count as int),
{
    let ghost whole = joined(chunk_views(chunks@));
    let ghost source = value.remaining();
    let ghost views = chunk_views(chunks@);
    let (start, start_local) = find_chunk(chunks, offset);
    let mut idx: usize = start;
    let mut local: usize = start_local;
    let mut remaining: usize = count;
    let mut added: usize = 0;
    proof {
        lemma_patched_empty(whole, offset as int);
        assert(source.take(0) =~= Seq::<u8>::empty());
        assert(source.skip(0) =~= source);
        assert(views.take(idx as int) =~= chunk_views(chunks@.take(idx as int)));
        lemma_rewritten_none(views.take(idx as int), offset as int, Seq::empty());
    }
    let ghost mut passed = idx as int;
    while remaining > 0
        invariant
            remaining <= count,
            offset + count <= whole.len() <= usize::MAX,
            count <= source.len(),
            chunks@.len() == old(chunks)@.len() + added,
            old(chunks)@.len() <= FANOUT,
            joined(chunk_views(chunks@)) == patched(
                whole,
                offset as int,
                source.take(count - remaining),
            ),
            none_empty(chunk_views(chunks@)),
            value.remaining() == source.skip(count - remaining),
            remaining > 0 ==> idx < chunks@.len() && local < contents(chunks@[idx as int]).len(),
            remaining > 0 ==> joined(chunk_views(chunks@.take(idx as int))).len() + local == offset
                + (count - remaining),
            remaining == count ==> added == 0 && local <= offset,
            0 < remaining < count ==> added <= 1 && local == 0,
            added <= 2,
            offset == 0 && count == whole.len() ==> added == 0,
            views == chunk_views(old(chunks)@),
            0 <= passed <= views.len(),
            rewritten(
                views.take(passed),
                chunk_views(chunks@.take(idx as int)),
                offset as int,
                source.take(count - remaining),
            ),
            0 <= idx <= chunks@.len(),
            chunks@.skip(idx as int) == old(chunks)@.skip(passed),
            remaining > 0 ==> joined(views.take(passed)).len() + local == offset + (count
                - remaining),
            remaining < count ==> local == 0,
            remaining == 0 ==> offset + count <= joined(views.take(passed)).len(),
        decreases remaining,
    {
        let ghost done = source.take(count - remaining);
        let ghost before = chunks@;
        let len: usize = chunks[idx].len();
        let here: usize = shorter(len - local, remaining);
        let mut taken = Bytes::new();
        std::mem::swap(&mut taken, &mut chunks[idx]);
        let ghost next = value.remaining().take(here as int);
        let edit = cow_edit(taken, local, here, value);
        let ghost pieces = edit.pieces();
        proof {
            lemma_overwrite_step(
                whole,
                offset as int,
                done,
                before,
                idx as int,
                local as int,
                next,
                pieces,
            );
            assert(done + next =~= source.take(count - remaining + here));
            assert(source.skip(count - remaining).skip(here as int) =~= source.skip(
                count - remaining + here,
            ));
            assert(replaced(chunks@, idx as int, pieces) =~= replaced(before, idx as int, pieces));
            lemma_replaced(before, idx as int, pieces);
            lemma_list_step(
                old(chunks)@,
                before,
                passed,
                idx as int,
                offset as int,
                done,
                local as int,
                next,
                pieces,
            );
            passed = passed + 1;
        }
        let more: usize = splice_cow_vec(chunks, idx, edit);
        added = added + more;
        remaining = remaining - here;
        idx = idx + 1 + more;
        local = 0;
        proof {
            assert(chunks@.take(idx as int) =~= before.take((idx - 1 - more) as int) + pieces);
            assert(chunks@.skip(idx as int) =~= before.skip(idx - more));
            if remaining > 0 {
                let all = chunk_views(chunks@);
                assert(chunks@.take(idx as int) =~= replaced(before, (idx - 1 - more) as int, pieces).take(
                    (idx - 1 - more) + pieces.len(),
                ));
                lemma_joined_cut(all, idx as int);
                assert(all.take(idx as int) =~= chunk_views(chunks@.take(idx as int)));
                if idx >= chunks@.len() {
                    assert(all.skip(idx as int) =~= Seq::<Seq<u8>>::empty());
                    assert(false);
                }
                assert(all[idx as int].len() > 0);
            }
        }
    }
    proof {
        lemma_rewritten_end(
            views.take(passed),
            chunk_views(chunks@.take(idx as int)),
            views.skip(passed),
            offset as int,
            source.take(count as int),
        );
        assert(views.take(passed) + views.skip(passed) =~= views);
        assert(chunk_views(chunks@.take(idx as int)) + views.skip(passed) =~= chunk_views(chunks@))
            by {
            lemma_views_concat(chunks@.take(idx as int), chunks@.skip(idx as int));
            assert(chunks@.take(idx as int) + chunks@.skip(idx as int) =~= chunks@);
            assert(chunk_views(old(chunks)@.skip(passed)) =~= views.skip(passed));
        }
    }
    added
}

impl Node {
    /// Overwrites `count` bytes at `offset` below this node with the next bytes of `value`.
    ///
    /// Nodes that nothing else holds are changed in place; only shared ones are copied. Only the
    /// first and the last child that is touched can hand out a sibling, because the ones between
    /// are overwritten whole.
    pub(crate) fn overwrite<R: Steady>(
        &mut self,
        offset: usize,
        count: usize,
        value: &mut R,
        Ghost(h): Ghost<nat>,
    ) -> (result: InsertResult)
        requires
            wf(*old(self), h),
            1 <= count,
            offset + count <= node_bytes(*old(self), h).len(),
            count <= old(value).remaining().len(),
        ensures
            edited(
                *old(self),
                *final(self),
                result,
                h,
                offset as int,
                old(value).remaining().take(count as int),
            ),
            final(value).remaining() == old(value).remaining().skip(count as int),
        decreases h, 0nat,
    {
        proof {
            lemma_node_full(*self, h);
        }
        match self {
            Node::Leaf(handle) => {
                let block = arc_make_mut(handle);
                let mut chunks: Vec<Bytes> = Vec::new();
                std::mem::swap(&mut chunks, &mut block.chunks);
                assert(chunk_views(chunks@).len() == chunks@.len());
                let added: usize = overwrite_vec(&mut chunks, offset, count, value);
                let result = finish_leaf(block, chunks, added);
                proof {
                    lemma_joined_concat(
                        chunk_views(block.chunks@),
                        optional_chunks(result.overflow, 0),
                    );
                }
                result
            },
            Node::Branch(handle) => {
                let ghost below = (h - 1) as nat;
                let branch = arc_make_mut(handle);
                overwrite_branch(branch, offset, count, value, Ghost(below))
            },
        }
    }
}

/// One step of an overwrite that goes through the children of a branch: child `i` was overwritten
/// from `local` on with `next`.
proof fn lemma_child_step(
    whole: Seq<u8>,
    offset: int,
    done: Seq<u8>,
    kids: Seq<Node>,
    i: int,
    local: int,
    next: Seq<u8>,
    child: Node,
    overflow: Option<Node>,
    h: nat,
)
    requires
        0 <= i < kids.len(),
        0 <= local,
        0 <= offset,
        local + next.len() <= node_bytes(kids[i], h).len(),
        offset + done.len() + next.len() <= whole.len(),
        node_bytes(child, h) + optional_bytes(overflow, h) == patched(
            node_bytes(kids[i], h),
            local,
            next,
        ),
        kids_bytes(kids, h) == patched(whole, offset, done),
        kids_bytes(kids.take(i), h).len() + local == offset + done.len(),
    ensures
        kids_bytes(with_sibling(kids.update(i, child), i, overflow), h) == patched(
            whole,
            offset,
            done + next,
        ),
        kids_bytes(
            with_sibling(kids.update(i, child), i, overflow).take(
                i + 1 + (if overflow is Some {
                    1int
                } else {
                    0
                }),
            ),
            h,
        ).len() == kids_bytes(kids.take(i), h).len() + node_bytes(kids[i], h).len(),
        kids_chunks(with_sibling(kids.update(i, child), i, overflow), h).len() == kids_chunks(
            kids,
            h,
        ).len() + node_chunks(child, h).len() + optional_chunks(overflow, h).len() - node_chunks(
            kids[i],
            h,
        ).len(),
{
    let updated = kids.update(i, child);
    assert(updated.take(i) =~= kids.take(i));
    assert(updated.skip(i + 1) =~= kids.skip(i + 1));
    lemma_with_sibling(updated, i, overflow, h);
    lemma_kids_at(kids, i, h);
    let front = kids_bytes(kids.take(i), h);
    let back = kids_bytes(kids.skip(i + 1), h);
    let own = node_bytes(kids[i], h);
    lemma_patched_inside(front, own, back, local, next);
    lemma_patched_twice(whole, offset, done, next);
    assert(front + node_bytes(child, h) + optional_bytes(overflow, h) + back =~= front + patched(
        own,
        local,
        next,
    ) + back);
    lemma_joined_concat(
        kids_chunks(kids.take(i), h) + node_chunks(child, h),
        optional_chunks(overflow, h),
    );
    lemma_joined_concat(kids_chunks(kids.take(i), h), node_chunks(child, h));
}

/// One step of an overwrite that goes through the children of a branch, of which it has passed the
/// first `passed`. They gave way to the first `i` of `kids`, and the next one gives way to `child`
/// and what overflowed.
proof fn lemma_kids_step(
    all: Seq<Node>,
    kids: Seq<Node>,
    passed: int,
    i: int,
    offset: int,
    done: Seq<u8>,
    local: int,
    next: Seq<u8>,
    child: Node,
    overflow: Option<Node>,
    h: nat,
)
    requires
        0 <= passed <= all.len(),
        0 <= i < kids.len(),
        kids.skip(i) == all.skip(passed),
        rewritten(
            kids_chunks(all.take(passed), h),
            kids_chunks(kids.take(i), h),
            offset,
            done,
        ),
        kids_bytes(all.take(passed), h).len() + local == offset + done.len(),
        0 <= local,
        done.len() == 0 || local == 0,
        rewritten(
            node_chunks(kids[i], h),
            node_chunks(child, h) + optional_chunks(overflow, h),
            local,
            next,
        ),
    ensures
        passed < all.len(),
        ({
            let after = with_sibling(kids.update(i, child), i, overflow);
            let reached = i + 1 + (if overflow is Some {
                1int
            } else {
                0
            });
            &&& rewritten(
                kids_chunks(all.take(passed + 1), h),
                kids_chunks(after.take(reached), h),
                offset,
                done + next,
            )
            &&& after.skip(reached) == all.skip(passed + 1)
        }),
        kids_bytes(all.take(passed + 1), h).len() == kids_bytes(all.take(passed), h).len()
            + node_bytes(kids[i], h).len(),
{
    assert(kids.skip(i).len() == kids.len() - i);
    assert(all.skip(passed).len() == all.len() - passed);
    assert(kids[i] == kids.skip(i)[0]);
    assert(all[passed] == all.skip(passed)[0]);
    lemma_kids_at(all, passed, h);
    let front = kids_chunks(kids.take(i), h);
    let own = node_chunks(child, h) + optional_chunks(overflow, h);
    lemma_rewritten_step(
        kids_chunks(all.take(passed), h),
        front,
        node_chunks(kids[i], h),
        own,
        offset,
        done,
        local,
        next,
    );
    let updated = kids.update(i, child);
    assert(updated.take(i) =~= kids.take(i));
    lemma_with_sibling(updated, i, overflow, h);
    assert(front + node_chunks(child, h) + optional_chunks(overflow, h) =~= front + own);
    assert(all.skip(passed).skip(1) =~= all.skip(passed + 1));
    assert(kids.skip(i).skip(1) =~= kids.skip(i + 1));
    let after = with_sibling(updated, i, overflow);
    if overflow is Some {
        assert(after.skip(i + 2) =~= kids.skip(i + 1));
    } else {
        assert(after.skip(i + 1) =~= kids.skip(i + 1));
    }
}

/// A position before the end of a list of nodes lies below one of them.
proof fn lemma_kids_within(kids: Seq<Node>, i: int, h: nat)
    requires
        0 <= i <= kids.len(),
        kids_wf(kids, h),
        kids_bytes(kids.take(i), h).len() < kids_bytes(kids, h).len(),
    ensures
        i < kids.len(),
        node_bytes(kids[i], h).len() > 0,
{
    if i == kids.len() {
        assert(kids.take(i) =~= kids);
    } else {
        assert(wf(kids[i], h));
        lemma_node_full(kids[i], h);
    }
}

/// Overwrites `count` bytes at `offset` below a branch over nodes of height `h`.
fn overwrite_branch<R: Steady>(
    branch: &mut Branch,
    offset: usize,
    count: usize,
    value: &mut R,
    Ghost(h): Ghost<nat>,
) -> (result: InsertResult)
    requires
        branch_sized(*old(branch), h),
        1 <= old(branch).children@.len() <= FANOUT,
        1 <= count,
        offset + count <= kids_bytes(old(branch).children@, h).len(),
        count <= old(value).remaining().len(),
    ensures
        branch_sized(*final(branch), h),
        1 <= final(branch).children@.len() <= FANOUT,
        optional_wf(result.overflow, h + 1),
        kids_bytes(final(branch).children@, h) + optional_bytes(result.overflow, h + 1) == patched(
            kids_bytes(old(branch).children@, h),
            offset as int,
            old(value).remaining().take(count as int),
        ),
        kids_chunks(final(branch).children@, h).len() + optional_chunks(
            result.overflow,
            h + 1,
        ).len() == kids_chunks(old(branch).children@, h).len() + result.added,
        rewritten(
            kids_chunks(old(branch).children@, h),
            kids_chunks(final(branch).children@, h) + optional_chunks(result.overflow, h + 1),
            offset as int,
            old(value).remaining().take(count as int),
        ),
        offset == 0 && count == kids_bytes(old(branch).children@, h).len()
            ==> result.overflow is None,
        final(value).remaining() == old(value).remaining().skip(count as int),
    decreases h, 1nat,
{
    let ghost kids0 = branch.children@;
    let ghost whole = kids_bytes(kids0, h);
    let ghost source = value.remaining();
    let (start, start_local) = find_child(branch, offset, Ghost(h));
    let mut i: usize = start;
    let mut local: usize = start_local;
    let mut remaining: usize = count;
    let mut added: usize = 0;
    proof {
        lemma_patched_empty(whole, offset as int);
        assert(source.take(0) =~= Seq::<u8>::empty());
        assert(source.skip(0) =~= source);
        lemma_rewritten_none(kids_chunks(kids0.take(i as int), h), offset as int, Seq::empty());
    }
    let ghost mut passed = i as int;
    while remaining > 0
        invariant
            remaining <= count,
            offset + count <= whole.len() <= usize::MAX,
            count <= source.len(),
            branch_sized(*branch, h),
            kids_bytes(branch.children@, h) == patched(
                whole,
                offset as int,
                source.take(count - remaining),
            ),
            kids_chunks(branch.children@, h).len() == kids_chunks(kids0, h).len() + added,
            value.remaining() == source.skip(count - remaining),
            remaining > 0 ==> i < branch.children@.len() && local < node_bytes(
                branch.children@[i as int],
                h,
            ).len(),
            remaining > 0 ==> kids_bytes(branch.children@.take(i as int), h).len() + local == offset
                + (count - remaining),
            1 <= kids0.len() <= FANOUT,
            kids0.len() <= branch.children@.len() <= kids0.len() + 2,
            remaining == count ==> branch.children@.len() == kids0.len() && local <= offset,
            0 < remaining < count ==> branch.children@.len() <= kids0.len() + 1 && local == 0,
            offset == 0 && count == whole.len() ==> branch.children@.len() == kids0.len(),
            0 <= passed <= kids0.len(),
            0 <= i <= branch.children@.len(),
            rewritten(
                kids_chunks(kids0.take(passed), h),
                kids_chunks(branch.children@.take(i as int), h),
                offset as int,
                source.take(count - remaining),
            ),
            branch.children@.skip(i as int) == kids0.skip(passed),
            remaining > 0 ==> kids_bytes(kids0.take(passed), h).len() + local == offset + (count
                - remaining),
            remaining < count ==> local == 0,
            remaining == 0 ==> offset + count <= kids_bytes(kids0.take(passed), h).len(),
        decreases remaining,
    {
        let ghost kids = branch.children@;
        let ghost child = kids[i as int];
        let ghost done = source.take(count - remaining);
        assert(wf(child, h));
        let here: usize = shorter(branch.sizes[i] - local, remaining);
        let ghost next = value.remaining().take(here as int);
        let result = deque_slot(&mut branch.children, i).overwrite(local, here, value, Ghost(h));
        let ghost edited_kids = branch.children@;
        let ghost new_child = edited_kids[i as int];
        proof {
            assert(edited_kids =~= kids.update(i as int, new_child));
            assert(edited_kids.update(i as int, child) =~= kids);
            assert forall|j: int| 0 <= j < edited_kids.len() implies wf(
                #[trigger] edited_kids[j],
                h,
            ) by {
                if j != i {
                    assert(edited_kids[j] == kids[j]);
                }
            }
            assert(stale(*branch, i as int, child, h));
            lemma_kids_reach(kids, i as int, h);
            assert(patched(whole, offset as int, done).len() == whole.len());
            if offset == 0 && count == whole.len() {
                assert(local == 0 && next.len() == node_bytes(child, h).len());
            }
            lemma_child_step(
                whole,
                offset as int,
                done,
                kids,
                i as int,
                local as int,
                next,
                new_child,
                result.overflow,
                h,
            );
            lemma_kids_step(
                kids0,
                kids,
                passed,
                i as int,
                offset as int,
                done,
                local as int,
                next,
                new_child,
                result.overflow,
                h,
            );
            passed = passed + 1;
            assert(patched(node_bytes(child, h), local as int, next).len() == node_bytes(
                child,
                h,
            ).len());
            assert(done + next =~= source.take(count - remaining + here));
            assert(source.skip(count - remaining).skip(here as int) =~= source.skip(
                count - remaining + here,
            ));
        }
        let more: usize = result.added;
        let step: usize = absorb_child_insert(branch, i, result, Ghost(child), Ghost(h));
        proof {
            assert(patched(whole, offset as int, done + next).len() == whole.len());
            assert(kids_wf(branch.children@, h));
            lemma_kids_full(branch.children@, h);
            if here < remaining {
                lemma_kids_within(branch.children@, i + step, h);
            }
        }
        added = added + more;
        remaining = remaining - here;
        i = i + step;
        local = 0;
    }
    proof {
        assert(kids_bytes(branch.children@, h) + Seq::<u8>::empty() =~= kids_bytes(
            branch.children@,
            h,
        ));
    }
    let ghost kids = branch.children@;
    proof {
        lemma_rewritten_end(
            kids_chunks(kids0.take(passed), h),
            kids_chunks(kids.take(i as int), h),
            kids_chunks(kids0.skip(passed), h),
            offset as int,
            source.take(count as int),
        );
        lemma_kids_cut(kids0, passed, h);
        lemma_kids_cut(kids, i as int, h);
        assert(kids_chunks(kids, h) + Seq::<Seq<u8>>::empty() =~= kids_chunks(kids, h));
    }
    if branch.children.len() > FANOUT {
        let sibling = split_branch_off(branch, Ghost(h));
        proof {
            lemma_joined_concat(kids_chunks(branch.children@, h), node_chunks(sibling, h + 1));
        }
        InsertResult { added, overflow: Some(sibling) }
    } else {
        InsertResult { added, overflow: None }
    }
}

} // verus!
