//! Setting one byte: the chunk that holds it is edited, and all others stay as they are.

use std::collections::VecDeque;

use bytes::Bytes;

use vstd::prelude::*;

use crate::chunks::chunk_views;
use crate::chunks::joined;
use crate::chunks::lemma_joined_at;
use crate::chunks::lemma_joined_concat;
use crate::chunks::lemma_joined_one;
use crate::chunks::lemma_none_empty_concat;
use crate::chunks::none_empty;
use crate::rope::access::find_in_deque;
use crate::rope::edit::cow_edit;
use crate::rope::edit::cow_pieces;
use crate::rope::edit::patched;
use crate::rope::edit::replaced;
use crate::rope::edit::splice_cow_deque;
use crate::rope::edit::splice_cow_head;
use crate::rope::edit::splice_cow_vec;
use crate::rope::edit::unless_empty;
use crate::rope::node::block_wf;
use crate::rope::node::branch_sized;
use crate::rope::node::find_child;
use crate::rope::node::find_chunk;
use crate::rope::node::kids_bytes;
use crate::rope::node::kids_chunks;
use crate::rope::node::lemma_kids_at;
use crate::rope::node::lemma_kids_full;
use crate::rope::node::lemma_node_full;
use crate::rope::node::node_bytes;
use crate::rope::node::node_chunks;
use crate::rope::node::wf;
use crate::rope::node::Block;
use crate::rope::node::Branch;
use crate::rope::node::Node;
use crate::rope::node::FANOUT;
use crate::rope::owned::arc_make_mut;
use crate::rope::owned::deque_slot;
use crate::rope::parts::deep_chunks;
use crate::rope::parts::deque_bytes;
use crate::rope::parts::lemma_deep;
use crate::rope::parts::lemma_repr;
use crate::rope::parts::lemma_views_front;
use crate::rope::parts::parts_wf;
use crate::rope::parts::repr_chunks;
use crate::rope::parts::repr_wf;
use crate::rope::parts::Deep;
use crate::rope::parts::Parts;
use crate::rope::parts::Repr;
use crate::rope::tree::lemma_tree;
use crate::rope::tree::tree_bytes;
use crate::rope::tree::tree_chunks;
use crate::rope::tree::tree_wf;
use crate::rope::tree::Tree;
use crate::rope::write::absorb_child_insert;
use crate::rope::write::finish_leaf;
use crate::rope::write::lemma_with_sibling;
use crate::rope::write::optional_bytes;
use crate::rope::write::optional_chunks;
use crate::rope::write::optional_wf;
use crate::rope::write::split_branch_off;
use crate::rope::write::stale;
use crate::rope::write::with_sibling;
use crate::rope::write::InsertResult;
use crate::shared::contents;

verus! {

/// The byte at `offset` was set to `value`: it lies in chunk `i`, and `pieces` took the place of that
/// chunk.
pub open spec fn byte_set(
    before: Seq<Seq<u8>>,
    after: Seq<Seq<u8>>,
    i: int,
    pieces: Seq<Seq<u8>>,
    offset: int,
    value: u8,
) -> bool {
    let local = offset - joined(before.take(i)).len();
    &&& 0 <= i < before.len()
    &&& 0 <= local < before[i].len()
    &&& cow_pieces(before[i], local, seq![value], pieces)
    &&& after == before.take(i) + pieces + before.skip(i + 1)
}

/// The pieces of an edited chunk spell the chunk with the byte set, and none is empty.
proof fn lemma_cow_pieces(chunk: Seq<u8>, at: int, value: u8, pieces: Seq<Seq<u8>>)
    requires
        0 <= at < chunk.len(),
        cow_pieces(chunk, at, seq![value], pieces),
    ensures
        joined(pieces) == chunk.update(at, value),
        none_empty(pieces),
        pieces.len() >= 1,
{
    let new = seq![value];
    let front = chunk.take(at);
    let back = chunk.skip(at + 1);
    assert(patched(chunk, at, new) =~= chunk.update(at, value));
    lemma_joined_one(new);
    lemma_joined_one(front);
    lemma_joined_one(back);
    lemma_joined_one(patched(chunk, at, new));
    if pieces != seq![patched(chunk, at, new)] {
        let a = unless_empty(front);
        let b = seq![new];
        let c = unless_empty(back);
        lemma_joined_concat(a + b, c);
        lemma_joined_concat(a, b);
        lemma_none_empty_concat(a + b, c);
        lemma_none_empty_concat(a, b);
        assert(joined(a) =~= front);
        assert(joined(c) =~= back);
        assert(front + new + back =~= patched(chunk, at, new));
    }
}

/// What a list spells after one byte was set.
pub proof fn lemma_byte_set(
    before: Seq<Seq<u8>>,
    after: Seq<Seq<u8>>,
    i: int,
    pieces: Seq<Seq<u8>>,
    offset: int,
    value: u8,
)
    requires
        none_empty(before),
        byte_set(before, after, i, pieces, offset, value),
    ensures
        0 <= offset < joined(before).len(),
        joined(after) == joined(before).update(offset, value),
        joined(after).len() == joined(before).len(),
        none_empty(after),
        after.len() == before.len() - 1 + pieces.len(),
        pieces.len() >= 1,
{
    let front = before.take(i);
    let back = before.skip(i + 1);
    let local = offset - joined(front).len();
    lemma_cow_pieces(before[i], local, value, pieces);
    lemma_joined_at(before, i);
    lemma_joined_concat(front + pieces, back);
    lemma_joined_concat(front, pieces);
    lemma_none_empty_concat(front + pieces, back);
    lemma_none_empty_concat(front, pieces);
    lemma_none_empty_concat(front, before.skip(i));
    assert(front + before.skip(i) =~= before);
    lemma_none_empty_concat(seq![before[i]], back);
    assert(seq![before[i]] + back =~= before.skip(i));
    assert(joined(after) =~= joined(before).update(offset, value));
}

/// A byte set in the middle one of three lists.
proof fn lemma_byte_set_inside(
    front: Seq<Seq<u8>>,
    before: Seq<Seq<u8>>,
    after: Seq<Seq<u8>>,
    back: Seq<Seq<u8>>,
    i: int,
    pieces: Seq<Seq<u8>>,
    offset: int,
    value: u8,
)
    requires
        byte_set(before, after, i, pieces, offset, value),
    ensures
        byte_set(
            front + before + back,
            front + after + back,
            front.len() + i,
            pieces,
            joined(front).len() + offset,
            value,
        ),
{
    let whole = front + before + back;
    let at = front.len() + i;
    assert(whole.take(at) =~= front + before.take(i));
    lemma_joined_concat(front, before.take(i));
    assert(whole.skip(at + 1) =~= before.skip(i + 1) + back);
    assert(whole[at] == before[i]);
    assert(front + after + back =~= whole.take(at) + pieces + whole.skip(at + 1));
}

/// An edit of the chunk at `i` sets a byte of the list.
proof fn lemma_edited_list(
    chunks: Seq<Bytes>,
    i: int,
    pieces: Seq<Bytes>,
    offset: int,
    value: u8,
)
    requires
        0 <= i < chunks.len(),
        0 <= offset - joined(chunk_views(chunks).take(i)).len() < contents(chunks[i]).len(),
        cow_pieces(
            contents(chunks[i]),
            offset - joined(chunk_views(chunks).take(i)).len(),
            seq![value],
            chunk_views(pieces),
        ),
    ensures
        byte_set(
            chunk_views(chunks),
            chunk_views(replaced(chunks, i, pieces)),
            i,
            chunk_views(pieces),
            offset,
            value,
        ),
{
    let views = chunk_views(chunks);
    assert(chunk_views(replaced(chunks, i, pieces)) =~= views.take(i) + chunk_views(pieces)
        + views.skip(i + 1));
}

/// Sets the byte at `offset` of what the chunks of a deque spell.
fn set_byte_in_deque(chunks: &mut VecDeque<Bytes>, offset: usize, value: u8)
    requires
        offset < joined(chunk_views(old(chunks)@)).len(),
        none_empty(chunk_views(old(chunks)@)),
    ensures
        exists|i: int, pieces: Seq<Seq<u8>>| #[trigger]
            byte_set(
                chunk_views(old(chunks)@),
                chunk_views(final(chunks)@),
                i,
                pieces,
                offset as int,
                value,
            ),
        none_empty(chunk_views(final(chunks)@)),
        joined(chunk_views(final(chunks)@)) == joined(chunk_views(old(chunks)@)).update(
            offset as int,
            value,
        ),
{
    let ghost before = chunks@;
    let (i, local) = find_in_deque(chunks, offset);
    let mut taken = Bytes::new();
    std::mem::swap(&mut taken, deque_slot(chunks, i));
    let one: [u8; 1] = [value];
    let mut source: &[u8] = one.as_slice();
    assert(source@.take(1) =~= seq![value]);
    let edit = cow_edit(taken, local, 1, &mut source);
    let ghost pieces = edit.pieces();
    assert(replaced(chunks@, i as int, pieces) =~= replaced(before, i as int, pieces));
    let _added: usize = splice_cow_deque(chunks, i, edit);
    proof {
        lemma_edited_list(before, i as int, pieces, offset as int, value);
        lemma_byte_set(
            chunk_views(before),
            chunk_views(chunks@),
            i as int,
            chunk_views(pieces),
            offset as int,
            value,
        );
    }
}

impl Node {
    /// Sets the byte at `offset` below this node.
    ///
    /// Nodes that nothing else holds are changed in place; only shared ones are copied.
    pub(crate) fn set_byte(&mut self, offset: usize, value: u8, Ghost(h): Ghost<nat>) -> (result:
        InsertResult)
        requires
            wf(*old(self), h),
            offset < node_bytes(*old(self), h).len(),
        ensures
            wf(*final(self), h),
            optional_wf(result.overflow, h),
            exists|i: int, pieces: Seq<Seq<u8>>| #[trigger]
                byte_set(
                    node_chunks(*old(self), h),
                    node_chunks(*final(self), h) + optional_chunks(result.overflow, h),
                    i,
                    pieces,
                    offset as int,
                    value,
                ),
            node_chunks(*final(self), h).len() + optional_chunks(result.overflow, h).len()
                == node_chunks(*old(self), h).len() + result.added,
        decreases h, 0nat,
    {
        let ghost before = node_chunks(*self, h);
        proof {
            lemma_node_full(*self, h);
        }
        let result = match self {
            Node::Leaf(handle) => {
                let block = arc_make_mut(handle);
                assert(chunk_views(block.chunks@) == before);
                let result = set_byte_in_block(block, offset, value);
                assert(chunk_views(block.chunks@).len() == block.chunks@.len());
                result
            },
            Node::Branch(handle) => {
                let branch = arc_make_mut(handle);
                set_byte_in_branch(branch, offset, value, Ghost((h - 1) as nat))
            },
        };
        proof {
            let after = node_chunks(*self, h) + optional_chunks(result.overflow, h);
            let (i, pieces) = choose|i: int, pieces: Seq<Seq<u8>>| #[trigger]
                byte_set(before, after, i, pieces, offset as int, value);
            assert(byte_set(before, after, i, pieces, offset as int, value));
        }
        result
    }
}

/// Sets the byte at `offset` of a block.
fn set_byte_in_block(block: &mut Block, offset: usize, value: u8) -> (result: InsertResult)
    requires
        block_wf(*old(block)),
        offset < joined(chunk_views(old(block).chunks@)).len(),
    ensures
        block_wf(*final(block)),
        optional_wf(result.overflow, 0),
        exists|i: int, pieces: Seq<Seq<u8>>| #[trigger]
            byte_set(
                chunk_views(old(block).chunks@),
                chunk_views(final(block).chunks@) + optional_chunks(result.overflow, 0),
                i,
                pieces,
                offset as int,
                value,
            ),
        final(block).chunks@.len() + optional_chunks(result.overflow, 0).len()
            == old(block).chunks@.len() + result.added,
{
    let mut chunks: Vec<Bytes> = Vec::new();
    std::mem::swap(&mut chunks, &mut block.chunks);
    let ghost before = chunks@;
    let (i, local) = find_chunk(&chunks, offset);
    let mut taken = Bytes::new();
    std::mem::swap(&mut taken, &mut chunks[i]);
    let one: [u8; 1] = [value];
    let mut source: &[u8] = one.as_slice();
    assert(source@.take(1) =~= seq![value]);
    let edit = cow_edit(taken, local, 1, &mut source);
    let ghost pieces = edit.pieces();
    assert(replaced(chunks@, i as int, pieces) =~= replaced(before, i as int, pieces));
    let added: usize = splice_cow_vec(&mut chunks, i, edit);
    proof {
        lemma_edited_list(before, i as int, pieces, offset as int, value);
        lemma_byte_set(
            chunk_views(before),
            chunk_views(chunks@),
            i as int,
            chunk_views(pieces),
            offset as int,
            value,
        );
        assert(chunk_views(pieces).len() == pieces.len());
    }
    let ghost all = chunk_views(chunks@);
    let result = finish_leaf(block, chunks, added);
    proof {
        let after = chunk_views(block.chunks@) + optional_chunks(result.overflow, 0);
        assert(after == all);
        assert(byte_set(
            chunk_views(before),
            after,
            i as int,
            chunk_views(pieces),
            offset as int,
            value,
        ));
    }
    result
}

/// Sets the byte at `offset` below a branch over nodes of height `h`.
fn set_byte_in_branch(branch: &mut Branch, offset: usize, value: u8, Ghost(h): Ghost<nat>) -> (result:
    InsertResult)
    requires
        branch_sized(*old(branch), h),
        1 <= old(branch).children@.len() <= FANOUT,
        offset < kids_bytes(old(branch).children@, h).len(),
    ensures
        branch_sized(*final(branch), h),
        1 <= final(branch).children@.len() <= FANOUT,
        optional_wf(result.overflow, h + 1),
        exists|i: int, pieces: Seq<Seq<u8>>| #[trigger]
            byte_set(
                kids_chunks(old(branch).children@, h),
                kids_chunks(final(branch).children@, h) + optional_chunks(result.overflow, h + 1),
                i,
                pieces,
                offset as int,
                value,
            ),
        kids_chunks(final(branch).children@, h).len() + optional_chunks(
            result.overflow,
            h + 1,
        ).len() == kids_chunks(old(branch).children@, h).len() + result.added,
    decreases h, 1nat,
{
    let ghost kids = branch.children@;
    let (at, local) = find_child(branch, offset, Ghost(h));
    let ghost child = kids[at as int];
    let result = deque_slot(&mut branch.children, at).set_byte(local, value, Ghost(h));
    let ghost edited_kids = branch.children@;
    let ghost new_child = edited_kids[at as int];
    let ghost overflow = result.overflow;
    proof {
        assert(edited_kids =~= kids.update(at as int, new_child));
        assert(edited_kids.update(at as int, child) =~= kids);
        assert forall|j: int| 0 <= j < edited_kids.len() implies wf(#[trigger] edited_kids[j], h) by {
            if j != at {
                assert(edited_kids[j] == kids[j]);
            }
        }
        assert(stale(*branch, at as int, child, h));
        lemma_child_set(
            kids,
            at as int,
            new_child,
            overflow,
            offset as int,
            local as int,
            value,
            h,
        );
    }
    let added: usize = result.added;
    let _step: usize = absorb_child_insert(branch, at, result, Ghost(child), Ghost(h));
    let ghost list = kids_chunks(kids, h);
    let ghost all = kids_chunks(branch.children@, h);
    let ghost (i, pieces) = choose|i: int, pieces: Seq<Seq<u8>>| #[trigger]
        byte_set(list, all, i, pieces, offset as int, value);
    proof {
        lemma_kids_full(kids, h);
        lemma_byte_set(list, all, i, pieces, offset as int, value);
    }
    if branch.children.len() > FANOUT {
        let sibling = split_branch_off(branch, Ghost(h));
        let result = InsertResult { added, overflow: Some(sibling) };
        proof {
            let after = kids_chunks(branch.children@, h) + optional_chunks(result.overflow, h + 1);
            assert(after == all);
            assert(byte_set(list, after, i, pieces, offset as int, value));
        }
        result
    } else {
        let result = InsertResult { added, overflow: None };
        proof {
            let after = kids_chunks(branch.children@, h) + optional_chunks(result.overflow, h + 1);
            assert(after =~= all);
            assert(byte_set(list, after, i, pieces, offset as int, value));
        }
        result
    }
}

/// A byte set below child `at` is set below the list of nodes.
proof fn lemma_child_set(
    kids: Seq<Node>,
    at: int,
    child: Node,
    overflow: Option<Node>,
    offset: int,
    local: int,
    value: u8,
    h: nat,
)
    requires
        0 <= at < kids.len(),
        wf(kids[at], h),
        offset == kids_bytes(kids.take(at), h).len() + local,
        exists|i: int, pieces: Seq<Seq<u8>>| #[trigger]
            byte_set(
                node_chunks(kids[at], h),
                node_chunks(child, h) + optional_chunks(overflow, h),
                i,
                pieces,
                local,
                value,
            ),
    ensures
        node_bytes(child, h).len() + optional_bytes(overflow, h).len() == node_bytes(
            kids[at],
            h,
        ).len(),
        kids_chunks(with_sibling(kids.update(at, child), at, overflow), h).len() - kids_chunks(
            kids,
            h,
        ).len() == node_chunks(child, h).len() + optional_chunks(overflow, h).len() - node_chunks(
            kids[at],
            h,
        ).len(),
        exists|i: int, pieces: Seq<Seq<u8>>| #[trigger]
            byte_set(
                kids_chunks(kids, h),
                kids_chunks(with_sibling(kids.update(at, child), at, overflow), h),
                i,
                pieces,
                offset,
                value,
            ),
{
    let before = node_chunks(kids[at], h);
    let own = node_chunks(child, h) + optional_chunks(overflow, h);
    let front = kids_chunks(kids.take(at), h);
    let back = kids_chunks(kids.skip(at + 1), h);
    let edited = kids.update(at, child);
    lemma_node_full(kids[at], h);
    let (i, pieces) = choose|i: int, pieces: Seq<Seq<u8>>| #[trigger]
        byte_set(before, own, i, pieces, local, value);
    lemma_byte_set(before, own, i, pieces, local, value);
    lemma_joined_concat(node_chunks(child, h), optional_chunks(overflow, h));
    lemma_kids_at(kids, at, h);
    lemma_byte_set_inside(front, before, own, back, i, pieces, local, value);
    lemma_with_sibling(edited, at, overflow, h);
    assert(edited.take(at) =~= kids.take(at));
    assert(edited.skip(at + 1) =~= kids.skip(at + 1));
    let after = kids_chunks(with_sibling(edited, at, overflow), h);
    assert(after =~= front + own + back);
    assert(byte_set(kids_chunks(kids, h), after, front.len() + i, pieces, offset, value));
}

impl Tree {
    /// Sets the byte at `offset`.
    pub(crate) fn set_byte(&mut self, offset: usize, value: u8)
        requires
            tree_wf(*old(self)),
            offset < tree_bytes(*old(self)).len(),
        ensures
            tree_wf(*final(self)),
            exists|i: int, pieces: Seq<Seq<u8>>| #[trigger]
                byte_set(
                    tree_chunks(*old(self)),
                    tree_chunks(*final(self)),
                    i,
                    pieces,
                    offset as int,
                    value,
                ),
    {
        let ghost h = self.height@;
        let ghost before = tree_chunks(*self);
        proof {
            lemma_tree(*self);
        }
        match self.root.take() {
            Some(node) => {
                let mut root = node;
                let result = root.set_byte(offset, value, Ghost(h));
                proof {
                    let a = node_chunks(root, h);
                    let b = optional_chunks(result.overflow, h);
                    let (i, pieces) = choose|i: int, pieces: Seq<Seq<u8>>| #[trigger]
                        byte_set(before, a + b, i, pieces, offset as int, value);
                    lemma_byte_set(before, a + b, i, pieces, offset as int, value);
                    lemma_joined_concat(a, b);
                }
                self.regrow(root, result, Ghost(h));
            },
            None => vstd::pervasive::unreached(),
        }
    }
}

/// Sets the byte at `offset` of a deep rope.
fn set_byte_deep(deep: Box<Deep>, offset: usize, value: u8) -> (after: Box<Deep>)
    requires
        repr_wf(Repr::Deep(deep)),
        offset < joined(deep_chunks(*deep)).len(),
        joined(deep_chunks(*deep)).len() <= usize::MAX,
    ensures
        repr_wf(Repr::Deep(after)),
        exists|i: int, pieces: Seq<Seq<u8>>| #[trigger]
            byte_set(
                deep_chunks(*deep),
                deep_chunks(*after),
                i,
                pieces,
                offset as int,
                value,
            ),
{
    let ghost start = *deep;
    let ghost head = chunk_views(deep.head@);
    let ghost tree = tree_chunks(deep.tree);
    let ghost tail = chunk_views(deep.tail@);
    let ghost none = Seq::<Seq<u8>>::empty();
    proof {
        lemma_deep(*deep);
        assert(none + head + (tree + tail) =~= deep_chunks(*deep));
        assert((head + tree) + tail + none =~= deep_chunks(*deep));
        lemma_joined_concat(head, tree);
    }
    let mut deep = deep;
    let head_bytes: usize = deque_bytes(&deep.head);
    let tree_len: usize = deep.tree.byte_len();
    if offset < head_bytes {
        set_byte_in_deque(&mut deep.head, offset, value);
        proof {
            let now = chunk_views(deep.head@);
            let (i, pieces) = choose|i: int, pieces: Seq<Seq<u8>>| #[trigger]
                byte_set(head, now, i, pieces, offset as int, value);
            lemma_byte_set_inside(none, head, now, tree + tail, i, pieces, offset as int, value);
            assert(none + now + (tree + tail) =~= deep_chunks(*deep));
            assert(byte_set(deep_chunks(start), deep_chunks(*deep), i, pieces, offset as int, value));
        }
    } else if offset - head_bytes < tree_len {
        let local: usize = offset - head_bytes;
        deep.tree.set_byte(local, value);
        proof {
            let now = tree_chunks(deep.tree);
            let (i, pieces) = choose|i: int, pieces: Seq<Seq<u8>>| #[trigger]
                byte_set(tree, now, i, pieces, local as int, value);
            lemma_byte_set_inside(head, tree, now, tail, i, pieces, local as int, value);
            assert(byte_set(
                deep_chunks(start),
                deep_chunks(*deep),
                head.len() + i,
                pieces,
                offset as int,
                value,
            ));
        }
    } else {
        let local: usize = offset - head_bytes - tree_len;
        set_byte_in_deque(&mut deep.tail, local, value);
        proof {
            let now = chunk_views(deep.tail@);
            let (i, pieces) = choose|i: int, pieces: Seq<Seq<u8>>| #[trigger]
                byte_set(tail, now, i, pieces, local as int, value);
            lemma_byte_set_inside(head + tree, tail, now, none, i, pieces, local as int, value);
            assert((head + tree) + now + none =~= deep_chunks(*deep));
            assert(byte_set(
                deep_chunks(start),
                deep_chunks(*deep),
                (head + tree).len() + i,
                pieces,
                offset as int,
                value,
            ));
        }
    }
    deep
}

/// Sets the byte at `offset` of a small rope.
fn set_byte_small(head: Bytes, additional: VecDeque<Bytes>, offset: usize, value: u8) -> (after: (
    Bytes,
    VecDeque<Bytes>,
))
    requires
        repr_wf((Repr::Small { head, additional })),
        offset < joined(repr_chunks((Repr::Small { head, additional }))).len(),
    ensures
        repr_wf((Repr::Small { head: after.0, additional: after.1 })),
        exists|i: int, pieces: Seq<Seq<u8>>| #[trigger]
            byte_set(
                repr_chunks((Repr::Small { head, additional })),
                repr_chunks((Repr::Small { head: after.0, additional: after.1 })),
                i,
                pieces,
                offset as int,
                value,
            ),
{
    let ghost start = repr_chunks(Repr::Small { head, additional });
    let ghost first = contents(head);
    let ghost rest = additional@;
    let ghost list = seq![first] + chunk_views(rest);
    let ghost none = Seq::<Seq<u8>>::empty();
    let len: usize = head.len();
    let mut additional = additional;
    proof {
        lemma_views_front(head, rest);
        lemma_joined_one(first);
        assert(first.len() > 0);
        assert(start == list);
    }
    if offset < len {
        let one: [u8; 1] = [value];
        let mut source: &[u8] = one.as_slice();
        assert(source@.take(1) =~= seq![value]);
        let edit = cow_edit(head, offset, 1, &mut source);
        let ghost pieces = edit.pieces();
        let mut front = Bytes::new();
        let _added: usize = splice_cow_head(&mut front, &mut additional, edit);
        proof {
            lemma_views_front(front, additional@);
            assert(chunk_views(pieces + rest) =~= chunk_views(pieces) + chunk_views(rest));
            lemma_none_empty_concat(chunk_views(pieces), chunk_views(rest));
            let after = seq![contents(front)] + chunk_views(additional@);
            assert(list.take(0) =~= none);
            assert(after =~= list.take(0) + chunk_views(pieces) + list.skip(1));
            let now = repr_chunks(Repr::Small { head: front, additional });
            assert(now == after);
            assert(byte_set(start, now, 0, chunk_views(pieces), offset as int, value));
        }
        (front, additional)
    } else {
        let local: usize = offset - len;
        set_byte_in_deque(&mut additional, local, value);
        proof {
            let now = chunk_views(additional@);
            let (i, pieces) = choose|i: int, pieces: Seq<Seq<u8>>| #[trigger]
                byte_set(chunk_views(rest), now, i, pieces, local as int, value);
            lemma_byte_set_inside(
                seq![first],
                chunk_views(rest),
                now,
                none,
                i,
                pieces,
                local as int,
                value,
            );
            assert(list + none =~= list);
            assert(seq![first] + now + none =~= seq![first] + now);
            let after = repr_chunks(Repr::Small { head, additional });
            assert(after == seq![first] + now);
            assert(byte_set(start, after, 1 + i, pieces, offset as int, value));
        }
        (head, additional)
    }
}

impl Parts {
    /// Sets the byte at `offset`.
    pub(crate) fn set_byte(self, offset: usize, value: u8) -> (parts: Self)
        requires
            parts_wf(self),
            offset < self.len,
        ensures
            parts_wf(parts),
            joined(repr_chunks(parts.repr)) == joined(repr_chunks(self.repr)).update(
                offset as int,
                value,
            ),
            exists|i: int, pieces: Seq<Seq<u8>>| #[trigger]
                byte_set(
                    repr_chunks(self.repr),
                    repr_chunks(parts.repr),
                    i,
                    pieces,
                    offset as int,
                    value,
                ),
            parts.repr is Deep <==> self.repr is Deep,
    {
        let ghost before = repr_chunks(self.repr);
        let len: usize = self.len;
        proof {
            lemma_repr(self.repr);
        }
        let repr = match self.repr {
            Repr::Small { head, additional } => {
                let (head, additional) = set_byte_small(head, additional, offset, value);
                Repr::Small { head, additional }
            },
            Repr::Deep(deep) => Repr::Deep(set_byte_deep(deep, offset, value)),
        };
        proof {
            let after = repr_chunks(repr);
            let (i, pieces) = choose|i: int, pieces: Seq<Seq<u8>>| #[trigger]
                byte_set(before, after, i, pieces, offset as int, value);
            lemma_byte_set(before, after, i, pieces, offset as int, value);
        }
        Parts { len, repr }
    }
}

} // verus!
