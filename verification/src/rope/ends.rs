//! Adding a block of chunks at the back of a node, and taking one off either end.
//!
//! Each comes in two forms: one changes nodes in place and gives up where something else holds a
//! node on the way; the other builds new nodes along the way and shares the rest.

use std::collections::VecDeque;

use bytes::Bytes;

use vstd::prelude::*;

use crate::chunks::chunk_views;
use crate::chunks::joined;
use crate::chunks::lemma_joined_concat;
use crate::rope::node::branch_sized;
use crate::rope::node::chunks_len;
use crate::rope::node::into_block;
use crate::rope::node::kids_bytes;
use crate::rope::node::kids_chunks;
use crate::rope::node::kids_wf;
use crate::rope::node::lemma_kids_at;
use crate::rope::node::lemma_kids_concat;
use crate::rope::node::lemma_kids_full;
use crate::rope::node::lemma_kids_one;
use crate::rope::node::lemma_kids_push;
use crate::rope::node::lemma_kids_update;
use crate::rope::node::lemma_node_full;
use crate::rope::node::node_bytes;
use crate::rope::node::node_chunks;
use crate::rope::node::wf;
use crate::rope::node::Branch;
use crate::rope::node::Node;
use crate::rope::node::FANOUT;
use crate::rope::owned::arc_get_mut;
use crate::rope::owned::deque_slot;

verus! {

/// What became of an attempt to add a leaf in place.
pub enum Push {
    /// The leaf was added.
    Placed,
    /// There is no room on the right edge.
    Full,
    /// Something else holds a node on the right edge.
    Shared,
}

/// One of the two ends of a sequence.
#[derive(Clone, Copy)]
pub enum End {
    Front,
    Back,
}

/// The block that left a sequence of chunks at `end`, put back in its place.
pub open spec fn rejoined(end: End, block: Seq<Seq<u8>>, rest: Seq<Seq<u8>>) -> Seq<Seq<u8>> {
    match end {
        End::Front => block + rest,
        End::Back => rest + block,
    }
}

/// A branch of height `h` without children.
pub open spec fn hollow(node: Node, h: nat) -> bool {
    match node {
        Node::Leaf(_) => false,
        Node::Branch(branch) => {
            &&& h > 0
            &&& branch.children@.len() == 0
            &&& branch_sized(*branch, (h - 1) as nat)
        },
    }
}

/// Whether a branch over these nodes of height `h`, or a branch on the right edge below it, can take
/// one more child.
pub open spec fn kids_room(kids: Seq<Node>, h: nat) -> bool
    decreases h, 1nat,
{
    ||| kids.len() < FANOUT
    ||| h > 0 && has_room(kids.last(), h)
}

/// Whether a branch on the right edge of a node of height `h` can take one more child.
pub open spec fn has_room(node: Node, h: nat) -> bool
    decreases h, 0nat,
{
    match node {
        Node::Leaf(_) => false,
        Node::Branch(branch) => h > 0 && kids_room(branch.children@, (h - 1) as nat),
    }
}

/// Adds the leaf in `slot` at the right edge of a branch, in place. Where nothing else holds a node
/// on that edge, the leaf is placed if and only if there is room; whether something does is left
/// open.
pub(crate) fn push_inplace(
    node: &mut Node,
    slot: &mut Option<Node>,
    bytes: usize,
    count: usize,
    Ghost(h): Ghost<nat>,
) -> (push: Push)
    requires
        h >= 1,
        wf(*old(node), h),
        *old(slot) is Some,
        wf((*old(slot))->Some_0, 0),
        bytes == node_bytes((*old(slot))->Some_0, 0).len(),
        count == node_chunks((*old(slot))->Some_0, 0).len(),
        node_bytes(*old(node), h).len() + bytes <= usize::MAX,
    ensures
        wf(*final(node), h),
        match push {
            Push::Placed => {
                &&& has_room(*old(node), h)
                &&& node_chunks(*final(node), h) == node_chunks(*old(node), h) + node_chunks(
                    (*old(slot))->Some_0,
                    0,
                )
                &&& *final(slot) is None
            },
            Push::Full => {
                &&& !has_room(*old(node), h)
                &&& node_chunks(*final(node), h) == node_chunks(*old(node), h)
                &&& *final(slot) == *old(slot)
            },
            Push::Shared => {
                &&& node_chunks(*final(node), h) == node_chunks(*old(node), h)
                &&& *final(slot) == *old(slot)
            },
        },
    decreases h, 0nat,
{
    match node {
        Node::Leaf(_) => Push::Shared,
        Node::Branch(handle) => {
            match arc_get_mut(handle) {
                None => Push::Shared,
                Some(branch) => push_in_branch(branch, slot, bytes, count, Ghost((h - 1) as nat)),
            }
        },
    }
}

/// Adds the leaf in `slot` at the right edge of a branch over nodes of height `h` that nothing else
/// holds. Right above the leaves, only a lack of room prevents it.
fn push_in_branch(
    branch: &mut Branch,
    slot: &mut Option<Node>,
    bytes: usize,
    count: usize,
    Ghost(h): Ghost<nat>,
) -> (push: Push)
    requires
        branch_sized(*old(branch), h),
        1 <= old(branch).children@.len() <= FANOUT,
        *old(slot) is Some,
        wf((*old(slot))->Some_0, 0),
        bytes == node_bytes((*old(slot))->Some_0, 0).len(),
        count == node_chunks((*old(slot))->Some_0, 0).len(),
        kids_bytes(old(branch).children@, h).len() + bytes <= usize::MAX,
    ensures
        branch_sized(*final(branch), h),
        1 <= final(branch).children@.len() <= FANOUT,
        match push {
            Push::Placed => {
                &&& kids_room(old(branch).children@, h)
                &&& kids_chunks(final(branch).children@, h) == kids_chunks(
                    old(branch).children@,
                    h,
                ) + node_chunks((*old(slot))->Some_0, 0)
                &&& *final(slot) is None
            },
            Push::Full => {
                &&& !kids_room(old(branch).children@, h)
                &&& kids_chunks(final(branch).children@, h) == kids_chunks(
                    old(branch).children@,
                    h,
                )
                &&& *final(slot) == *old(slot)
            },
            Push::Shared => {
                &&& h > 0
                &&& kids_chunks(final(branch).children@, h) == kids_chunks(
                    old(branch).children@,
                    h,
                )
                &&& *final(slot) == *old(slot)
            },
        },
    decreases h, 1nat,
{
    let ghost leaf = (*slot)->Some_0;
    proof {
        lemma_kids_full(branch.children@, h);
        lemma_node_full(leaf, 0);
    }
    let ghost before = *branch;
    let last: usize = branch.children.len() - 1;
    assert(wf(before.children@[last as int], h));
    let flat = matches!(&branch.children[last], Node::Leaf(_));
    if flat {
        if branch.children.len() < FANOUT {
            match slot.take() {
                Some(leaf) => push_child(branch, leaf, bytes, count, Ghost(h)),
                None => vstd::pervasive::unreached(),
            }
            Push::Placed
        } else {
            Push::Full
        }
    } else {
        proof {
            lemma_kids_at(before.children@, last as int, h);
        }
        let push = push_inplace(
            deque_slot(&mut branch.children, last),
            slot,
            bytes,
            count,
            Ghost(h),
        );
        let ghost child = branch.children@[last as int];
        let ghost kids = before.children@;
        proof {
            assert(branch.children@ =~= kids.update(last as int, child));
            lemma_kids_update(kids, last as int, child, h);
            assert(kids.skip(last + 1) =~= Seq::<Node>::empty());
            assert(kids_chunks(kids.skip(last + 1), h) =~= Seq::<
                Seq<u8>,
            >::empty());
            let front = kids_chunks(kids.take(last as int), h);
            let own = node_chunks(kids[last as int], h);
            let more = node_chunks(leaf, 0);
            assert(front + (own + more) + Seq::<Seq<u8>>::empty() =~= (front + own
                + Seq::<Seq<u8>>::empty()) + more);
            lemma_joined_concat(own, more);
            lemma_joined_concat(kids_chunks(kids, h), more);
            assert forall|j: int| 0 <= j < kids.len() implies wf(
                #[trigger] branch.children@[j],
                h,
            ) by {
                if j != last {
                    assert(branch.children@[j] == kids[j]);
                }
            }
        }
        match push {
            Push::Placed => {
                let size = deque_slot(&mut branch.sizes, last);
                *size = *size + bytes;
                branch.total = branch.total + bytes;
                branch.count = branch.count + count;
                proof {
                    assert forall|j: int| 0 <= j < kids.len() implies
                        #[trigger] branch.sizes@[j] == node_bytes(
                        branch.children@[j],
                        h,
                    ).len() by {
                        if j != last {
                            assert(branch.sizes@[j] == before.sizes@[j]);
                            assert(branch.children@[j] == kids[j]);
                        }
                    }
                }
                Push::Placed
            },
            Push::Full => {
                proof {
                    assert(branch_sized(*branch, h)) by {
                        assert forall|j: int| 0 <= j < kids.len() implies
                            #[trigger] branch.sizes@[j] == node_bytes(
                            branch.children@[j],
                            h,
                        ).len() by {
                            assert(branch.sizes@[j] == before.sizes@[j]);
                        }
                    }
                }
                if branch.children.len() < FANOUT {
                    match slot.take() {
                        Some(leaf) => {
                            let spine = Node::spine(
                                &branch.children[0],
                                leaf,
                                Ghost(h),
                            );
                            push_child(branch, spine, bytes, count, Ghost(h));
                        },
                        None => vstd::pervasive::unreached(),
                    }
                    Push::Placed
                } else {
                    Push::Full
                }
            },
            Push::Shared => {
                proof {
                    assert forall|j: int| 0 <= j < kids.len() implies
                        #[trigger] branch.sizes@[j] == node_bytes(
                        branch.children@[j],
                        h,
                    ).len() by {
                        assert(branch.sizes@[j] == before.sizes@[j]);
                    }
                }
                Push::Shared
            },
        }
    }
}

/// Adds a child at the back of a branch over nodes of height `h`.
fn push_child(branch: &mut Branch, child: Node, bytes: usize, count: usize, Ghost(h): Ghost<nat>)
    requires
        branch_sized(*old(branch), h),
        wf(child, h),
        bytes == node_bytes(child, h).len(),
        count == node_chunks(child, h).len(),
        kids_bytes(old(branch).children@, h).len() + bytes <= usize::MAX,
    ensures
        branch_sized(*final(branch), h),
        final(branch).children@ == old(branch).children@.push(child),
        kids_chunks(final(branch).children@, h) == kids_chunks(old(branch).children@, h)
            + node_chunks(child, h),
{
    let ghost before = *branch;
    proof {
        lemma_kids_push(before.children@, child, h);
        let after = before.children@.push(child);
        assert forall|j: int| 0 <= j < after.len() implies wf(#[trigger] after[j], h) by {
            if j < before.children@.len() {
                assert(after[j] == before.children@[j]);
            }
        }
        lemma_kids_full(after, h);
    }
    branch.children.push_back(child);
    branch.sizes.push_back(bytes);
    branch.total = branch.total + bytes;
    branch.count = branch.count + count;
    proof {
        assert forall|j: int| 0 <= j < branch.children@.len() implies #[trigger] branch.sizes@[j]
            == node_bytes(branch.children@[j], h).len() by {
            if j < before.children@.len() {
                assert(branch.sizes@[j] == before.sizes@[j]);
                assert(branch.children@[j] == before.children@[j]);
            }
        }
    }
}

/// Adds a leaf at the right edge of a branch, with new nodes along that edge. Returns `None` where
/// the edge has no room.
pub(crate) fn push_rightmost(node: &Node, leaf: Node, Ghost(h): Ghost<nat>) -> (updated: Option<
    Node,
>)
    requires
        h >= 1,
        wf(*node, h),
        wf(leaf, 0),
        node_bytes(*node, h).len() + node_bytes(leaf, 0).len() <= usize::MAX,
    ensures
        updated is Some <==> has_room(*node, h),
        updated matches Some(updated) ==> wf(updated, h) && node_chunks(updated, h) == node_chunks(
            *node,
            h,
        ) + node_chunks(leaf, 0),
    decreases h,
{
    let ghost below = (h - 1) as nat;
    proof {
        lemma_joined_concat(node_chunks(*node, h), node_chunks(leaf, 0));
    }
    match node {
        Node::Leaf(_) => None,
        Node::Branch(branch) => {
            let ghost kids = branch.children@;
            let last: usize = branch.children.len() - 1;
            assert(wf(kids[last as int], below));
            let flat = matches!(&branch.children[last], Node::Leaf(_));
            if !flat {
                proof {
                    lemma_kids_at(kids, last as int, below);
                }
                match push_rightmost(&branch.children[last], leaf.clone(), Ghost(below)) {
                    Some(updated) => {
                        let mut children = branch.children.clone();
                        assert(children@ =~= kids);
                        *deque_slot(&mut children, last) = updated;
                        proof {
                            lemma_kids_update(kids, last as int, updated, below);
                            let front = kids_chunks(kids.take(last as int), below);
                            let own = node_chunks(kids[last as int], below);
                            let more = node_chunks(leaf, 0);
                            assert(kids.skip(last + 1) =~= Seq::<Node>::empty());
                            assert(kids_chunks(kids.skip(last + 1), below) =~= Seq::<
                                Seq<u8>,
                            >::empty());
                            assert(front + (own + more) + Seq::<Seq<u8>>::empty() =~= (front + own
                                + Seq::<Seq<u8>>::empty()) + more);
                            assert forall|j: int| 0 <= j < children@.len() implies wf(
                                #[trigger] children@[j],
                                below,
                            ) by {
                                if j != last {
                                    assert(children@[j] == kids[j]);
                                }
                            }
                        }
                        return Some(Node::branch(children, Ghost(below)));
                    },
                    None => {},
                }
            }
            if branch.children.len() < FANOUT {
                let mut children = branch.children.clone();
                assert(children@ =~= kids);
                assert(wf(kids[0], below));
                let spine = Node::spine(&branch.children[0], leaf, Ghost(below));
                proof {
                    lemma_kids_push(kids, spine, below);
                    let after = kids.push(spine);
                    assert forall|j: int| 0 <= j < after.len() implies wf(
                        #[trigger] after[j],
                        below,
                    ) by {
                        if j < kids.len() {
                            assert(after[j] == kids[j]);
                        }
                    }
                }
                children.push_back(spine);
                Some(Node::branch(children, Ghost(below)))
            } else {
                None
            }
        },
    }
}

/// Takes the child at `end` out of a branch over nodes of height `h`, with its cached numbers.
fn remove_at(branch: &mut Branch, end: End, count: usize, Ghost(h): Ghost<nat>) -> (child: Node)
    requires
        branch_sized(*old(branch), h),
        old(branch).children@.len() > 0,
        count == node_chunks(
            old(branch).children@[match end {
                End::Front => 0,
                End::Back => old(branch).children@.len() - 1,
            }],
            h,
        ).len(),
    ensures
        branch_sized(*final(branch), h),
        final(branch).children@.len() == old(branch).children@.len() - 1,
        child == old(branch).children@[match end {
            End::Front => 0,
            End::Back => old(branch).children@.len() - 1,
        }],
        kids_chunks(old(branch).children@, h) == rejoined(
            end,
            node_chunks(child, h),
            kids_chunks(final(branch).children@, h),
        ),
{
    let ghost before = *branch;
    let ghost kids = branch.children@;
    match end {
        End::Front => {
            match (branch.children.pop_front(), branch.sizes.pop_front()) {
                (Some(child), Some(size)) => {
                    let ghost rest = branch.children@;
                    proof {
                        lemma_kids_one(child, h);
                        lemma_kids_concat(seq![child], rest, h);
                        assert(seq![child] + rest =~= kids);
                        assert forall|j: int| 0 <= j < rest.len() implies wf(
                            #[trigger] rest[j],
                            h,
                        ) by {
                            assert(kids[j + 1] == rest[j]);
                        }
                        assert forall|j: int| 0 <= j < rest.len() implies
                            #[trigger] branch.sizes@[j] == node_bytes(rest[j], h).len() by {
                            assert(before.sizes@[j + 1] == branch.sizes@[j]);
                            assert(kids[j + 1] == rest[j]);
                        }
                        assert(before.sizes@[0] == node_bytes(kids[0], h).len());
                    }
                    branch.total = branch.total - size;
                    branch.count = branch.count - count;
                    child
                },
                _ => vstd::pervasive::unreached(),
            }
        },
        End::Back => {
            match (branch.children.pop_back(), branch.sizes.pop_back()) {
                (Some(child), Some(size)) => {
                    let ghost rest = branch.children@;
                    proof {
                        lemma_kids_push(rest, child, h);
                        assert(rest.push(child) =~= kids);
                        assert forall|j: int| 0 <= j < rest.len() implies wf(
                            #[trigger] rest[j],
                            h,
                        ) by {
                            assert(kids[j] == rest[j]);
                        }
                        assert forall|j: int| 0 <= j < rest.len() implies
                            #[trigger] branch.sizes@[j] == node_bytes(rest[j], h).len() by {
                            assert(before.sizes@[j] == branch.sizes@[j]);
                            assert(kids[j] == rest[j]);
                        }
                        assert(before.sizes@[kids.len() - 1] == node_bytes(
                            kids[kids.len() - 1],
                            h,
                        ).len());
                    }
                    branch.total = branch.total - size;
                    branch.count = branch.count - count;
                    child
                },
                _ => vstd::pervasive::unreached(),
            }
        },
    }
}


/// The index of the item at `end` of a sequence.
pub open spec fn end_index(end: End, len: nat) -> int {
    match end {
        End::Front => 0,
        End::Back => len - 1,
    }
}

/// A list of nodes without the one at `end`.
pub open spec fn without_end(kids: Seq<Node>, end: End) -> Seq<Node> {
    match end {
        End::Front => kids.skip(1),
        End::Back => kids.drop_last(),
    }
}

/// What is left of a list when the node at `end` leaves.
proof fn lemma_without_end(kids: Seq<Node>, end: End, h: nat)
    requires
        kids.len() > 0,
    ensures
        kids_chunks(kids, h) == rejoined(
            end,
            node_chunks(kids[end_index(end, kids.len())], h),
            kids_chunks(without_end(kids, end), h),
        ),
        kids_bytes(kids, h).len() == node_bytes(kids[end_index(end, kids.len())], h).len()
            + kids_bytes(without_end(kids, end), h).len(),
        kids_wf(kids, h) ==> kids_wf(without_end(kids, end), h),
{
    let rest = without_end(kids, end);
    match end {
        End::Front => {
            let child = kids[0];
            lemma_kids_one(child, h);
            lemma_kids_concat(seq![child], rest, h);
            assert(seq![child] + rest =~= kids);
        },
        End::Back => {
            lemma_kids_push(rest, kids.last(), h);
            assert(rest.push(kids.last()) =~= kids);
        },
    }
    if kids_wf(kids, h) {
        assert forall|j: int| 0 <= j < rest.len() implies wf(#[trigger] rest[j], h) by {
            match end {
                End::Front => {
                    assert(kids[j + 1] == rest[j]);
                },
                End::Back => {
                    assert(kids[j] == rest[j]);
                },
            }
        }
    }
}

/// What is left of a list when a block leaves the node at `end`.
proof fn lemma_shrunk_end(kids: Seq<Node>, end: End, child: Node, block: Seq<Seq<u8>>, h: nat)
    requires
        kids.len() > 0,
        node_chunks(kids[end_index(end, kids.len())], h) == rejoined(
            end,
            block,
            node_chunks(child, h),
        ),
    ensures
        kids_chunks(kids, h) == rejoined(
            end,
            block,
            kids_chunks(kids.update(end_index(end, kids.len()), child), h),
        ),
        kids_bytes(kids, h).len() == joined(block).len() + kids_bytes(
            kids.update(end_index(end, kids.len()), child),
            h,
        ).len(),
        node_bytes(kids[end_index(end, kids.len())], h).len() == joined(block).len() + node_bytes(
            child,
            h,
        ).len(),
{
    let index = end_index(end, kids.len());
    let updated = kids.update(index, child);
    lemma_without_end(kids, end, h);
    lemma_without_end(updated, end, h);
    assert(without_end(updated, end) =~= without_end(kids, end));
    let rest = kids_chunks(without_end(kids, end), h);
    let own = node_chunks(child, h);
    match end {
        End::Front => {
            assert((block + own) + rest =~= block + (own + rest));
            lemma_joined_concat(block, own);
            lemma_joined_concat(block, own + rest);
        },
        End::Back => {
            assert(rest + (own + block) =~= (rest + own) + block);
            lemma_joined_concat(own, block);
            lemma_joined_concat(rest + own, block);
        },
    }
}

/// Brings the cached numbers of a branch up to date after a block left its child at `end`, and
/// drops that child if nothing is left of it. `kids` were the children before.
fn settle_popped(
    branch: &mut Branch,
    end: End,
    index: usize,
    bytes: usize,
    count: usize,
    Ghost(kids): Ghost<Seq<Node>>,
    Ghost(block): Ghost<Seq<Seq<u8>>>,
    Ghost(h): Ghost<nat>,
)
    requires
        kids.len() > 0,
        index == end_index(end, kids.len()),
        kids_wf(kids, h),
        old(branch).sizes@.len() == kids.len(),
        forall|j: int| #![trigger old(branch).sizes@[j]]
            0 <= j < kids.len() ==> old(branch).sizes@[j] == node_bytes(kids[j], h).len(),
        old(branch).total == kids_bytes(kids, h).len(),
        old(branch).count == kids_chunks(kids, h).len(),
        old(branch).children@ == kids.update(
            index as int,
            old(branch).children@[index as int],
        ),
        wf(old(branch).children@[index as int], h) || hollow(
            old(branch).children@[index as int],
            h,
        ),
        node_chunks(kids[index as int], h) == rejoined(
            end,
            block,
            node_chunks(old(branch).children@[index as int], h),
        ),
        bytes == joined(block).len(),
        count == block.len(),
    ensures
        branch_sized(*final(branch), h),
        final(branch).children@.len() <= kids.len(),
        kids_chunks(kids, h) == rejoined(end, block, kids_chunks(final(branch).children@, h)),
{
    let ghost before = *branch;
    let ghost after = branch.children@[index as int];
    proof {
        lemma_shrunk_end(kids, end, after, block, h);
    }
    if branch.children[index].is_empty_branch() {
        match end {
            End::Front => {
                let _ = branch.children.pop_front();
                let _ = branch.sizes.pop_front();
            },
            End::Back => {
                let _ = branch.children.pop_back();
                let _ = branch.sizes.pop_back();
            },
        }
        proof {
            let rest = without_end(kids, end);
            assert(branch.children@ =~= rest);
            let updated = kids.update(index as int, after);
            lemma_without_end(kids, end, h);
            lemma_without_end(updated, end, h);
            assert(without_end(updated, end) =~= rest);
            assert(node_chunks(after, h) =~= Seq::<Seq<u8>>::empty());
            assert(Seq::<Seq<u8>>::empty() + kids_chunks(rest, h) =~= kids_chunks(rest, h));
            assert(kids_chunks(rest, h) + Seq::<Seq<u8>>::empty() =~= kids_chunks(rest, h));
            assert forall|j: int| 0 <= j < rest.len() implies #[trigger] branch.sizes@[j]
                == node_bytes(rest[j], h).len() by {
                match end {
                    End::Front => {
                        assert(branch.sizes@[j] == before.sizes@[j + 1]);
                        assert(kids[j + 1] == rest[j]);
                    },
                    End::Back => {
                        assert(branch.sizes@[j] == before.sizes@[j]);
                        assert(kids[j] == rest[j]);
                    },
                }
            }
        }
    } else {
        assert(before.sizes@[index as int] == node_bytes(kids[index as int], h).len());
        let size = deque_slot(&mut branch.sizes, index);
        *size = *size - bytes;
        proof {
            assert forall|j: int| 0 <= j < kids.len() implies wf(
                #[trigger] branch.children@[j],
                h,
            ) by {
                if j != index {
                    assert(branch.children@[j] == kids[j]);
                }
            }
            assert forall|j: int| 0 <= j < kids.len() implies #[trigger] branch.sizes@[j]
                == node_bytes(branch.children@[j], h).len() by {
                if j != index {
                    assert(branch.sizes@[j] == before.sizes@[j]);
                    assert(branch.children@[j] == kids[j]);
                }
            }
        }
    }
    branch.total = branch.total - bytes;
    branch.count = branch.count - count;
}

/// The chunks of the leaf at `end` of a node of height `h`.
pub open spec fn edge_block(node: Node, end: End, h: nat) -> Seq<Seq<u8>>
    decreases h, 0nat,
{
    match node {
        Node::Leaf(block) => chunk_views(block.chunks@),
        Node::Branch(branch) => if h == 0 {
            Seq::empty()
        } else {
            kids_edge(branch.children@, end, (h - 1) as nat)
        },
    }
}

/// The chunks of the leaf at `end` of a list of nodes of height `h`.
pub open spec fn kids_edge(kids: Seq<Node>, end: End, h: nat) -> Seq<Seq<u8>>
    decreases h, 1nat,
{
    edge_block(kids[end_index(end, kids.len())], end, h)
}

/// Takes the block at `end` out of a branch, in place. Returns `None` where something else holds a
/// node on the way; whether something does is left open. The branch may end up without children.
pub(crate) fn pop_inplace(node: &mut Node, end: End, Ghost(h): Ghost<nat>) -> (block: Option<
    Vec<Bytes>,
>)
    requires
        h >= 1,
        wf(*old(node), h),
    ensures
        match block {
            Some(block) => {
                &&& wf(*final(node), h) || hollow(*final(node), h)
                &&& chunk_views(block@) == edge_block(*old(node), end, h)
                &&& rejoined(end, chunk_views(block@), node_chunks(*final(node), h)) == node_chunks(
                    *old(node),
                    h,
                )
                &&& 1 <= block@.len() <= FANOUT
            },
            None => {
                &&& wf(*final(node), h)
                &&& node_chunks(*final(node), h) == node_chunks(*old(node), h)
            },
        },
    decreases h, 0nat,
{
    match node {
        Node::Leaf(_) => None,
        Node::Branch(handle) => {
            match arc_get_mut(handle) {
                None => None,
                Some(branch) => pop_in_branch(branch, end, Ghost((h - 1) as nat)),
            }
        },
    }
}

/// Takes the block at `end` out of a branch over nodes of height `h` that nothing else holds. Right
/// above the leaves, nothing prevents it.
fn pop_in_branch(branch: &mut Branch, end: End, Ghost(h): Ghost<nat>) -> (block: Option<Vec<Bytes>>)
    requires
        branch_sized(*old(branch), h),
        1 <= old(branch).children@.len() <= FANOUT,
    ensures
        branch_sized(*final(branch), h),
        final(branch).children@.len() <= FANOUT,
        match block {
            Some(block) => {
                &&& chunk_views(block@) == kids_edge(old(branch).children@, end, h)
                &&& rejoined(
                    end,
                    chunk_views(block@),
                    kids_chunks(final(branch).children@, h),
                ) == kids_chunks(old(branch).children@, h)
                &&& 1 <= block@.len() <= FANOUT
            },
            None => {
                &&& h > 0
                &&& final(branch).children@.len() == old(branch).children@.len()
                &&& kids_chunks(final(branch).children@, h) == kids_chunks(
                    old(branch).children@,
                    h,
                )
            },
        },
    decreases h, 1nat,
{
    let ghost before = *branch;
    let ghost kids = branch.children@;
    let index: usize = match end {
        End::Front => 0,
        End::Back => branch.children.len() - 1,
    };
    let ghost child = kids[index as int];
    proof {
        assert(wf(child, h));
        lemma_without_end(kids, end, h);
        lemma_kids_full(kids, h);
    }
    let flat = matches!(&branch.children[index], Node::Leaf(_));
    if flat {
        let count: usize = branch.children[index].chunk_len(Ghost(h));
        let leaf = remove_at(branch, end, count, Ghost(h));
        Some(into_block(leaf))
    } else {
        let popped = pop_inplace(
            deque_slot(&mut branch.children, index),
            end,
            Ghost(h),
        );
        let ghost after = branch.children@[index as int];
        assert(branch.children@ =~= kids.update(index as int, after));
        match popped {
            None => {
                proof {
                    lemma_kids_update(kids, index as int, after, h);
                    lemma_kids_at(kids, index as int, h);
                    assert forall|j: int| 0 <= j < kids.len() implies wf(
                        #[trigger] branch.children@[j],
                        h,
                    ) by {
                        if j != index {
                            assert(branch.children@[j] == kids[j]);
                        }
                    }
                    assert forall|j: int| 0 <= j < kids.len() implies
                        #[trigger] branch.sizes@[j] == node_bytes(
                        branch.children@[j],
                        h,
                    ).len() by {
                        assert(branch.sizes@[j] == before.sizes@[j]);
                        if j != index {
                            assert(branch.children@[j] == kids[j]);
                        }
                    }
                }
                None
            },
            Some(block) => {
                proof {
                    lemma_shrunk_end(
                        kids,
                        end,
                        after,
                        chunk_views(block@),
                        h,
                    );
                }
                let bytes: usize = chunks_len(&block);
                settle_popped(
                    branch,
                    end,
                    index,
                    bytes,
                    block.len(),
                    Ghost(kids),
                    Ghost(chunk_views(block@)),
                    Ghost(h),
                );
                Some(block)
            },
        }
    }
}

impl Node {
    /// Whether this is a branch without children.
    pub(crate) fn is_empty_branch(&self) -> (empty: bool)
        ensures
            empty == match self {
                Node::Leaf(_) => false,
                Node::Branch(branch) => branch.children@.len() == 0,
            },
    {
        match self {
            Node::Leaf(_) => false,
            Node::Branch(branch) => branch.children.len() == 0,
        }
    }
}

/// Takes the block at `end` out of a branch, with new nodes along that edge.
pub(crate) fn pop_persistent(node: &Node, end: End, Ghost(h): Ghost<nat>) -> (popped: (
    Vec<Bytes>,
    Option<Node>,
))
    requires
        h >= 1,
        wf(*node, h),
    ensures
        1 <= popped.0@.len() <= FANOUT,
        popped.1 matches Some(rest) ==> wf(rest, h),
        rejoined(
            end,
            chunk_views(popped.0@),
            crate::rope::write::optional_chunks(popped.1, h),
        ) == node_chunks(*node, h),
    decreases h,
{
    let ghost below = (h - 1) as nat;
    match node {
        Node::Leaf(_) => vstd::pervasive::unreached(),
        Node::Branch(branch) => {
            let ghost kids = branch.children@;
            let index: usize = match end {
                End::Front => 0,
                End::Back => branch.children.len() - 1,
            };
            proof {
                assert(wf(kids[index as int], below));
                lemma_without_end(kids, end, below);
            }
            let mut children = branch.children.clone();
            assert(children@ =~= kids);
            let flat = matches!(&branch.children[index], Node::Leaf(_));
            let block: Vec<Bytes>;
            if flat {
                block = into_block(branch.children[index].clone());
                remove_at_deque(&mut children, end);
                assert(children@ =~= without_end(kids, end));
            } else {
                let (popped, rest) = pop_persistent(&branch.children[index], end, Ghost(below));
                block = popped;
                match rest {
                    Some(child) => {
                        *deque_slot(&mut children, index) = child;
                        proof {
                            lemma_shrunk_end(kids, end, child, chunk_views(block@), below);
                            assert forall|j: int| 0 <= j < children@.len() implies wf(
                                #[trigger] children@[j],
                                below,
                            ) by {
                                if j != index {
                                    assert(children@[j] == kids[j]);
                                }
                            }
                        }
                    },
                    None => {
                        remove_at_deque(&mut children, end);
                        proof {
                            assert(children@ =~= without_end(kids, end));
                            let own = chunk_views(block@);
                            assert(own + Seq::<Seq<u8>>::empty() =~= own);
                            assert(Seq::<Seq<u8>>::empty() + own =~= own);
                        }
                    },
                }
            }
            if children.len() == 0 {
                assert(kids_chunks(children@, below) =~= Seq::<Seq<u8>>::empty());
                (block, None)
            } else {
                proof {
                    lemma_joined_concat(chunk_views(block@), kids_chunks(children@, below));
                    lemma_joined_concat(kids_chunks(children@, below), chunk_views(block@));
                }
                (block, Some(Node::branch(children, Ghost(below))))
            }
        },
    }
}

/// Takes the node at `end` out of a list.
fn remove_at_deque(kids: &mut VecDeque<Node>, end: End)
    requires
        old(kids)@.len() > 0,
    ensures
        final(kids)@ == without_end(old(kids)@, end),
{
    let ghost before = kids@;
    match end {
        End::Front => {
            let _ = kids.pop_front();
        },
        End::Back => {
            let _ = kids.pop_back();
        },
    }
    assert(kids@ =~= without_end(before, end));
}

} // verus!
