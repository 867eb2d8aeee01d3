//! Walking over the chunks of a tree, and of a rope, from the front.

use std::collections::VecDeque;

use bytes::Bytes;

use vstd::prelude::*;

use crate::chunks::chunk_views;
use crate::rope::node::kids_chunks;
use crate::rope::node::kids_wf;
use crate::rope::node::lemma_kids_concat;
use crate::rope::node::lemma_kids_one;
use crate::rope::node::lemma_node_full;
use crate::rope::node::node_chunks;
use crate::rope::node::wf;
use crate::rope::node::Node;
use crate::rope::parts::parts_wf;
use crate::rope::parts::repr_chunks;
use crate::rope::parts::Parts;
use crate::rope::parts::Repr;
use crate::rope::tree::tree_chunks;
use crate::rope::tree::tree_wf;
use crate::rope::tree::Tree;
use crate::shared::contents;

verus! {

/// The children of a branch, of which those from `next` on are still to be walked over.
pub struct Level<'a> {
    pub children: &'a VecDeque<Node>,
    pub next: usize,
    /// The height of the children.
    pub height: Ghost<nat>,
}

/// The children are well formed and the position lies among them.
pub open spec fn level_wf(level: Level<'_>) -> bool {
    &&& level.next <= level.children@.len()
    &&& kids_wf(level.children@, level.height@)
}

/// The chunks below the children of one level that are still to come.
pub open spec fn level_left(level: Level<'_>) -> Seq<Seq<u8>> {
    kids_chunks(level.children@.skip(level.next as int), level.height@)
}

/// The chunks that are still to come on all levels: the last level comes first.
pub open spec fn levels_left(levels: Seq<Level<'_>>) -> Seq<Seq<u8>>
    decreases levels.len(),
{
    if levels.len() == 0 {
        Seq::empty()
    } else {
        level_left(levels.last()) + levels_left(levels.drop_last())
    }
}

/// A walk over the chunks of a tree: the leaf that was reached, and the branches above it.
pub struct TreeWalk<'a> {
    pub levels: Vec<Level<'a>>,
    pub leaf: Option<&'a Vec<Bytes>>,
    pub next: usize,
}

impl<'a> TreeWalk<'a> {
    /// The levels are well formed and the position lies in the leaf.
    pub open spec fn wf(self) -> bool {
        &&& forall|i: int| 0 <= i < self.levels@.len() ==> level_wf(#[trigger] self.levels@[i])
        &&& self.leaf matches Some(chunks) ==> self.next <= chunks@.len()
    }

    /// The chunks of the leaf that are still to come.
    pub open spec fn leaf_left(self) -> Seq<Seq<u8>> {
        match self.leaf {
            Some(chunks) => chunk_views(chunks@.skip(self.next as int)),
            None => Seq::empty(),
        }
    }

    /// The chunks that are still to come.
    pub open spec fn left(self) -> Seq<Seq<u8>> {
        self.leaf_left() + levels_left(self.levels@)
    }

    /// A walk over nothing.
    pub(crate) fn empty() -> (walk: Self)
        ensures
            walk.wf(),
            walk.left() == Seq::<Seq<u8>>::empty(),
            walk.leaf is None,
    {
        let walk = TreeWalk { levels: Vec::new(), leaf: None, next: 0 };
        assert(walk.left() =~= Seq::<Seq<u8>>::empty());
        walk
    }

    /// Goes down the left edge of `top` to a leaf. The branches on the way become levels whose
    /// first child is done.
    fn descend(&mut self, top: &'a Node, Ghost(h): Ghost<nat>)
        requires
            old(self).wf(),
            old(self).leaf_left().len() == 0,
            wf(*top, h),
        ensures
            final(self).wf(),
            final(self).left() == node_chunks(*top, h) + old(self).left(),
            final(self).leaf_left().len() > 0,
    {
        let ghost whole = node_chunks(*top, h) + self.left();
        let ghost mut below: nat = h;
        let mut node = top;
        proof {
            assert(self.left() =~= levels_left(self.levels@));
        }
        loop
            invariant
                self.wf(),
                wf(*node, below),
                node_chunks(*node, below) + levels_left(self.levels@) == whole,
                whole == node_chunks(*top, h) + old(self).left(),
            decreases below,
        {
            match node {
                Node::Leaf(block) => {
                    self.leaf = Some(&block.chunks);
                    self.next = 0;
                    proof {
                        lemma_node_full(*node, below);
                        assert(block.chunks@.skip(0) =~= block.chunks@);
                    }
                    return;
                },
                Node::Branch(branch) => {
                    let ghost before = self.levels@;
                    let ghost kids = branch.children@;
                    proof {
                        below = (below - 1) as nat;
                        assert(seq![kids[0]] + kids.skip(1) =~= kids);
                        lemma_kids_concat(seq![kids[0]], kids.skip(1), below);
                        lemma_kids_one(kids[0], below);
                    }
                    let level = Level { children: &branch.children, next: 1, height: Ghost(below) };
                    self.levels.push(level);
                    proof {
                        assert(self.levels@.drop_last() =~= before);
                        let first = node_chunks(kids[0], below);
                        let others = kids_chunks(kids.skip(1), below);
                        assert(first + (others + levels_left(before)) =~= first + others
                            + levels_left(before));
                        assert(wf(kids[0], below));
                    }
                    node = &branch.children[0];
                },
            }
        }
    }

    /// The first chunk of the next leaf, once the leaf that was reached is done.
    fn next_leaf(&mut self) -> (chunk: Option<&'a Bytes>)
        requires
            old(self).wf(),
            old(self).leaf_left().len() == 0,
        ensures
            final(self).wf(),
            match chunk {
                Some(chunk) => old(self).left() == seq![contents(*chunk)] + final(self).left(),
                None => old(self).left().len() == 0 && final(self).left().len() == 0,
            },
    {
        let ghost whole = self.left();
        proof {
            assert(whole =~= levels_left(self.levels@));
        }
        loop
            invariant
                self.wf(),
                self.leaf_left().len() == 0,
                levels_left(self.levels@) == whole,
                whole == old(self).left(),
            decreases self.levels@.len(),
        {
            let ghost before = self.levels@;
            match self.levels.pop() {
                None => {
                    return None;
                },
                Some(level) => {
                    let Level { children, next, height } = level;
                    let ghost rest = self.levels@;
                    let ghost kids = children@;
                    proof {
                        assert(before.drop_last() =~= rest);
                        assert(level_wf(before[before.len() - 1]));
                        assert forall|i: int| 0 <= i < rest.len() implies level_wf(
                            #[trigger] rest[i],
                        ) by {
                            assert(rest[i] == before[i]);
                        }
                    }
                    if next < children.len() {
                        proof {
                            let tail = kids.skip(next as int);
                            assert(seq![kids[next as int]] + kids.skip(next + 1) =~= tail);
                            lemma_kids_concat(seq![kids[next as int]], kids.skip(next + 1), height@);
                            lemma_kids_one(kids[next as int], height@);
                            assert(wf(kids[next as int], height@));
                        }
                        self.levels.push(Level { children, next: next + 1, height });
                        proof {
                            assert(self.levels@.drop_last() =~= rest);
                            let first = node_chunks(kids[next as int], height@);
                            let others = kids_chunks(kids.skip(next + 1), height@);
                            assert(first + others + levels_left(rest) =~= first + (others
                                + levels_left(rest)));
                            assert(self.left() =~= levels_left(self.levels@));
                        }
                        self.descend(&children[next], height);
                        return self.step();
                    }
                    proof {
                        assert(kids.skip(next as int) =~= Seq::<Node>::empty());
                        assert(Seq::<Seq<u8>>::empty() + levels_left(rest) =~= levels_left(rest));
                    }
                },
            }
        }
    }

    /// The next chunk of the leaf that was reached, if there is one.
    fn step(&mut self) -> (chunk: Option<&'a Bytes>)
        requires
            old(self).wf(),
        ensures
            final(self).wf(),
            match chunk {
                Some(chunk) => old(self).left() == seq![contents(*chunk)] + final(self).left(),
                None => *final(self) == *old(self) && old(self).leaf_left().len() == 0,
            },
    {
        match self.leaf {
            Some(chunks) => {
                if self.next < chunks.len() {
                    let ghost views = chunk_views(chunks@.skip(self.next as int));
                    let chunk = &chunks[self.next];
                    self.next = self.next + 1;
                    proof {
                        assert(views =~= seq![contents(*chunk)] + chunk_views(
                            chunks@.skip(self.next as int),
                        ));
                        assert(old(self).left() =~= seq![contents(*chunk)] + self.left());
                    }
                    return Some(chunk);
                }
                None
            },
            None => None,
        }
    }

    /// The next chunk, if there is one.
    pub(crate) fn next(&mut self) -> (chunk: Option<&'a Bytes>)
        requires
            old(self).wf(),
        ensures
            final(self).wf(),
            match chunk {
                Some(chunk) => old(self).left() == seq![contents(*chunk)] + final(self).left(),
                None => old(self).left().len() == 0 && final(self).left().len() == 0,
            },
    {
        match self.step() {
            Some(chunk) => Some(chunk),
            None => self.next_leaf(),
        }
    }
}

impl Tree {
    /// Walks over the chunks in order.
    pub(crate) fn chunks(&self) -> (walk: TreeWalk<'_>)
        requires
            tree_wf(*self),
        ensures
            walk.wf(),
            walk.left() == tree_chunks(*self),
    {
        let mut walk = TreeWalk::empty();
        match &self.root {
            Some(root) => {
                walk.descend(root, Ghost(self.height@));
                assert(walk.left() =~= tree_chunks(*self));
            },
            None => {},
        }
        walk
    }
}

/// The part of a deep rope that a walk has come to.
#[derive(Clone, Copy)]
pub enum Phase {
    Head,
    Tree,
    Tail,
}

/// A walk over the chunks of a rope.
pub enum Walk<'a> {
    /// Nothing is left.
    Done,
    Small { first: Option<&'a Bytes>, rest: &'a VecDeque<Bytes>, next: usize },
    Deep {
        head: &'a VecDeque<Bytes>,
        tree: TreeWalk<'a>,
        tail: &'a VecDeque<Bytes>,
        next: usize,
        phase: Phase,
    },
}

/// The chunk, if there is one.
pub open spec fn optional_chunk(chunk: Option<&Bytes>) -> Seq<Seq<u8>> {
    match chunk {
        Some(chunk) => seq![contents(*chunk)],
        None => Seq::empty(),
    }
}

impl<'a> Walk<'a> {
    /// The position lies in the deque that the walk has come to.
    pub open spec fn wf(self) -> bool {
        match self {
            Walk::Done => true,
            Walk::Small { first, rest, next } => {
                &&& next <= rest@.len()
                &&& first is None ==> next == rest@.len()
            },
            Walk::Deep { head, tree, tail, next, phase } => match phase {
                Phase::Head => tree.wf() && next <= head@.len(),
                Phase::Tree => tree.wf(),
                Phase::Tail => next <= tail@.len(),
            },
        }
    }

    /// The chunks that are still to come.
    pub open spec fn left(self) -> Seq<Seq<u8>> {
        match self {
            Walk::Done => Seq::empty(),
            Walk::Small { first, rest, next } => optional_chunk(first) + chunk_views(
                rest@.skip(next as int),
            ),
            Walk::Deep { head, tree, tail, next, phase } => match phase {
                Phase::Head => chunk_views(head@.skip(next as int)) + tree.left() + chunk_views(
                    tail@,
                ),
                Phase::Tree => tree.left() + chunk_views(tail@),
                Phase::Tail => chunk_views(tail@.skip(next as int)),
            },
        }
    }

    /// The next chunk, if there is one, and the walk behind it.
    pub(crate) fn next_chunk(self) -> (stepped: (Option<&'a Bytes>, Self))
        requires
            self.wf(),
        ensures
            stepped.1.wf(),
            match stepped.0 {
                Some(chunk) => self.left() == seq![contents(*chunk)] + stepped.1.left(),
                None => self.left().len() == 0 && stepped.1.left().len() == 0,
            },
    {
        let ghost whole = self.left();
        match self {
            Walk::Done => (None, Walk::Done),
            Walk::Small { first, rest, next } => {
                if next < rest.len() {
                    let follower = &rest[next];
                    let after = Walk::Small { first: Some(follower), rest, next: next + 1 };
                    proof {
                        lemma_deque_step(rest@, next as int);
                        assert(whole =~= optional_chunk(first) + after.left());
                    }
                    (first, after)
                } else {
                    let after = Walk::Small { first: None, rest, next };
                    proof {
                        assert(rest@.skip(next as int) =~= Seq::<Bytes>::empty());
                        assert(after.left() =~= Seq::<Seq<u8>>::empty());
                        assert(whole =~= optional_chunk(first));
                        assert(optional_chunk(first) + after.left() =~= whole);
                    }
                    (first, after)
                }
            },
            Walk::Deep { head, tree, tail, next, phase } => {
                let mut tree = tree;
                let mut next = next;
                let mut phase = phase;
                if let Phase::Head = phase {
                    if next < head.len() {
                        let chunk = &head[next];
                        let after = Walk::Deep { head, tree, tail, next: next + 1, phase };
                        proof {
                            lemma_deque_step(head@, next as int);
                            assert(whole =~= seq![contents(*chunk)] + after.left());
                        }
                        return (Some(chunk), after);
                    }
                    phase = Phase::Tree;
                    proof {
                        assert(head@.skip(next as int) =~= Seq::<Bytes>::empty());
                        assert(whole =~= tree.left() + chunk_views(tail@));
                    }
                }
                if let Phase::Tree = phase {
                    match tree.next() {
                        Some(chunk) => {
                            let after = Walk::Deep { head, tree, tail, next, phase };
                            assert(whole =~= seq![contents(*chunk)] + after.left());
                            return (Some(chunk), after);
                        },
                        None => {
                            next = 0;
                            phase = Phase::Tail;
                            proof {
                                assert(tail@.skip(0) =~= tail@);
                                assert(whole =~= chunk_views(tail@));
                            }
                        },
                    }
                }
                if next < tail.len() {
                    let chunk = &tail[next];
                    let after = Walk::Deep { head, tree, tail, next: next + 1, phase };
                    proof {
                        lemma_deque_step(tail@, next as int);
                        assert(whole =~= seq![contents(*chunk)] + after.left());
                    }
                    (Some(chunk), after)
                } else {
                    let after = Walk::Deep { head, tree, tail, next, phase };
                    proof {
                        assert(tail@.skip(next as int) =~= Seq::<Bytes>::empty());
                    }
                    (None, after)
                }
            },
        }
    }
}

/// The chunks of a deque from one position on: the chunk there, then those behind it.
proof fn lemma_deque_step(chunks: Seq<Bytes>, at: int)
    requires
        0 <= at < chunks.len(),
    ensures
        chunk_views(chunks.skip(at)) == seq![contents(chunks[at])] + chunk_views(chunks.skip(at + 1)),
{
    assert(chunk_views(chunks.skip(at)) =~= seq![contents(chunks[at])] + chunk_views(
        chunks.skip(at + 1),
    ));
}

impl Parts {
    /// Walks over the chunks in order.
    pub(crate) fn walk(&self) -> (walk: Walk<'_>)
        requires
            parts_wf(*self),
        ensures
            walk.wf(),
            walk.left() == repr_chunks(self.repr),
    {
        match &self.repr {
            Repr::Small { head, additional } => {
                let first: Option<&Bytes> = if head.is_empty() {
                    None
                } else {
                    Some(head)
                };
                let walk = Walk::Small { first, rest: additional, next: 0 };
                proof {
                    assert(additional@.skip(0) =~= additional@);
                    assert(walk.left() =~= repr_chunks(self.repr));
                }
                walk
            },
            Repr::Deep(deep) => {
                let tree = deep.tree.chunks();
                let walk = Walk::Deep {
                    head: &deep.head,
                    tree,
                    tail: &deep.tail,
                    next: 0,
                    phase: Phase::Head,
                };
                proof {
                    assert(deep.head@.skip(0) =~= deep.head@);
                    assert(walk.left() =~= repr_chunks(self.repr));
                }
                walk
            },
        }
    }
}

} // verus!
