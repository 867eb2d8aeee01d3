//! The tree of chunk blocks behind a large rope.
//!
//! The height of the tree is not stored, only tracked in proofs: every function that depends on it
//! tells leaves from branches as it goes.

use std::collections::VecDeque;

use bytes::Bytes;
use bytes::BytesMut;

use vstd::prelude::*;

use crate::buffer::reader::Steady;
use crate::chunks::chunk_views;
use crate::chunks::clipped;
use crate::chunks::joined;
use crate::chunks::lemma_clipped_skip;
use crate::chunks::lemma_clipped_take;
use crate::chunks::lemma_clipped_whole;
use crate::chunks::lemma_joined_concat;
use crate::chunks::lemma_joined_count;
use crate::chunks::lemma_none_empty_concat;
use crate::chunks::none_empty;
use crate::rope::edit::lemma_patched_empty;
use crate::rope::edit::patched;
use crate::rope::ends::hollow;
use crate::rope::ends::pop_inplace;
use crate::rope::ends::pop_persistent;
use crate::rope::ends::push_inplace;
use crate::rope::ends::push_rightmost;
use crate::rope::ends::rejoined;
use crate::rope::ends::End;
use crate::rope::ends::Push;
use crate::rope::node::into_block;
use crate::rope::node::lemma_kids_one;
use crate::rope::node::lemma_node_full;
use crate::rope::node::node_bytes;
use crate::rope::node::node_chunks;
use crate::rope::node::wf;
use crate::rope::node::Node;
use crate::rope::node::FANOUT;
use crate::rope::seam::merge;
use crate::rope::seam::split_node;
use crate::rope::seam::subrange_node;
use crate::rope::seam::top;
use crate::rope::rewrite::rewritten;
use crate::rope::write::optional_bytes;
use crate::rope::write::optional_chunks;
use crate::rope::write::optional_wf;
use crate::rope::write::InsertResult;
use crate::shared::buffered;
use crate::shared::contents;

verus! {

/// A tree of chunk blocks.
pub struct Tree {
    pub root: Option<Node>,
    pub chunk_count: usize,
    /// The number of branch levels above the leaves.
    pub height: Ghost<nat>,
}

/// The chunks of a tree, in order.
pub open spec fn tree_chunks(tree: Tree) -> Seq<Seq<u8>> {
    optional_chunks(tree.root, tree.height@)
}

/// The bytes of a tree, in order.
pub open spec fn tree_bytes(tree: Tree) -> Seq<u8> {
    joined(tree_chunks(tree))
}

/// The nodes of the tree are well formed and the number of its chunks is right.
pub open spec fn tree_wf(tree: Tree) -> bool {
    &&& optional_wf(tree.root, tree.height@)
    &&& tree.chunk_count == tree_chunks(tree).len()
}

/// A well-formed tree holds no empty chunk, and no more bytes than it can count.
pub proof fn lemma_tree(tree: Tree)
    requires
        tree_wf(tree),
    ensures
        none_empty(tree_chunks(tree)),
        tree_chunks(tree).len() <= tree_bytes(tree).len() <= usize::MAX,
        tree.root is None <==> tree_chunks(tree).len() == 0,
        tree.root is None <==> tree_bytes(tree).len() == 0,
{
    match tree.root {
        Some(node) => lemma_node_full(node, tree.height@),
        None => {},
    }
}

impl Clone for Tree {
    fn clone(&self) -> (copy: Self)
        ensures
            tree_wf(*self) ==> tree_wf(copy),
            tree_chunks(copy) == tree_chunks(*self),
    {
        let root = match &self.root {
            Some(node) => Some(node.clone()),
            None => None,
        };
        Tree { root, chunk_count: self.chunk_count, height: Ghost(self.height@) }
    }
}

impl Tree {
    /// A tree without chunks.
    pub(crate) fn new() -> (tree: Self)
        ensures
            tree_wf(tree),
            tree_chunks(tree) == Seq::<Seq<u8>>::empty(),
    {
        Tree { root: None, chunk_count: 0, height: Ghost(0) }
    }

    /// The number of chunks.
    pub(crate) fn chunk_count(&self) -> (count: usize)
        requires
            tree_wf(*self),
        ensures
            count == tree_chunks(*self).len(),
    {
        self.chunk_count
    }

    /// Appends every byte of the tree to `out`.
    pub(crate) fn append_to(&self, out: &mut BytesMut)
        requires
            tree_wf(*self),
            buffered(*old(out)).len() + tree_bytes(*self).len() <= isize::MAX,
        ensures
            buffered(*final(out)) == buffered(*old(out)) + tree_bytes(*self),
    {
        match &self.root {
            Some(node) => node.append_to(out, Ghost(self.height@)),
            None => {
                assert(buffered(*out) + Seq::<u8>::empty() =~= buffered(*out));
            },
        }
    }

    /// The chunk at `index`.
    pub(crate) fn get_chunk(&self, index: usize) -> (chunk: Option<&Bytes>)
        requires
            tree_wf(*self),
        ensures
            match chunk {
                Some(chunk) => {
                    &&& index < tree_chunks(*self).len()
                    &&& contents(*chunk) == tree_chunks(*self)[index as int]
                },
                None => index >= tree_chunks(*self).len(),
            },
    {
        match &self.root {
            Some(node) => {
                if index < self.chunk_count {
                    Some(node.get_chunk(index, Ghost(self.height@)))
                } else {
                    None
                }
            },
            None => None,
        }
    }

    /// The number of bytes.
    pub(crate) fn byte_len(&self) -> (len: usize)
        requires
            tree_wf(*self),
        ensures
            len == tree_bytes(*self).len(),
    {
        match &self.root {
            Some(node) => node.byte_len(Ghost(self.height@)),
            None => 0,
        }
    }

    /// The byte at `offset`.
    pub(crate) fn byte_at(&self, offset: usize) -> (byte: u8)
        requires
            tree_wf(*self),
            offset < tree_bytes(*self).len(),
        ensures
            byte == tree_bytes(*self)[offset as int],
    {
        match &self.root {
            Some(node) => node.byte_at(offset, Ghost(self.height@)),
            None => vstd::pervasive::unreached(),
        }
    }

    /// Takes the result of an edit of the root into the tree.
    pub(crate) fn regrow(&mut self, root: Node, result: InsertResult, Ghost(h): Ghost<nat>)
        requires
            wf(root, h),
            optional_wf(result.overflow, h),
            (node_bytes(root, h) + optional_bytes(result.overflow, h)).len() <= usize::MAX,
            old(self).chunk_count + result.added == node_chunks(root, h).len() + optional_chunks(
                result.overflow,
                h,
            ).len(),
        ensures
            tree_wf(*final(self)),
            tree_chunks(*final(self)) == node_chunks(root, h) + optional_chunks(result.overflow, h),
            tree_bytes(*final(self)) == node_bytes(root, h) + optional_bytes(result.overflow, h),
    {
        proof {
            lemma_node_full(root, h);
            lemma_joined_concat(node_chunks(root, h), optional_chunks(result.overflow, h));
            if result.overflow is Some {
                lemma_node_full(result.overflow->Some_0, h);
            }
        }
        self.chunk_count = self.chunk_count + result.added;
        match result.overflow {
            Some(sibling) => {
                self.root = Some(Node::branch2(root, sibling, Ghost(h)));
                self.height = Ghost(h + 1);
            },
            None => {
                self.root = Some(root);
                self.height = Ghost(h);
                assert(node_bytes(root, h) + Seq::<u8>::empty() =~= node_bytes(root, h));
                assert(node_chunks(root, h) + Seq::<Seq<u8>>::empty() =~= node_chunks(root, h));
            },
        }
    }

    /// Overwrites `count` bytes at `offset` with the next bytes of `value`.
    pub(crate) fn overwrite<R: Steady>(&mut self, offset: usize, count: usize, value: &mut R)
        requires
            tree_wf(*old(self)),
            offset + count <= tree_bytes(*old(self)).len(),
            count <= old(value).remaining().len(),
        ensures
            tree_wf(*final(self)),
            tree_bytes(*final(self)) == patched(
                tree_bytes(*old(self)),
                offset as int,
                old(value).remaining().take(count as int),
            ),
            count > 0 ==> rewritten(
                tree_chunks(*old(self)),
                tree_chunks(*final(self)),
                offset as int,
                old(value).remaining().take(count as int),
            ),
            final(value).remaining() == old(value).remaining().skip(count as int),
    {
        let ghost h = self.height@;
        proof {
            lemma_tree(*self);
        }
        if count == 0 {
            proof {
                lemma_patched_empty(tree_bytes(*self), offset as int);
                assert(value.remaining().take(0) =~= Seq::<u8>::empty());
                assert(value.remaining().skip(0) =~= value.remaining());
            }
            return;
        }
        match self.root.take() {
            Some(node) => {
                let mut root = node;
                let result = root.overwrite(offset, count, value, Ghost(h));
                self.regrow(root, result, Ghost(h));
            },
            None => vstd::pervasive::unreached(),
        }
    }

    /// Adds a block of chunks at the back.
    pub(crate) fn push_block(&mut self, chunks: Vec<Bytes>)
        requires
            tree_wf(*old(self)),
            1 <= chunks@.len() <= FANOUT,
            none_empty(chunk_views(chunks@)),
            tree_bytes(*old(self)).len() + joined(chunk_views(chunks@)).len() <= usize::MAX,
        ensures
            tree_wf(*final(self)),
            tree_chunks(*final(self)) == tree_chunks(*old(self)) + chunk_views(chunks@),
    {
        let ghost h = self.height@;
        let ghost block = chunk_views(chunks@);
        let ghost whole = tree_chunks(*self);
        let count: usize = chunks.len();
        let leaf = Node::leaf(chunks);
        let bytes: usize = leaf.byte_len(Ghost(0));
        proof {
            lemma_tree(*self);
            lemma_joined_concat(whole, block);
            lemma_none_empty_concat(whole, block);
            lemma_joined_count(whole + block);
        }
        self.chunk_count = self.chunk_count + count;
        match self.root.take() {
            None => {
                self.root = Some(leaf);
                self.height = Ghost(0);
                assert(whole + block =~= block);
            },
            Some(node) => {
                let mut root = node;
                let flat = matches!(&root, Node::Leaf(_));
                if flat {
                    self.root = Some(Node::branch2(root, leaf, Ghost(0)));
                    self.height = Ghost(1);
                } else {
                    let mut slot = Some(leaf);
                    match push_inplace(&mut root, &mut slot, bytes, count, Ghost(h)) {
                        Push::Placed => {
                            self.root = Some(root);
                        },
                        Push::Full => {
                            match slot.take() {
                                Some(leaf) => {
                                    let sibling = Node::spine(&root, leaf, Ghost(h));
                                    self.root = Some(Node::branch2(root, sibling, Ghost(h)));
                                    self.height = Ghost(h + 1);
                                },
                                None => vstd::pervasive::unreached(),
                            }
                        },
                        Push::Shared => {
                            match slot.take() {
                                Some(leaf) => {
                                    match push_rightmost(&root, leaf.clone(), Ghost(h)) {
                                        Some(updated) => {
                                            self.root = Some(updated);
                                        },
                                        None => {
                                            let sibling = Node::spine(&root, leaf, Ghost(h));
                                            self.root = Some(
                                                Node::branch2(root, sibling, Ghost(h)),
                                            );
                                            self.height = Ghost(h + 1);
                                        },
                                    }
                                },
                                None => vstd::pervasive::unreached(),
                            }
                        },
                    }
                }
            },
        }
    }

    /// Takes the block at the front out of the tree.
    pub(crate) fn pop_front_block(&mut self) -> (block: Option<Vec<Bytes>>)
        requires
            tree_wf(*old(self)),
        ensures
            tree_wf(*final(self)),
            match block {
                Some(block) => {
                    &&& tree_chunks(*old(self)) == chunk_views(block@) + tree_chunks(*final(self))
                    &&& 1 <= block@.len() <= FANOUT
                },
                None => {
                    &&& tree_chunks(*old(self)).len() == 0
                    &&& tree_chunks(*final(self)).len() == 0
                },
            },
    {
        self.pop_end_block(End::Front)
    }

    /// Takes the block at the back out of the tree.
    pub(crate) fn pop_back_block(&mut self) -> (block: Option<Vec<Bytes>>)
        requires
            tree_wf(*old(self)),
        ensures
            tree_wf(*final(self)),
            match block {
                Some(block) => {
                    &&& tree_chunks(*old(self)) == tree_chunks(*final(self)) + chunk_views(block@)
                    &&& 1 <= block@.len() <= FANOUT
                },
                None => {
                    &&& tree_chunks(*old(self)).len() == 0
                    &&& tree_chunks(*final(self)).len() == 0
                },
            },
    {
        self.pop_end_block(End::Back)
    }

    /// Takes the block at `end` out of the tree.
    fn pop_end_block(&mut self, end: End) -> (block: Option<Vec<Bytes>>)
        requires
            tree_wf(*old(self)),
        ensures
            tree_wf(*final(self)),
            match block {
                Some(block) => {
                    &&& tree_chunks(*old(self)) == rejoined(
                        end,
                        chunk_views(block@),
                        tree_chunks(*final(self)),
                    )
                    &&& 1 <= block@.len() <= FANOUT
                },
                None => {
                    &&& tree_chunks(*old(self)).len() == 0
                    &&& tree_chunks(*final(self)).len() == 0
                },
            },
    {
        let ghost h = self.height@;
        match self.root.take() {
            None => None,
            Some(node) => {
                let mut root = node;
                let flat = matches!(&root, Node::Leaf(_));
                if flat {
                    let block = into_block(root);
                    proof {
                        let own = chunk_views(block@);
                        assert(own + Seq::<Seq<u8>>::empty() =~= own);
                        assert(Seq::<Seq<u8>>::empty() + own =~= own);
                    }
                    self.chunk_count = self.chunk_count - block.len();
                    self.height = Ghost(0);
                    return Some(block);
                }
                match pop_inplace(&mut root, end, Ghost(h)) {
                    Some(block) => {
                        assert(chunk_views(block@).len() == block@.len());
                        self.chunk_count = self.chunk_count - block.len();
                        self.install(Some(root), Ghost(h));
                        Some(block)
                    },
                    None => {
                        let (block, rest) = pop_persistent(&root, end, Ghost(h));
                        assert(chunk_views(block@).len() == block@.len());
                        self.chunk_count = self.chunk_count - block.len();
                        self.install(rest, Ghost(h));
                        Some(block)
                    },
                }
            },
        }
    }

    /// Joins two trees. Subtrees away from the seam are shared.
    pub(crate) fn concat(left: Tree, right: Tree) -> (tree: Tree)
        requires
            tree_wf(left),
            tree_wf(right),
            tree_bytes(left).len() + tree_bytes(right).len() <= usize::MAX,
        ensures
            tree_wf(tree),
            tree_chunks(tree) == tree_chunks(left) + tree_chunks(right),
    {
        let ghost a = tree_chunks(left);
        let ghost b = tree_chunks(right);
        proof {
            lemma_tree(left);
            lemma_tree(right);
            lemma_joined_concat(a, b);
            lemma_none_empty_concat(a, b);
            lemma_joined_count(a + b);
        }
        match left.root {
            None => {
                assert(a + b =~= b);
                right
            },
            Some(first) => {
                match right.root {
                    None => {
                        assert(a + b =~= a);
                        Tree { root: Some(first), chunk_count: left.chunk_count, height: left.height }
                    },
                    Some(second) => {
                        let chunk_count: usize = left.chunk_count + right.chunk_count;
                        let ghost h = top(left.height@, right.height@);
                        let nodes = merge(
                            first,
                            second,
                            Ghost(left.height@),
                            Ghost(right.height@),
                        );
                        if nodes.len() == 1 {
                            let root = nodes[0].clone();
                            proof {
                                assert(nodes@ =~= seq![root]);
                                lemma_kids_one(root, h);
                                assert(wf(nodes@[0], h));
                            }
                            Tree { root: Some(root), chunk_count, height: Ghost(h) }
                        } else {
                            let mut children: VecDeque<Node> = VecDeque::new();
                            children.push_back(nodes[0].clone());
                            children.push_back(nodes[1].clone());
                            assert(children@ =~= nodes@);
                            let root = Node::branch(children, Ghost(h));
                            Tree { root: Some(root), chunk_count, height: Ghost(h + 1) }
                        }
                    },
                }
            },
        }
    }

    /// Cuts the tree at `offset`: the bytes before it, and the bytes from it on.
    pub(crate) fn split(&self, offset: usize) -> (halves: (Tree, Tree))
        requires
            tree_wf(*self),
            offset <= tree_bytes(*self).len(),
        ensures
            tree_wf(halves.0),
            tree_wf(halves.1),
            tree_chunks(halves.0) == clipped(tree_chunks(*self), 0, offset as int),
            tree_chunks(halves.1) == clipped(
                tree_chunks(*self),
                offset as int,
                tree_bytes(*self).len() as int,
            ),
            tree_bytes(halves.0) == tree_bytes(*self).take(offset as int),
            tree_bytes(halves.1) == tree_bytes(*self).skip(offset as int),
    {
        proof {
            lemma_tree(*self);
            lemma_clipped_whole(tree_chunks(*self));
            lemma_clipped_take(tree_chunks(*self), offset as int);
            lemma_clipped_skip(tree_chunks(*self), offset as int);
        }
        match &self.root {
            None => (Tree::new(), Tree::new()),
            Some(root) => {
                if offset == 0 {
                    return (Tree::new(), self.clone());
                }
                if offset >= self.byte_len() {
                    return (self.clone(), Tree::new());
                }
                let (left, right) = split_node(root, offset, Ghost(self.height@));
                (
                    Tree::from_root(left, Ghost(self.height@)),
                    Tree::from_root(right, Ghost(self.height@)),
                )
            },
        }
    }

    /// The part of the tree between `start` and `end`. Subtrees inside it are shared.
    pub(crate) fn subrange(&self, start: usize, end: usize) -> (part: Tree)
        requires
            tree_wf(*self),
            start <= end <= tree_bytes(*self).len(),
        ensures
            tree_wf(part),
            tree_chunks(part) == clipped(tree_chunks(*self), start as int, end as int),
    {
        proof {
            lemma_tree(*self);
            lemma_clipped_whole(tree_chunks(*self));
        }
        match &self.root {
            None => Tree::new(),
            Some(root) => {
                if start == end {
                    return Tree::new();
                }
                if start == 0 && end == self.byte_len() {
                    return self.clone();
                }
                Tree::from_root(
                    subrange_node(root, start, end, Ghost(self.height@)),
                    Ghost(self.height@),
                )
            },
        }
    }

    /// A tree over `root`, as low as it can be.
    fn from_root(root: Option<Node>, Ghost(h): Ghost<nat>) -> (tree: Tree)
        requires
            optional_wf(root, h),
        ensures
            tree_wf(tree),
            tree_chunks(tree) == optional_chunks(root, h),
    {
        let mut tree = Tree::new();
        match &root {
            Some(node) => {
                tree.chunk_count = node.chunk_len(Ghost(h));
            },
            None => {},
        }
        tree.install(root, Ghost(h));
        tree
    }

    /// Makes `root` the root. Branches with a single child are skipped, and a branch without
    /// children leaves the tree empty.
    fn install(&mut self, root: Option<Node>, Ghost(h): Ghost<nat>)
        requires
            root matches Some(node) ==> wf(node, h) || hollow(node, h),
            old(self).chunk_count == optional_chunks(root, h).len(),
        ensures
            tree_wf(*final(self)),
            tree_chunks(*final(self)) == optional_chunks(root, h),
    {
        let ghost whole = optional_chunks(root, h);
        let mut ghost_h: Ghost<nat> = Ghost(h);
        let mut current = root;
        match &current {
            Some(node) => {
                if node.is_empty_branch() {
                    assert(whole =~= Seq::<Seq<u8>>::empty());
                    current = None;
                }
            },
            None => {},
        }
        loop
            invariant
                self.chunk_count == whole.len(),
                optional_wf(current, ghost_h@),
                optional_chunks(current, ghost_h@) == whole,
            ensures
                self.chunk_count == whole.len(),
                optional_wf(current, ghost_h@),
                optional_chunks(current, ghost_h@) == whole,
            decreases ghost_h@,
        {
            let below: Option<Node> = match &current {
                Some(node) => match node {
                    Node::Leaf(_) => None,
                    Node::Branch(branch) => {
                        if branch.children.len() == 1 {
                            proof {
                                let h = (ghost_h@ - 1) as nat;
                                assert(wf(branch.children@[0], h));
                                lemma_kids_one(branch.children@[0], h);
                                assert(branch.children@ =~= seq![branch.children@[0]]);
                            }
                            Some(branch.children[0].clone())
                        } else {
                            None
                        }
                    },
                },
                None => None,
            };
            match below {
                Some(child) => {
                    current = Some(child);
                    ghost_h = Ghost((ghost_h@ - 1) as nat);
                },
                None => {
                    break;
                },
            }
        }
        self.root = current;
        self.height = ghost_h;
    }
}

} // verus!
