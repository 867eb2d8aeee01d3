//! The nodes of the chunk tree: what they hold, when they are well formed, and how they are read.
//!
//! A leaf is a block of chunks, a branch a list of nodes of one height. Every node sits behind an
//! `Arc`, so that trees share what they have in common. A branch caches the byte length of each
//! child, the total of them and the number of chunks below it.

use std::collections::VecDeque;
use std::sync::Arc;

use bytes::Bytes;
use bytes::BytesMut;

use vstd::prelude::*;

use crate::chunks::chunk_views;
use crate::chunks::joined;
use crate::chunks::lemma_joined_at;
use crate::chunks::lemma_joined_concat;
use crate::chunks::lemma_joined_count;
use crate::chunks::lemma_joined_step;
use crate::chunks::lemma_none_empty_concat;
use crate::chunks::none_empty;
use crate::rope::owned::arc_clone;
use crate::rope::owned::arc_try_unwrap;
use crate::shared::buffered;
use crate::shared::chunk_slice;
use crate::shared::contents;

verus! {

/// Children of a branch, and chunks of a leaf, at most.
pub const FANOUT: usize = 32;

/// A block of chunks with its byte length.
pub struct Block {
    pub chunks: Vec<Bytes>,
    pub bytes: usize,
}

/// A list of nodes with their byte lengths, the sum of those and the number of chunks below.
pub struct Branch {
    pub children: VecDeque<Node>,
    pub sizes: VecDeque<usize>,
    pub total: usize,
    pub count: usize,
}

/// A leaf or a branch.
pub enum Node {
    Leaf(Arc<Block>),
    Branch(Arc<Branch>),
}

/// The chunks below a node of height `h`, in order.
pub open spec fn node_chunks(node: Node, h: nat) -> Seq<Seq<u8>>
    decreases h, 0nat,
{
    match node {
        Node::Leaf(block) => chunk_views(block.chunks@),
        Node::Branch(branch) => if h == 0 {
            Seq::empty()
        } else {
            kids_chunks(branch.children@, (h - 1) as nat)
        },
    }
}

/// The chunks below nodes of height `h`, in order.
pub open spec fn kids_chunks(kids: Seq<Node>, h: nat) -> Seq<Seq<u8>>
    decreases h, kids.len() + 1,
{
    if kids.len() == 0 {
        Seq::empty()
    } else {
        kids_chunks(kids.drop_last(), h) + node_chunks(kids.last(), h)
    }
}

/// The bytes below a node of height `h`.
pub open spec fn node_bytes(node: Node, h: nat) -> Seq<u8> {
    joined(node_chunks(node, h))
}

/// The bytes below nodes of height `h`.
pub open spec fn kids_bytes(kids: Seq<Node>, h: nat) -> Seq<u8> {
    joined(kids_chunks(kids, h))
}

/// A block with one to `FANOUT` chunks, none of them empty, and the right byte length.
pub open spec fn block_wf(block: Block) -> bool {
    &&& 1 <= block.chunks@.len() <= FANOUT
    &&& none_empty(chunk_views(block.chunks@))
    &&& block.bytes == joined(chunk_views(block.chunks@)).len()
}

/// A branch over well-formed nodes of height `h` whose cached numbers are right.
pub open spec fn branch_sized(branch: Branch, h: nat) -> bool
    decreases h, 1nat,
{
    &&& branch.sizes@.len() == branch.children@.len()
    &&& forall|i: int| #![trigger branch.children@[i]]
        0 <= i < branch.children@.len() ==> wf(branch.children@[i], h)
    &&& forall|i: int| #![trigger branch.sizes@[i]]
        0 <= i < branch.children@.len() ==> branch.sizes@[i] == node_bytes(
            branch.children@[i],
            h,
        ).len()
    &&& branch.total == kids_bytes(branch.children@, h).len()
    &&& branch.count == kids_chunks(branch.children@, h).len()
}

/// A well-formed node of height `h`: all leaves are at the same depth, no node is empty or
/// overfull, no chunk is empty, and the cached numbers are right.
pub open spec fn wf(node: Node, h: nat) -> bool
    decreases h, 0nat,
{
    match node {
        Node::Leaf(block) => h == 0 && block_wf(*block),
        Node::Branch(branch) => {
            &&& h > 0
            &&& 1 <= branch.children@.len() <= FANOUT
            &&& branch_sized(*branch, (h - 1) as nat)
        },
    }
}

/// Well-formed nodes of height `h`.
pub open spec fn kids_wf(kids: Seq<Node>, h: nat) -> bool {
    forall|i: int| 0 <= i < kids.len() ==> wf(#[trigger] kids[i], h)
}

/// The nodes of a list in front of one more node.
pub proof fn lemma_kids_push(kids: Seq<Node>, node: Node, h: nat)
    ensures
        kids_chunks(kids.push(node), h) == kids_chunks(kids, h) + node_chunks(node, h),
        kids_bytes(kids.push(node), h) == kids_bytes(kids, h) + node_bytes(node, h),
{
    assert(kids.push(node).drop_last() =~= kids);
    lemma_joined_concat(kids_chunks(kids, h), node_chunks(node, h));
}

/// A list with one node holds what that node holds.
pub proof fn lemma_kids_one(node: Node, h: nat)
    ensures
        kids_chunks(seq![node], h) == node_chunks(node, h),
        kids_bytes(seq![node], h) == node_bytes(node, h),
{
    let none = Seq::<Node>::empty();
    lemma_kids_push(none, node, h);
    assert(none.push(node) =~= seq![node]);
    assert(kids_chunks(none, h) =~= Seq::<Seq<u8>>::empty());
    assert(kids_chunks(none, h) + node_chunks(node, h) =~= node_chunks(node, h));
}

/// Two lists in a row hold what the first holds, then what the second holds.
pub proof fn lemma_kids_concat(a: Seq<Node>, b: Seq<Node>, h: nat)
    ensures
        kids_chunks(a + b, h) == kids_chunks(a, h) + kids_chunks(b, h),
        kids_bytes(a + b, h) == kids_bytes(a, h) + kids_bytes(b, h),
    decreases b.len(),
{
    if b.len() == 0 {
        assert(a + b =~= a);
        assert(kids_chunks(a, h) + kids_chunks(b, h) =~= kids_chunks(a, h));
    } else {
        lemma_kids_concat(a, b.drop_last(), h);
        assert((a + b).drop_last() =~= a + b.drop_last());
        assert(kids_chunks(a, h) + (kids_chunks(b.drop_last(), h) + node_chunks(b.last(), h))
            =~= kids_chunks(a, h) + kids_chunks(b.drop_last(), h) + node_chunks(b.last(), h));
    }
    lemma_joined_concat(kids_chunks(a, h), kids_chunks(b, h));
}

/// What a list holds, seen from one of its nodes.
pub proof fn lemma_kids_at(kids: Seq<Node>, i: int, h: nat)
    requires
        0 <= i < kids.len(),
    ensures
        kids_chunks(kids, h) == kids_chunks(kids.take(i), h) + node_chunks(kids[i], h)
            + kids_chunks(kids.skip(i + 1), h),
        kids_bytes(kids, h) == kids_bytes(kids.take(i), h) + node_bytes(kids[i], h) + kids_bytes(
            kids.skip(i + 1),
            h,
        ),
        kids_chunks(kids.take(i + 1), h) == kids_chunks(kids.take(i), h) + node_chunks(kids[i], h),
        kids_bytes(kids.take(i + 1), h) == kids_bytes(kids.take(i), h) + node_bytes(kids[i], h),
{
    lemma_kids_push(kids.take(i), kids[i], h);
    assert(kids.take(i).push(kids[i]) =~= kids.take(i + 1));
    lemma_kids_concat(kids.take(i + 1), kids.skip(i + 1), h);
    assert(kids.take(i + 1) + kids.skip(i + 1) =~= kids);
}

/// A list with one node replaced.
pub proof fn lemma_kids_update(kids: Seq<Node>, i: int, node: Node, h: nat)
    requires
        0 <= i < kids.len(),
    ensures
        kids_chunks(kids.update(i, node), h) == kids_chunks(kids.take(i), h) + node_chunks(node, h)
            + kids_chunks(kids.skip(i + 1), h),
        kids_bytes(kids.update(i, node), h) == kids_bytes(kids.take(i), h) + node_bytes(node, h)
            + kids_bytes(kids.skip(i + 1), h),
{
    let updated = kids.update(i, node);
    lemma_kids_at(updated, i, h);
    assert(updated.take(i) =~= kids.take(i));
    assert(updated.skip(i + 1) =~= kids.skip(i + 1));
}

/// A list cut in two.
pub proof fn lemma_kids_cut(kids: Seq<Node>, at: int, h: nat)
    requires
        0 <= at <= kids.len(),
    ensures
        kids_chunks(kids, h) == kids_chunks(kids.take(at), h) + kids_chunks(kids.skip(at), h),
        kids_bytes(kids, h) == kids_bytes(kids.take(at), h) + kids_bytes(kids.skip(at), h),
{
    lemma_kids_concat(kids.take(at), kids.skip(at), h);
    assert(kids.take(at) + kids.skip(at) =~= kids);
}

/// A well-formed node holds bytes, and no empty chunk.
pub proof fn lemma_node_full(node: Node, h: nat)
    requires
        wf(node, h),
    ensures
        none_empty(node_chunks(node, h)),
        node_chunks(node, h).len() > 0,
        node_bytes(node, h).len() >= node_chunks(node, h).len(),
    decreases h, 0nat,
{
    match node {
        Node::Leaf(block) => {},
        Node::Branch(branch) => {
            lemma_kids_full(branch.children@, (h - 1) as nat);
        },
    }
    lemma_joined_count(node_chunks(node, h));
}

/// Well-formed nodes hold no empty chunk, and at least one chunk each.
pub proof fn lemma_kids_full(kids: Seq<Node>, h: nat)
    requires
        kids_wf(kids, h),
    ensures
        none_empty(kids_chunks(kids, h)),
        kids_chunks(kids, h).len() >= kids.len(),
        kids_bytes(kids, h).len() >= kids_chunks(kids, h).len(),
    decreases h, kids.len() + 1,
{
    if kids.len() > 0 {
        assert forall|i: int| 0 <= i < kids.drop_last().len() implies wf(
            #[trigger] kids.drop_last()[i],
            h,
        ) by {
            assert(kids.drop_last()[i] == kids[i]);
        }
        lemma_kids_full(kids.drop_last(), h);
        assert(wf(kids[kids.len() - 1], h));
        lemma_node_full(kids.last(), h);
        lemma_none_empty_concat(kids_chunks(kids.drop_last(), h), node_chunks(kids.last(), h));
    }
    lemma_joined_count(kids_chunks(kids, h));
}

/// The first nodes of a list, and each node among them.
pub proof fn lemma_kids_reach(kids: Seq<Node>, i: int, h: nat)
    requires
        0 <= i < kids.len(),
    ensures
        kids_bytes(kids.take(i), h).len() + node_bytes(kids[i], h).len() == kids_bytes(
            kids.take(i + 1),
            h,
        ).len(),
        kids_bytes(kids.take(i + 1), h).len() <= kids_bytes(kids, h).len(),
        kids_chunks(kids.take(i), h).len() + node_chunks(kids[i], h).len() == kids_chunks(
            kids.take(i + 1),
            h,
        ).len(),
        kids_chunks(kids.take(i + 1), h).len() <= kids_chunks(kids, h).len(),
{
    lemma_kids_at(kids, i, h);
}

impl Clone for Block {
    fn clone(&self) -> (copy: Self)
        ensures
            chunk_views(copy.chunks@) == chunk_views(self.chunks@),
            copy.bytes == self.bytes,
    {
        Block { chunks: clone_chunks(&self.chunks), bytes: self.bytes }
    }
}

/// Another list of handles on the same chunks.
pub(crate) fn clone_chunks(chunks: &Vec<Bytes>) -> (copy: Vec<Bytes>)
    ensures
        chunk_views(copy@) == chunk_views(chunks@),
{
    let mut copy: Vec<Bytes> = Vec::new();
    let mut i: usize = 0;
    while i < chunks.len()
        invariant
            i <= chunks.len(),
            copy@.len() == i,
            forall|j: int| 0 <= j < i ==> contents(#[trigger] copy@[j]) == contents(chunks@[j]),
        decreases chunks.len() - i,
    {
        copy.push(chunks[i].clone());
        i = i + 1;
    }
    assert(chunk_views(copy@) =~= chunk_views(chunks@));
    copy
}

impl Clone for Branch {
    fn clone(&self) -> (copy: Self)
        ensures
            copy.children@ == self.children@,
            copy.sizes@ == self.sizes@,
            copy.total == self.total,
            copy.count == self.count,
    {
        let children = self.children.clone();
        let sizes = self.sizes.clone();
        assert(children@ =~= self.children@);
        assert(sizes@ =~= self.sizes@);
        Branch { children, sizes, total: self.total, count: self.count }
    }
}

impl Clone for Node {
    fn clone(&self) -> (copy: Self)
        ensures
            copy == *self,
    {
        match self {
            Node::Leaf(block) => Node::Leaf(arc_clone(block)),
            Node::Branch(branch) => Node::Branch(arc_clone(branch)),
        }
    }
}

/// The sum of the chunks' lengths.
pub(crate) fn chunks_len(chunks: &Vec<Bytes>) -> (len: usize)
    requires
        joined(chunk_views(chunks@)).len() <= usize::MAX,
    ensures
        len == joined(chunk_views(chunks@)).len(),
{
    let ghost views = chunk_views(chunks@);
    let mut len: usize = 0;
    let mut i: usize = 0;
    assert(views.take(0) =~= Seq::<Seq<u8>>::empty());
    while i < chunks.len()
        invariant
            i <= chunks.len(),
            views == chunk_views(chunks@),
            joined(views).len() <= usize::MAX,
            len == joined(views.take(i as int)).len(),
        decreases chunks.len() - i,
    {
        proof {
            lemma_joined_step(views, i as int);
        }
        len = len + chunks[i].len();
        i = i + 1;
    }
    assert(views.take(i as int) =~= views);
    len
}

impl Node {
    /// A leaf over `chunks`.
    pub(crate) fn leaf(chunks: Vec<Bytes>) -> (node: Node)
        requires
            1 <= chunks@.len() <= FANOUT,
            none_empty(chunk_views(chunks@)),
            joined(chunk_views(chunks@)).len() <= usize::MAX,
        ensures
            wf(node, 0),
            node_chunks(node, 0) == chunk_views(chunks@),
    {
        let bytes: usize = chunks_len(&chunks);
        Node::Leaf(Arc::new(Block { chunks, bytes }))
    }

    /// A branch over `children`, whose height is one more than theirs.
    pub(crate) fn branch(children: VecDeque<Node>, Ghost(h): Ghost<nat>) -> (node: Node)
        requires
            1 <= children@.len() <= FANOUT,
            kids_wf(children@, h),
            kids_bytes(children@, h).len() <= usize::MAX,
        ensures
            wf(node, h + 1),
            node_chunks(node, h + 1) == kids_chunks(children@, h),
    {
        let mut sizes: VecDeque<usize> = VecDeque::with_capacity(FANOUT);
        let mut total: usize = 0;
        let mut count: usize = 0;
        let mut i: usize = 0;
        proof {
            assert(children@.take(0) =~= Seq::<Node>::empty());
            lemma_kids_full(children@, h);
        }
        while i < children.len()
            invariant
                i <= children.len(),
                kids_wf(children@, h),
                kids_bytes(children@, h).len() <= usize::MAX,
                kids_chunks(children@, h).len() <= kids_bytes(children@, h).len(),
                sizes@.len() == i,
                forall|j: int| #![trigger sizes@[j]]
                    0 <= j < i ==> sizes@[j] == node_bytes(children@[j], h).len(),
                total == kids_bytes(children@.take(i as int), h).len(),
                count == kids_chunks(children@.take(i as int), h).len(),
            decreases children.len() - i,
        {
            proof {
                lemma_kids_reach(children@, i as int, h);
                assert(wf(children@[i as int], h));
            }
            let size: usize = children[i].byte_len(Ghost(h));
            total = total + size;
            count = count + children[i].chunk_len(Ghost(h));
            sizes.push_back(size);
            i = i + 1;
        }
        proof {
            assert(children@.take(i as int) =~= children@);
        }
        Node::Branch(Arc::new(Branch { children, sizes, total, count }))
    }

    /// A branch over two nodes.
    pub(crate) fn branch2(a: Node, b: Node, Ghost(h): Ghost<nat>) -> (node: Node)
        requires
            wf(a, h),
            wf(b, h),
            node_bytes(a, h).len() + node_bytes(b, h).len() <= usize::MAX,
        ensures
            wf(node, h + 1),
            node_chunks(node, h + 1) == node_chunks(a, h) + node_chunks(b, h),
    {
        proof {
            lemma_kids_one(a, h);
            lemma_kids_push(seq![a], b, h);
        }
        let mut children: VecDeque<Node> = VecDeque::with_capacity(FANOUT);
        children.push_back(a);
        children.push_back(b);
        assert(children@ =~= seq![a].push(b));
        Node::branch(children, Ghost(h))
    }

    /// The number of bytes below this node.
    pub(crate) fn byte_len(&self, Ghost(h): Ghost<nat>) -> (len: usize)
        requires
            wf(*self, h),
        ensures
            len == node_bytes(*self, h).len(),
    {
        match self {
            Node::Leaf(block) => block.bytes,
            Node::Branch(branch) => branch.total,
        }
    }

    /// The number of chunks below this node.
    pub(crate) fn chunk_len(&self, Ghost(h): Ghost<nat>) -> (len: usize)
        requires
            wf(*self, h),
        ensures
            len == node_chunks(*self, h).len(),
    {
        match self {
            Node::Leaf(block) => block.chunks.len(),
            Node::Branch(branch) => branch.count,
        }
    }

    /// A chain of branches of the same height as `beside`, down to `leaf`.
    pub(crate) fn spine(beside: &Node, leaf: Node, Ghost(h): Ghost<nat>) -> (node: Node)
        requires
            wf(*beside, h),
            wf(leaf, 0),
        ensures
            wf(node, h),
            node_chunks(node, h) == node_chunks(leaf, 0),
        decreases h,
    {
        match beside {
            Node::Leaf(_) => leaf,
            Node::Branch(branch) => {
                assert(wf(branch.children@[0], (h - 1) as nat));
                let below: Node = Node::spine(&branch.children[0], leaf, Ghost((h - 1) as nat));
                proof {
                    lemma_kids_one(below, (h - 1) as nat);
                }
                let mut children: VecDeque<Node> = VecDeque::with_capacity(FANOUT);
                children.push_back(below);
                assert(children@ =~= seq![below]);
                proof {
                    lemma_leaf_small(leaf);
                }
                Node::branch(children, Ghost((h - 1) as nat))
            },
        }
    }

    /// The chunk at `index` among the chunks below this node.
    pub(crate) fn get_chunk(&self, index: usize, Ghost(h): Ghost<nat>) -> (chunk: &Bytes)
        requires
            wf(*self, h),
            index < node_chunks(*self, h).len(),
        ensures
            contents(*chunk) == node_chunks(*self, h)[index as int],
        decreases h,
    {
        match self {
            Node::Leaf(block) => &block.chunks[index],
            Node::Branch(branch) => {
                let ghost kids = branch.children@;
                let ghost below = (h - 1) as nat;
                let mut left: usize = index;
                let mut i: usize = 0;
                assert(kids.take(0) =~= Seq::<Node>::empty());
                loop
                    invariant
                        i <= branch.children.len(),
                        branch_sized(**branch, below),
                        kids == branch.children@,
                        index < kids_chunks(kids, below).len(),
                        index == left + kids_chunks(kids.take(i as int), below).len(),
                        h == below + 1,
                        node_chunks(*self, h) == kids_chunks(kids, below),
                    decreases branch.children.len() - i,
                {
                    proof {
                        if i == kids.len() {
                            assert(kids.take(i as int) =~= kids);
                        }
                        lemma_kids_at(kids, i as int, below);
                        assert(wf(kids[i as int], below));
                    }
                    let count: usize = branch.children[i].chunk_len(Ghost(below));
                    if left < count {
                        return branch.children[i].get_chunk(left, Ghost(below));
                    }
                    left = left - count;
                    i = i + 1;
                }
            },
        }
    }

    /// Appends every byte below this node to `out`.
    pub(crate) fn append_to(&self, out: &mut BytesMut, Ghost(h): Ghost<nat>)
        requires
            wf(*self, h),
            buffered(*old(out)).len() + node_bytes(*self, h).len() <= isize::MAX,
        ensures
            buffered(*final(out)) == buffered(*old(out)) + node_bytes(*self, h),
        decreases h,
    {
        let ghost before = buffered(*out);
        match self {
            Node::Leaf(block) => {
                let ghost views = chunk_views(block.chunks@);
                let mut i: usize = 0;
                proof {
                    assert(views.take(0) =~= Seq::<Seq<u8>>::empty());
                    assert(before + joined(views.take(0)) =~= before);
                }
                while i < block.chunks.len()
                    invariant
                        i <= block.chunks.len(),
                        views == chunk_views(block.chunks@),
                        before.len() + joined(views).len() <= isize::MAX,
                        buffered(*out) == before + joined(views.take(i as int)),
                    decreases block.chunks.len() - i,
                {
                    proof {
                        lemma_joined_step(views, i as int);
                        assert(before + (joined(views.take(i as int)) + views[i as int]) =~= before
                            + joined(views.take(i as int)) + views[i as int]);
                    }
                    out.extend_from_slice(chunk_slice(&block.chunks[i]));
                    i = i + 1;
                }
                assert(views.take(i as int) =~= views);
            },
            Node::Branch(branch) => {
                let ghost kids = branch.children@;
                let ghost below = (h - 1) as nat;
                let mut i: usize = 0;
                proof {
                    assert(kids.take(0) =~= Seq::<Node>::empty());
                    assert(before + kids_bytes(kids.take(0), below) =~= before);
                }
                while i < branch.children.len()
                    invariant
                        i <= branch.children.len(),
                        h == below + 1,
                        branch_sized(**branch, below),
                        kids == branch.children@,
                        before.len() + kids_bytes(kids, below).len() <= isize::MAX,
                        buffered(*out) == before + kids_bytes(kids.take(i as int), below),
                    decreases branch.children.len() - i,
                {
                    proof {
                        lemma_kids_at(kids, i as int, below);
                        assert(wf(kids[i as int], below));
                        let front = kids_bytes(kids.take(i as int), below);
                        let next = node_bytes(kids[i as int], below);
                        assert(before + (front + next) =~= before + front + next);
                    }
                    branch.children[i].append_to(out, Ghost(below));
                    i = i + 1;
                }
                assert(kids.take(i as int) =~= kids);
            },
        }
    }

    /// The byte at `offset` among the bytes below this node.
    pub(crate) fn byte_at(&self, offset: usize, Ghost(h): Ghost<nat>) -> (byte: u8)
        requires
            wf(*self, h),
            offset < node_bytes(*self, h).len(),
        ensures
            byte == node_bytes(*self, h)[offset as int],
        decreases h,
    {
        match self {
            Node::Leaf(block) => {
                let (index, local) = find_chunk(&block.chunks, offset);
                proof {
                    lemma_joined_at(chunk_views(block.chunks@), index as int);
                }
                chunk_slice(&block.chunks[index])[local]
            },
            Node::Branch(branch) => {
                let (index, local) = find_child(branch, offset, Ghost((h - 1) as nat));
                proof {
                    lemma_kids_at(branch.children@, index as int, (h - 1) as nat);
                }
                branch.children[index].byte_at(local, Ghost((h - 1) as nat))
            },
        }
    }
}

/// A leaf holds no more bytes than it can count.
pub proof fn lemma_leaf_small(leaf: Node)
    requires
        wf(leaf, 0),
    ensures
        node_bytes(leaf, 0).len() <= usize::MAX,
{
}

/// The chunk that holds the byte at `offset`, and the offset of the byte in it.
pub(crate) fn find_chunk(chunks: &Vec<Bytes>, offset: usize) -> (place: (usize, usize))
    requires
        offset < joined(chunk_views(chunks@)).len(),
    ensures
        place.0 < chunks@.len(),
        place.1 < contents(chunks@[place.0 as int]).len(),
        offset == joined(chunk_views(chunks@).take(place.0 as int)).len() + place.1,
{
    let ghost views = chunk_views(chunks@);
    let mut local: usize = offset;
    let mut i: usize = 0;
    assert(views.take(0) =~= Seq::<Seq<u8>>::empty());
    loop
        invariant
            i <= chunks.len(),
            views == chunk_views(chunks@),
            offset < joined(views).len(),
            offset == joined(views.take(i as int)).len() + local,
        decreases chunks.len() - i,
    {
        proof {
            if i == chunks.len() {
                assert(views.take(i as int) =~= views);
            }
            lemma_joined_step(views, i as int);
        }
        let len: usize = chunks[i].len();
        if local < len {
            return (i, local);
        }
        local = local - len;
        i = i + 1;
    }
}

/// The child that holds the byte at `offset`, and the offset of the byte in it.
pub(crate) fn find_child(branch: &Branch, offset: usize, Ghost(h): Ghost<nat>) -> (place: (
    usize,
    usize,
))
    requires
        branch_sized(*branch, h),
        offset < kids_bytes(branch.children@, h).len(),
    ensures
        place.0 < branch.children@.len(),
        place.1 < node_bytes(branch.children@[place.0 as int], h).len(),
        offset == kids_bytes(branch.children@.take(place.0 as int), h).len() + place.1,
        wf(branch.children@[place.0 as int], h),
{
    let ghost kids = branch.children@;
    let mut local: usize = offset;
    let mut i: usize = 0;
    assert(kids.take(0) =~= Seq::<Node>::empty());
    loop
        invariant
            i <= branch.children.len(),
            kids == branch.children@,
            branch_sized(*branch, h),
            offset < kids_bytes(kids, h).len(),
            offset == kids_bytes(kids.take(i as int), h).len() + local,
        decreases kids.len() - i,
    {
        proof {
            if i == kids.len() {
                assert(kids.take(i as int) =~= kids);
            }
            lemma_kids_reach(kids, i as int, h);
            assert(wf(kids[i as int], h));
        }
        let size: usize = branch.sizes[i];
        if local < size {
            return (i, local);
        }
        local = local - size;
        i = i + 1;
    }
}

/// The chunks of a leaf.
pub(crate) fn into_block(node: Node) -> (chunks: Vec<Bytes>)
    requires
        wf(node, 0),
    ensures
        chunk_views(chunks@) == node_chunks(node, 0),
        1 <= chunks@.len() <= FANOUT,
{
    match node {
        Node::Leaf(handle) => match arc_try_unwrap(handle) {
            Ok(block) => block.chunks,
            Err(handle) => {
                let chunks = clone_chunks(&handle.chunks);
                assert(chunk_views(chunks@).len() == chunks@.len());
                chunks
            },
        },
        Node::Branch(_) => vstd::pervasive::unreached(),
    }
}

/// The children of a branch.
pub(crate) fn into_children(node: Node, Ghost(h): Ghost<nat>) -> (children: VecDeque<Node>)
    requires
        wf(node, h + 1),
    ensures
        kids_wf(children@, h),
        kids_chunks(children@, h) == node_chunks(node, h + 1),
        1 <= children@.len() <= FANOUT,
{
    match node {
        Node::Branch(handle) => match arc_try_unwrap(handle) {
            Ok(branch) => branch.children,
            Err(handle) => {
                let children = handle.children.clone();
                assert(children@ =~= handle.children@);
                children
            },
        },
        Node::Leaf(_) => vstd::pervasive::unreached(),
    }
}

} // verus!
