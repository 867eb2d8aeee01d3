//! Joining two nodes along their seam, and cutting a node in pieces.

use std::collections::VecDeque;

use bytes::Bytes;

use vstd::prelude::*;

use crate::buffer::reader::sources::shorter;
use crate::chunks::beyond;
use crate::chunks::chunk_views;
use crate::chunks::clipped;
use crate::chunks::joined;
use crate::chunks::lemma_clipped_between;
use crate::chunks::lemma_clipped_concat;
use crate::chunks::lemma_clipped_full;
use crate::chunks::lemma_clipped_joined;
use crate::chunks::lemma_clipped_past;
use crate::chunks::lemma_clipped_push;
use crate::chunks::lemma_clipped_reached;
use crate::chunks::lemma_clipped_whole;
use crate::chunks::lemma_joined_concat;
use crate::chunks::lemma_joined_step;
use crate::chunks::lemma_none_empty_concat;
use crate::chunks::lemma_views_push;
use crate::chunks::none_empty;
use crate::rope::node::branch_sized;
use crate::rope::node::find_child;
use crate::rope::node::into_block;
use crate::rope::node::into_children;
use crate::rope::node::kids_bytes;
use crate::rope::node::kids_chunks;
use crate::rope::node::kids_wf;
use crate::rope::node::lemma_kids_at;
use crate::rope::node::lemma_kids_concat;
use crate::rope::node::lemma_kids_cut;
use crate::rope::node::lemma_kids_full;
use crate::rope::node::lemma_kids_one;
use crate::rope::node::lemma_kids_push;
use crate::rope::node::lemma_kids_reach;
use crate::rope::node::lemma_node_full;
use crate::rope::node::node_bytes;
use crate::rope::node::node_chunks;
use crate::rope::node::wf;
use crate::rope::node::Node;
use crate::rope::node::FANOUT;
use crate::rope::write::optional_chunks;
use crate::rope::write::optional_wf;
use crate::shared::chunk_subrange;

verus! {

/// Which of two nodes is taller.
pub enum Taller {
    Left,
    Right,
    Neither,
}

/// The larger of two heights.
pub open spec fn top(a: nat, b: nat) -> nat {
    if a >= b {
        a
    } else {
        b
    }
}

/// Goes down both nodes in step to tell which is taller.
fn taller(left: &Node, right: &Node, Ghost(hl): Ghost<nat>, Ghost(hr): Ghost<nat>) -> (taller:
    Taller)
    requires
        wf(*left, hl),
        wf(*right, hr),
    ensures
        match taller {
            Taller::Left => hl > hr,
            Taller::Right => hl < hr,
            Taller::Neither => hl == hr,
        },
    decreases hl,
{
    match left {
        Node::Leaf(_) => match right {
            Node::Leaf(_) => Taller::Neither,
            Node::Branch(_) => Taller::Right,
        },
        Node::Branch(a) => match right {
            Node::Leaf(_) => Taller::Left,
            Node::Branch(b) => {
                assert(wf(a.children@[0], (hl - 1) as nat));
                assert(wf(b.children@[0], (hr - 1) as nat));
                self::taller(
                    &a.children[0],
                    &b.children[0],
                    Ghost((hl - 1) as nat),
                    Ghost((hr - 1) as nat),
                )
            },
        },
    }
}

/// Packs up to twice `FANOUT` chunks into one or two leaves.
fn repack_leaves(chunks: Vec<Bytes>) -> (nodes: Vec<Node>)
    requires
        1 <= chunks@.len() <= 2 * FANOUT,
        none_empty(chunk_views(chunks@)),
        joined(chunk_views(chunks@)).len() <= usize::MAX,
    ensures
        1 <= nodes@.len() <= 2,
        kids_wf(nodes@, 0),
        kids_chunks(nodes@, 0) == chunk_views(chunks@),
{
    let mut chunks = chunks;
    let ghost all = chunk_views(chunks@);
    let mut nodes: Vec<Node> = Vec::new();
    if chunks.len() <= FANOUT {
        let leaf = Node::leaf(chunks);
        proof {
            lemma_kids_one(leaf, 0);
        }
        nodes.push(leaf);
        assert(nodes@ =~= seq![leaf]);
    } else {
        let rest = chunks.split_off(FANOUT);
        proof {
            let front = chunk_views(chunks@);
            let back = chunk_views(rest@);
            assert(front + back =~= all);
            lemma_joined_concat(front, back);
            lemma_none_empty_concat(front, back);
        }
        let first = Node::leaf(chunks);
        let second = Node::leaf(rest);
        proof {
            lemma_kids_one(first, 0);
            lemma_kids_push(seq![first], second, 0);
        }
        nodes.push(first);
        nodes.push(second);
        assert(nodes@ =~= seq![first].push(second));
    }
    nodes
}

/// Packs up to twice `FANOUT` nodes of height `h` into one or two branches.
fn repack_branches(children: VecDeque<Node>, Ghost(h): Ghost<nat>) -> (nodes: Vec<Node>)
    requires
        1 <= children@.len() <= 2 * FANOUT,
        kids_wf(children@, h),
        kids_bytes(children@, h).len() <= usize::MAX,
    ensures
        1 <= nodes@.len() <= 2,
        kids_wf(nodes@, h + 1),
        kids_chunks(nodes@, h + 1) == kids_chunks(children@, h),
{
    let mut children = children;
    let ghost all = children@;
    let mut nodes: Vec<Node> = Vec::new();
    if children.len() <= FANOUT {
        let branch = Node::branch(children, Ghost(h));
        proof {
            lemma_kids_one(branch, h + 1);
        }
        nodes.push(branch);
        assert(nodes@ =~= seq![branch]);
    } else {
        let rest = children.split_off(FANOUT);
        proof {
            assert(children@ + rest@ =~= all);
            lemma_kids_concat(children@, rest@, h);
            assert forall|i: int| 0 <= i < children@.len() implies wf(#[trigger] children@[i], h) by {
                assert(all[i] == children@[i]);
            }
            assert forall|i: int| 0 <= i < rest@.len() implies wf(#[trigger] rest@[i], h) by {
                assert(all[i + FANOUT] == rest@[i]);
            }
        }
        let first = Node::branch(children, Ghost(h));
        let second = Node::branch(rest, Ghost(h));
        proof {
            lemma_kids_one(first, h + 1);
            lemma_kids_push(seq![first], second, h + 1);
        }
        nodes.push(first);
        nodes.push(second);
        assert(nodes@ =~= seq![first].push(second));
    }
    nodes
}

/// Puts the nodes of `more` behind those of `front`.
fn push_all(front: &mut VecDeque<Node>, more: Vec<Node>)
    ensures
        final(front)@ == old(front)@ + more@,
{
    let ghost before = front@;
    let mut i: usize = 0;
    assert(before + more@.take(0) =~= before);
    while i < more.len()
        invariant
            i <= more.len(),
            front@ == before + more@.take(i as int),
        decreases more.len() - i,
    {
        front.push_back(more[i].clone());
        assert(more@.take(i + 1) =~= more@.take(i as int).push(more@[i as int]));
        i = i + 1;
    }
    assert(more@.take(i as int) =~= more@);
}

/// Joins two nodes into one or two nodes of the height of the taller one. Only the nodes along the
/// seam are packed anew; the others move, or are shared where something else holds their parent.
pub(crate) fn merge(
    left: Node,
    right: Node,
    Ghost(hl): Ghost<nat>,
    Ghost(hr): Ghost<nat>,
) -> (nodes: Vec<Node>)
    requires
        wf(left, hl),
        wf(right, hr),
        node_bytes(left, hl).len() + node_bytes(right, hr).len() <= usize::MAX,
    ensures
        1 <= nodes@.len() <= 2,
        kids_wf(nodes@, top(hl, hr)),
        kids_chunks(nodes@, top(hl, hr)) == node_chunks(left, hl) + node_chunks(right, hr),
    decreases hl + hr,
{
    proof {
        lemma_joined_concat(node_chunks(left, hl), node_chunks(right, hr));
        lemma_node_full(left, hl);
        lemma_node_full(right, hr);
        lemma_none_empty_concat(node_chunks(left, hl), node_chunks(right, hr));
    }
    match self::taller(&left, &right, Ghost(hl), Ghost(hr)) {
        Taller::Neither => {
            let leaves = matches!(&left, Node::Leaf(_));
            if leaves {
                let mut chunks = into_block(left);
                let mut more = into_block(right);
                let ghost a = chunks@;
                let ghost b = more@;
                chunks.append(&mut more);
                assert(chunk_views(chunks@) =~= chunk_views(a) + chunk_views(b));
                repack_leaves(chunks)
            } else {
                let ghost h = (hl - 1) as nat;
                let mut front = into_children(left, Ghost(h));
                let mut back = into_children(right, Ghost(h));
                let ghost all_front = front@;
                let ghost all_back = back@;
                match (front.pop_back(), back.pop_front()) {
                    (Some(last), Some(first)) => {
                        proof {
                            lemma_ends(all_front, front@, last, h);
                            lemma_starts(all_back, back@, first, h);
                        }
                        let seam = merge(last, first, Ghost(h), Ghost(h));
                        let ghost middle = seam@;
                        push_all(&mut front, seam);
                        proof {
                            lemma_kids_concat(
                                all_front.take(all_front.len() - 1),
                                middle,
                                h,
                            );
                            lemma_kids_concat(front@, back@, h);
                            lemma_joined_concat(kids_chunks(all_front, h), kids_chunks(all_back, h));
                            let a = kids_chunks(all_front.take(all_front.len() - 1), h);
                            let b = node_chunks(last, h);
                            let c = node_chunks(first, h);
                            let d = kids_chunks(back@, h);
                            assert((a + (b + c)) + d =~= (a + b) + (c + d));
                        }
                        front.append(&mut back);
                        repack_branches(front, Ghost(h))
                    },
                    _ => vstd::pervasive::unreached(),
                }
            }
        },
        Taller::Left => {
            let ghost h = (hl - 1) as nat;
            let mut front = into_children(left, Ghost(h));
            let ghost all = front@;
            match front.pop_back() {
                Some(last) => {
                    proof {
                        lemma_ends(all, front@, last, h);
                    }
                    let seam = merge(last, right, Ghost(h), Ghost(hr));
                    let ghost middle = seam@;
                    push_all(&mut front, seam);
                    proof {
                        lemma_kids_concat(all.take(all.len() - 1), middle, h);
                        let a = kids_chunks(all.take(all.len() - 1), h);
                        let b = node_chunks(last, h);
                        let c = node_chunks(right, hr);
                        assert(a + (b + c) =~= (a + b) + c);
                    }
                    repack_branches(front, Ghost(h))
                },
                None => vstd::pervasive::unreached(),
            }
        },
        Taller::Right => {
            let ghost h = (hr - 1) as nat;
            let mut back = into_children(right, Ghost(h));
            let ghost all = back@;
            match back.pop_front() {
                Some(first) => {
                    proof {
                        lemma_starts(all, back@, first, h);
                    }
                    let seam = merge(left, first, Ghost(hl), Ghost(h));
                    let ghost middle = seam@;
                    let mut front: VecDeque<Node> = VecDeque::new();
                    push_all(&mut front, seam);
                    assert(front@ =~= middle);
                    proof {
                        lemma_kids_concat(middle, back@, h);
                        let a = node_chunks(left, hl);
                        let b = node_chunks(first, h);
                        let c = kids_chunks(back@, h);
                        assert((a + b) + c =~= a + (b + c));
                    }
                    front.append(&mut back);
                    repack_branches(front, Ghost(h))
                },
                None => vstd::pervasive::unreached(),
            }
        },
    }
}

/// A list without its last node.
proof fn lemma_ends(all: Seq<Node>, front: Seq<Node>, last: Node, h: nat)
    requires
        all.len() > 0,
        kids_wf(all, h),
        front == all.subrange(0, all.len() - 1),
        last == all[all.len() - 1],
    ensures
        front == all.take(all.len() - 1),
        kids_chunks(all, h) == kids_chunks(front, h) + node_chunks(last, h),
        kids_bytes(all, h) == kids_bytes(front, h) + node_bytes(last, h),
        kids_wf(front, h),
        wf(last, h),
{
    lemma_kids_push(front, last, h);
    assert(front.push(last) =~= all);
    assert(wf(all[all.len() - 1], h));
    assert forall|i: int| 0 <= i < front.len() implies wf(#[trigger] front[i], h) by {
        assert(all[i] == front[i]);
    }
}

/// A list without its first node.
proof fn lemma_starts(all: Seq<Node>, back: Seq<Node>, first: Node, h: nat)
    requires
        all.len() > 0,
        kids_wf(all, h),
        back == all.subrange(1, all.len() as int),
        first == all[0],
    ensures
        kids_chunks(all, h) == node_chunks(first, h) + kids_chunks(back, h),
        kids_bytes(all, h) == node_bytes(first, h) + kids_bytes(back, h),
        kids_wf(back, h),
        wf(first, h),
{
    lemma_kids_one(first, h);
    lemma_kids_concat(seq![first], back, h);
    assert(seq![first] + back =~= all);
    assert(wf(all[0], h));
    assert forall|i: int| 0 <= i < back.len() implies wf(#[trigger] back[i], h) by {
        assert(all[i + 1] == back[i]);
    }
}

/// The parts of `chunks` from `start` to `end`.
pub(crate) fn cut_chunks(chunks: &Vec<Bytes>, start: usize, end: usize) -> (out: Vec<Bytes>)
    requires
        start < end <= joined(chunk_views(chunks@)).len(),
        joined(chunk_views(chunks@)).len() <= usize::MAX,
        none_empty(chunk_views(chunks@)),
    ensures
        chunk_views(out@) == clipped(chunk_views(chunks@), start as int, end as int),
        none_empty(chunk_views(out@)),
        1 <= out@.len() <= chunks@.len(),
{
    let ghost views = chunk_views(chunks@);
    let mut out: Vec<Bytes> = Vec::new();
    let mut reach: usize = 0;
    let mut i: usize = 0;
    proof {
        assert(views.take(0) =~= Seq::<Seq<u8>>::empty());
        assert(chunk_views(out@) =~= clipped(views.take(0), start as int, end as int));
    }
    while i < chunks.len() && reach < end
        invariant
            i <= chunks.len(),
            views == chunk_views(chunks@),
            joined(views).len() <= usize::MAX,
            start < end <= joined(views).len(),
            none_empty(views),
            reach == joined(views.take(i as int)).len(),
            chunk_views(out@) == clipped(views.take(i as int), start as int, end as int),
        decreases chunks.len() - i,
    {
        let len: usize = chunks[i].len();
        proof {
            lemma_joined_step(views, i as int);
            assert(views[i as int].len() > 0);
            assert(views.take(i + 1) =~= views.take(i as int).push(views[i as int]));
            lemma_clipped_push(views.take(i as int), views[i as int], start as int, end as int);
        }
        let next: usize = reach + len;
        if next > start {
            let lo: usize = if start > reach {
                start - reach
            } else {
                0
            };
            let hi: usize = shorter(end, next) - reach;
            let part = chunk_subrange(&chunks[i], lo, hi);
            proof {
                lemma_views_push(out@, part);
            }
            out.push(part);
        }
        reach = next;
        i = i + 1;
    }
    proof {
        lemma_clipped_reached(views, i as int, start as int, end as int);
        lemma_clipped_full(views, start as int, end as int);
        lemma_clipped_joined(views, start as int, end as int);
        assert(chunk_views(out@).len() == out@.len());
        if out@.len() == 0 {
            assert(chunk_views(out@) =~= Seq::<Seq<u8>>::empty());
        }
    }
    out
}

/// Handles on the children from `from` to `to`.
fn clone_range(children: &VecDeque<Node>, from: usize, to: usize) -> (part: VecDeque<Node>)
    requires
        from <= to <= children@.len(),
    ensures
        part@ == children@.subrange(from as int, to as int),
{
    let mut part: VecDeque<Node> = VecDeque::new();
    let mut i: usize = from;
    while i < to
        invariant
            from <= i <= to <= children@.len(),
            part@ == children@.subrange(from as int, i as int),
        decreases to - i,
    {
        part.push_back(children[i].clone());
        assert(part@ =~= children@.subrange(from as int, i + 1));
        i = i + 1;
    }
    part
}

/// Cuts a node at `offset`: the bytes before it, and the bytes from it on. Subtrees that lie on one
/// side are shared.
pub(crate) fn split_node(node: &Node, offset: usize, Ghost(h): Ghost<nat>) -> (halves: (
    Option<Node>,
    Option<Node>,
))
    requires
        wf(*node, h),
        offset <= node_bytes(*node, h).len(),
    ensures
        optional_wf(halves.0, h),
        optional_wf(halves.1, h),
        optional_chunks(halves.0, h) == clipped(node_chunks(*node, h), 0, offset as int),
        optional_chunks(halves.1, h) == clipped(
            node_chunks(*node, h),
            offset as int,
            node_bytes(*node, h).len() as int,
        ),
    decreases h,
{
    let ghost list = node_chunks(*node, h);
    let len: usize = node.byte_len(Ghost(h));
    proof {
        lemma_node_full(*node, h);
        lemma_clipped_whole(list);
    }
    if offset == 0 {
        return (None, Some(node.clone()));
    }
    if offset == len {
        return (Some(node.clone()), None);
    }
    match node {
        Node::Leaf(block) => {
            let left = cut_chunks(&block.chunks, 0, offset);
            let right = cut_chunks(&block.chunks, offset, len);
            proof {
                lemma_clipped_joined(list, 0, offset as int);
                lemma_clipped_joined(list, offset as int, len as int);
            }
            (Some(Node::leaf(left)), Some(Node::leaf(right)))
        },
        Node::Branch(branch) => {
            let ghost below = (h - 1) as nat;
            let ghost kids = branch.children@;
            let (i, local) = find_child(branch, offset, Ghost(below));
            let (cl, cr) = split_node(&branch.children[i], local, Ghost(below));
            let mut left = clone_range(&branch.children, 0, i);
            let mut right: VecDeque<Node> = VecDeque::new();
            let mut rest = clone_range(&branch.children, i + 1, branch.children.len());
            let ghost front = left@;
            let ghost back = rest@;
            proof {
                assert(front =~= kids.take(i as int));
                assert(back =~= kids.skip(i + 1));
                lemma_kids_at(kids, i as int, below);
                assert forall|j: int| 0 <= j < front.len() implies wf(#[trigger] front[j], below) by {
                    assert(kids[j] == front[j]);
                }
                assert forall|j: int| 0 <= j < back.len() implies wf(#[trigger] back[j], below) by {
                    assert(kids[j + i + 1] == back[j]);
                }
                lemma_kids_optional(front, cl, below);
                lemma_optional_kids(cr, back, below);
                lemma_kids_full(front, below);
                lemma_kids_full(back, below);
                lemma_clipped_between(
                    kids_chunks(front, below),
                    node_chunks(kids[i as int], below),
                    kids_chunks(back, below),
                    local as int,
                );
                lemma_clipped_joined(list, 0, offset as int);
                lemma_clipped_joined(list, offset as int, len as int);
            }
            match cl {
                Some(child) => left.push_back(child),
                None => {},
            }
            match cr {
                Some(child) => right.push_back(child),
                None => {},
            }
            right.append(&mut rest);
            assert(left@ =~= front + optional_node(cl));
            assert(right@ =~= optional_node(cr) + back);
            proof {
                if left@.len() == 0 {
                    assert(kids_chunks(left@, below) =~= Seq::<Seq<u8>>::empty());
                }
                if right@.len() == 0 {
                    assert(kids_chunks(right@, below) =~= Seq::<Seq<u8>>::empty());
                }
            }
            (Some(Node::branch(left, Ghost(below))), Some(Node::branch(right, Ghost(below))))
        },
    }
}

/// The node, if there is one.
pub open spec fn optional_node(node: Option<Node>) -> Seq<Node> {
    match node {
        Some(node) => seq![node],
        None => Seq::empty(),
    }
}

/// A list with at most one more node at the back.
proof fn lemma_kids_optional(kids: Seq<Node>, node: Option<Node>, h: nat)
    ensures
        kids_chunks(kids + optional_node(node), h) == kids_chunks(kids, h) + optional_chunks(
            node,
            h,
        ),
{
    lemma_kids_concat(kids, optional_node(node), h);
    match node {
        Some(node) => lemma_kids_one(node, h),
        None => {},
    }
}

/// A list with at most one more node at the front.
proof fn lemma_optional_kids(node: Option<Node>, kids: Seq<Node>, h: nat)
    ensures
        kids_chunks(optional_node(node) + kids, h) == optional_chunks(node, h) + kids_chunks(
            kids,
            h,
        ),
{
    lemma_kids_concat(optional_node(node), kids, h);
    match node {
        Some(node) => lemma_kids_one(node, h),
        None => {},
    }
}

/// The part of a node between `start` and `end`, as a node of the same height. Children that lie
/// inside are shared; only those at the two ends are cut.
pub(crate) fn subrange_node(node: &Node, start: usize, end: usize, Ghost(h): Ghost<nat>) -> (part:
    Option<Node>)
    requires
        wf(*node, h),
        start <= end <= node_bytes(*node, h).len(),
    ensures
        optional_wf(part, h),
        optional_chunks(part, h) == clipped(node_chunks(*node, h), start as int, end as int),
        part is None <==> start == end,
    decreases h,
{
    let ghost list = node_chunks(*node, h);
    let len: usize = node.byte_len(Ghost(h));
    proof {
        lemma_node_full(*node, h);
        lemma_clipped_whole(list);
        lemma_clipped_joined(list, start as int, end as int);
    }
    if start == 0 && end == len {
        return Some(node.clone());
    }
    if start == end {
        return None;
    }
    match node {
        Node::Leaf(block) => Some(Node::leaf(cut_chunks(&block.chunks, start, end))),
        Node::Branch(branch) => {
            let ghost below = (h - 1) as nat;
            let ghost kids = branch.children@;
            let mut children: VecDeque<Node> = VecDeque::new();
            let mut reach: usize = 0;
            let mut i: usize = 0;
            proof {
                assert(kids.take(0) =~= Seq::<Node>::empty());
                assert(kids_chunks(kids.take(0), below) =~= Seq::<Seq<u8>>::empty());
                assert(kids_chunks(children@, below) =~= Seq::<Seq<u8>>::empty());
            }
            while i < branch.children.len() && reach < end
                invariant
                    i <= branch.children.len(),
                    h == below + 1,
                    kids == branch.children@,
                    branch_sized(**branch, below),
                    kids.len() <= FANOUT,
                    list == kids_chunks(kids, below),
                    joined(list).len() <= usize::MAX,
                    start < end <= joined(list).len(),
                    reach == kids_bytes(kids.take(i as int), below).len(),
                    kids_chunks(children@, below) == clipped(
                        kids_chunks(kids.take(i as int), below),
                        start as int,
                        end as int,
                    ),
                    kids_wf(children@, below),
                    children@.len() <= i,
                decreases branch.children.len() - i,
            {
                let size: usize = branch.sizes[i];
                let ghost own = node_chunks(kids[i as int], below);
                proof {
                    lemma_kids_reach(kids, i as int, below);
                    lemma_kids_at(kids, i as int, below);
                    assert(wf(kids[i as int], below));
                    lemma_node_full(kids[i as int], below);
                    let front = kids_chunks(kids.take(i as int), below);
                    lemma_clipped_concat(front, own, start as int, end as int);
                    lemma_clipped_past(
                        own,
                        beyond(start as int, reach as int),
                        beyond(end as int, reach as int),
                    );
                }
                let next: usize = reach + size;
                if next > start {
                    let lo: usize = if start > reach {
                        start - reach
                    } else {
                        0
                    };
                    let hi: usize = shorter(end, next) - reach;
                    match subrange_node(&branch.children[i], lo, hi, Ghost(below)) {
                        Some(child) => {
                            proof {
                                lemma_kids_push(children@, child, below);
                            }
                            children.push_back(child);
                        },
                        None => {},
                    }
                }
                reach = next;
                i = i + 1;
            }
            proof {
                lemma_kids_cut(kids, i as int, below);
                let front = kids_chunks(kids.take(i as int), below);
                let back = kids_chunks(kids.skip(i as int), below);
                lemma_clipped_concat(front, back, start as int, end as int);
                if i == kids.len() {
                    assert(kids.take(i as int) =~= kids);
                    assert(kids_chunks(kids.skip(i as int), below) =~= Seq::<Seq<u8>>::empty());
                }
                assert(clipped(front, start as int, end as int) + Seq::<Seq<u8>>::empty()
                    =~= clipped(front, start as int, end as int));
                assert(kids_chunks(children@, below) == clipped(list, start as int, end as int));
                if children@.len() == 0 {
                    assert(kids_chunks(children@, below) =~= Seq::<Seq<u8>>::empty());
                    lemma_clipped_joined(list, start as int, end as int);
                    assert(joined(Seq::<Seq<u8>>::empty()).len() == 0);
                }
            }
            Some(Node::branch(children, Ghost(below)))
        },
    }
}

} // verus!
