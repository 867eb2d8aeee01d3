//! Joining ropes and cutting them.

use std::collections::VecDeque;

use bytes::Bytes;

use vstd::prelude::*;

use crate::buffer::reader::sources::shorter;
use crate::chunks::beyond;
use crate::chunks::chunk_views;
use crate::chunks::clipped;
use crate::chunks::joined;
use crate::chunks::lemma_clipped_concat;
use crate::chunks::lemma_clipped_first;
use crate::chunks::lemma_clipped_full;
use crate::chunks::lemma_clipped_joined;
use crate::chunks::lemma_clipped_one;
use crate::chunks::lemma_clipped_past;
use crate::chunks::lemma_clipped_push;
use crate::chunks::lemma_clipped_reached;
use crate::chunks::lemma_clipped_whole;
use crate::chunks::lemma_joined_concat;
use crate::chunks::lemma_joined_one;
use crate::chunks::lemma_joined_push;
use crate::chunks::lemma_joined_step;
use crate::chunks::none_empty;
use crate::rope::parts::deep_chunks;
use crate::rope::parts::deque_bytes;
use crate::rope::parts::extend_blocks;
use crate::rope::parts::lemma_deep;
use crate::rope::parts::lemma_no_views;
use crate::rope::parts::lemma_repr;
use crate::rope::parts::lemma_views_back;
use crate::rope::parts::lemma_views_front;
use crate::rope::parts::parts_wf;
use crate::rope::parts::repr_chunks;
use crate::rope::parts::small_chunks;
use crate::rope::parts::Deep;
use crate::rope::parts::Parts;
use crate::rope::parts::Repr;
use crate::rope::parts::DEMOTE_AT;
use crate::rope::parts::PROMOTE_AT;
use crate::rope::take::lemma_front;
use crate::rope::tree::tree_chunks;
use crate::rope::tree::tree_wf;
use crate::rope::tree::Tree;
use crate::shared::chunk_subrange;
use crate::shared::contents;

verus! {

/// Whether a rope joined from two is deep, where each part is told by whether it is deep and how
/// many chunks it has. An empty part leaves the other as it is.
pub open spec fn joined_deep(left: bool, count: nat, right: bool, more: nat) -> bool {
    if more == 0 {
        left
    } else if count == 0 {
        right
    } else {
        (left || count + more >= PROMOTE_AT) && count + more > DEMOTE_AT
    }
}

/// Whether the halves of a rope are deep, where the rope and each half are told by whether they are
/// deep and how many chunks they have. An empty half leaves the other as it was. A deep rope leaves
/// a half deep only if it has enough chunks to stay so; of a small rope a half is deep if it has too
/// many to stay small, the second one only if the cut gave it a new first chunk.
pub open spec fn split_deep(
    deep: bool,
    count: nat,
    first: nat,
    first_deep: bool,
    second: nat,
    second_deep: bool,
) -> bool {
    if first == 0 {
        !first_deep && second_deep == deep
    } else if second == 0 {
        first_deep == deep && !second_deep
    } else if deep {
        first_deep == (first > DEMOTE_AT) && second_deep == (second > DEMOTE_AT)
    } else {
        &&& first_deep == (first > PROMOTE_AT)
        &&& second_deep == (second > PROMOTE_AT && first + second > count)
    }
}

/// Whether a part of a rope is deep: the whole rope as it was, a part of a small rope if it has too
/// many chunks to be small. A part of a deep rope with so many is deep too, and with no more than a
/// rope is made small with, it is small.
pub open spec fn sliced_deep(deep: bool, whole: bool, count: nat, part_deep: bool) -> bool {
    if whole {
        part_deep == deep
    } else if !deep {
        part_deep == (count > PROMOTE_AT)
    } else {
        &&& count > PROMOTE_AT ==> part_deep
        &&& part_deep ==> count > DEMOTE_AT
    }
}

/// The parts of the chunks of a deque from `start` to `end`, where the first byte of the deque is at
/// `region`.
fn slice_deque_chunks(
    chunks: &VecDeque<Bytes>,
    region: usize,
    start: usize,
    end: usize,
) -> (out: VecDeque<Bytes>)
    requires
        none_empty(chunk_views(chunks@)),
        region + joined(chunk_views(chunks@)).len() <= usize::MAX,
        start <= end <= region + joined(chunk_views(chunks@)).len(),
    ensures
        chunk_views(out@) == clipped(
            chunk_views(chunks@),
            beyond(start as int, region as int),
            beyond(end as int, region as int),
        ),
        none_empty(chunk_views(out@)),
{
    let ghost views = chunk_views(chunks@);
    let from: usize = if start > region {
        start - region
    } else {
        0
    };
    let to: usize = if end > region {
        end - region
    } else {
        0
    };
    let mut out: VecDeque<Bytes> = VecDeque::new();
    let mut reach: usize = 0;
    let mut i: usize = 0;
    proof {
        lemma_no_views();
        assert(views.take(0) =~= Seq::<Seq<u8>>::empty());
        assert(chunk_views(out@) =~= clipped(views.take(0), from as int, to as int));
    }
    while i < chunks.len() && reach < to
        invariant
            i <= chunks.len(),
            views == chunk_views(chunks@),
            joined(views).len() <= usize::MAX,
            from <= to <= joined(views).len(),
            none_empty(views),
            reach == joined(views.take(i as int)).len(),
            chunk_views(out@) == clipped(views.take(i as int), from as int, to as int),
        decreases chunks.len() - i,
    {
        let len: usize = chunks[i].len();
        proof {
            lemma_joined_step(views, i as int);
            assert(views.take(i + 1) =~= views.take(i as int).push(views[i as int]));
            lemma_clipped_push(views.take(i as int), views[i as int], from as int, to as int);
        }
        let next: usize = reach + len;
        if next > from {
            let lo: usize = if from > reach {
                from - reach
            } else {
                0
            };
            let hi: usize = shorter(to, next) - reach;
            if lo < hi {
                let part = chunk_subrange(&chunks[i], lo, hi);
                proof {
                    lemma_views_back(out@, part);
                }
                out.push_back(part);
            }
        }
        reach = next;
        i = i + 1;
    }
    proof {
        lemma_clipped_reached(views, i as int, from as int, to as int);
        lemma_clipped_full(views, from as int, to as int);
    }
    out
}

impl Parts {
    /// The whole rope as one tree.
    pub(crate) fn into_tree(self) -> (tree: Tree)
        requires
            parts_wf(self),
        ensures
            tree_wf(tree),
            tree_chunks(tree) == repr_chunks(self.repr),
    {
        proof {
            lemma_no_views();
            lemma_repr(self.repr);
        }
        match self.repr {
            Repr::Small { head, additional } => {
                let mut chunks = additional;
                let mut tree = Tree::new();
                proof {
                    lemma_views_front(head, chunks@);
                }
                if !head.is_empty() {
                    chunks.push_front(head);
                } else {
                    assert(chunks@ =~= Seq::<Bytes>::empty());
                }
                assert(chunk_views(chunks@) =~= repr_chunks(self.repr));
                let ghost all = chunk_views(chunks@);
                extend_blocks(&mut tree, chunks);
                assert(Seq::<Seq<u8>>::empty() + all =~= all);
                tree
            },
            Repr::Deep(deep) => {
                proof {
                    lemma_deep(*deep);
                }
                let ghost front = chunk_views(deep.head@);
                let ghost middle = tree_chunks(deep.tree);
                let ghost back = chunk_views(deep.tail@);
                let Deep { head, tree, tail } = *deep;
                let mut whole = tree;
                if head.len() > 0 {
                    let mut first = Tree::new();
                    extend_blocks(&mut first, head);
                    assert(Seq::<Seq<u8>>::empty() + front =~= front);
                    whole = Tree::concat(first, whole);
                } else {
                    assert(head@ =~= Seq::<Bytes>::empty());
                    assert(front + middle =~= middle);
                }
                proof {
                    lemma_joined_concat(front, middle);
                }
                if tail.len() > 0 {
                    let mut last = Tree::new();
                    extend_blocks(&mut last, tail);
                    assert(Seq::<Seq<u8>>::empty() + back =~= back);
                    whole = Tree::concat(whole, last);
                } else {
                    assert(tail@ =~= Seq::<Bytes>::empty());
                    assert(front + middle + back =~= front + middle);
                }
                whole
            },
        }
    }

    /// A rope over a tree. It is small if the tree is.
    pub(crate) fn from_tree(tree: Tree) -> (parts: Self)
        requires
            tree_wf(tree),
        ensures
            parts_wf(parts),
            repr_chunks(parts.repr) == tree_chunks(tree),
            parts.repr is Deep <==> tree_chunks(tree).len() > DEMOTE_AT,
    {
        let len: usize = tree.byte_len();
        let ghost whole = tree_chunks(tree);
        let deep = Deep { head: VecDeque::new(), tree, tail: VecDeque::new() };
        proof {
            lemma_no_views();
            assert(deep_chunks(deep) =~= whole);
        }
        let parts = Parts { len, repr: Repr::Deep(Box::new(deep)) };
        parts.maybe_demote()
    }

    /// Whether the rope is deep.
    pub(crate) fn is_deep(&self) -> (deep: bool)
        ensures
            deep == (self.repr is Deep),
    {
        match &self.repr {
            Repr::Small { .. } => false,
            Repr::Deep(_) => true,
        }
    }

    /// Moves the chunks of another rope to the back of this one.
    pub(crate) fn append(self, other: Self) -> (parts: Self)
        requires
            parts_wf(self),
            parts_wf(other),
            self.len + other.len <= usize::MAX,
        ensures
            parts_wf(parts),
            repr_chunks(parts.repr) == repr_chunks(self.repr) + repr_chunks(other.repr),
            parts.repr is Deep <==> joined_deep(
                self.repr is Deep,
                repr_chunks(self.repr).len(),
                other.repr is Deep,
                repr_chunks(other.repr).len(),
            ),
    {
        let ghost a = repr_chunks(self.repr);
        let ghost b = repr_chunks(other.repr);
        proof {
            lemma_repr(self.repr);
            lemma_repr(other.repr);
            lemma_joined_concat(a, b);
        }
        if other.len == 0 {
            assert(a + b =~= a);
            return self;
        }
        if self.len == 0 {
            assert(a + b =~= b);
            return other;
        }
        let deep = self.is_deep();
        let count: usize = self.chunk_count();
        let more: usize = other.chunk_count();
        if !deep && count < PROMOTE_AT && more < PROMOTE_AT - count {
            return self.push_all(other);
        }
        let left = self.into_tree();
        let right = other.into_tree();
        Parts::from_tree(Tree::concat(left, right))
    }

    /// Moves the chunks of another rope to the back of this one, one by one.
    fn push_all(self, other: Self) -> (parts: Self)
        requires
            parts_wf(self),
            parts_wf(other),
            self.len + other.len <= usize::MAX,
        ensures
            parts_wf(parts),
            repr_chunks(parts.repr) == repr_chunks(self.repr) + repr_chunks(other.repr),
            parts.repr is Deep ==> self.repr is Deep || repr_chunks(parts.repr).len() > PROMOTE_AT,
    {
        let ghost a = repr_chunks(self.repr);
        let ghost b = repr_chunks(other.repr);
        let mut whole = self;
        let mut rest = other;
        loop
            invariant
                parts_wf(whole),
                parts_wf(rest),
                whole.len + rest.len <= usize::MAX,
                repr_chunks(whole.repr) + repr_chunks(rest.repr) == a + b,
                whole.repr is Deep ==> self.repr is Deep || a.len() + b.len() > PROMOTE_AT,
            ensures
                parts_wf(whole),
                repr_chunks(whole.repr) == a + b,
                whole.repr is Deep ==> self.repr is Deep || a.len() + b.len() > PROMOTE_AT,
            decreases repr_chunks(rest.repr).len(),
        {
            let ghost front = repr_chunks(whole.repr);
            let ghost back = repr_chunks(rest.repr);
            let (popped, left) = rest.pop_front();
            rest = left;
            match popped {
                Some(chunk) => {
                    proof {
                        lemma_front(contents(chunk), repr_chunks(rest.repr));
                        lemma_joined_push(front, contents(chunk));
                        assert(front.push(contents(chunk)) + repr_chunks(rest.repr) =~= front
                            + back);
                    }
                    whole = whole.push_back(chunk);
                },
                None => {
                    assert(front + back =~= front);
                    break;
                },
            }
        }
        whole
    }

    /// Cuts off the first `at` bytes.
    pub(crate) fn split_to(self, at: usize) -> (halves: (Self, Self))
        requires
            parts_wf(self),
            at <= self.len,
        ensures
            parts_wf(halves.0),
            parts_wf(halves.1),
            repr_chunks(halves.0.repr) == clipped(repr_chunks(self.repr), 0, at as int),
            repr_chunks(halves.1.repr) == clipped(
                repr_chunks(self.repr),
                at as int,
                self.len as int,
            ),
            split_deep(
                self.repr is Deep,
                repr_chunks(self.repr).len(),
                repr_chunks(halves.0.repr).len(),
                halves.0.repr is Deep,
                repr_chunks(halves.1.repr).len(),
                halves.1.repr is Deep,
            ),
    {
        let ghost list = repr_chunks(self.repr);
        proof {
            lemma_repr(self.repr);
            lemma_clipped_whole(list);
            lemma_clipped_joined(list, 0, at as int);
            lemma_clipped_joined(list, at as int, self.len as int);
        }
        if at == 0 {
            return (Parts::new(), self);
        }
        if at == self.len {
            return (self, Parts::new());
        }
        if self.is_deep() {
            let (left, right) = self.into_tree().split(at);
            return (Parts::from_tree(left), Parts::from_tree(right));
        }
        let mut out = Parts::new();
        let mut rest = self;
        let mut remaining: usize = at;
        let ghost front = clipped(list, 0, at as int);
        let ghost back = clipped(list, at as int, self.len as int);
        assert(Seq::<Seq<u8>>::empty() + front =~= front);
        while remaining > 0
            invariant
                parts_wf(out),
                parts_wf(rest),
                out.len + rest.len <= usize::MAX,
                remaining < rest.len,
                front == clipped(list, 0, at as int),
                back == clipped(list, at as int, self.len as int),
                list == repr_chunks(self.repr),
                repr_chunks(out.repr) + clipped(repr_chunks(rest.repr), 0, remaining as int)
                    == front,
                clipped(repr_chunks(rest.repr), remaining as int, rest.len as int) == back,
                out.repr is Deep <==> repr_chunks(out.repr).len() > PROMOTE_AT,
                !(rest.repr is Deep),
                repr_chunks(out.repr).len() + repr_chunks(rest.repr).len() == list.len(),
                0 < at < self.len,
                remaining < at ==> repr_chunks(out.repr).len() > 0,
                !(self.repr is Deep),
            decreases remaining,
        {
            let ghost done = repr_chunks(out.repr);
            let ghost before = remaining as int;
            let (popped, left) = rest.pop_front();
            rest = left;
            match popped {
                Some(chunk) => {
                    let len: usize = chunk.len();
                    let ghost others = repr_chunks(rest.repr);
                    proof {
                        lemma_repr(rest.repr);
                        lemma_front(contents(chunk), others);
                        lemma_joined_push(done, contents(chunk));
                        lemma_clipped_first(contents(chunk), others, before);
                    }
                    if len <= remaining {
                        remaining = remaining - len;
                        out = out.push_back(chunk);
                        assert(done.push(contents(chunk)) + clipped(others, 0, before - len)
                            =~= done + (seq![contents(chunk)] + clipped(others, 0, before - len)));
                    } else {
                        let mut chunk = chunk;
                        let piece = chunk.split_to(remaining);
                        proof {
                            lemma_joined_push(done, contents(piece));
                            lemma_front(contents(chunk), others);
                        }
                        out = out.push_back(piece);
                        rest = rest.push_front(chunk);
                        assert(done.push(contents(piece)) =~= done + seq![contents(piece)]);
                        return (out, rest);
                    }
                },
                None => {
                    proof {
                        assert(false);
                    }
                    return (out, rest);
                },
            }
        }
        proof {
            lemma_repr(rest.repr);
            lemma_clipped_whole(repr_chunks(rest.repr));
            assert(repr_chunks(out.repr) + Seq::<Seq<u8>>::empty() =~= repr_chunks(out.repr));
        }
        (out, rest)
    }

    /// Another handle on the same chunks.
    pub(crate) fn share(&self) -> (copy: Self)
        requires
            parts_wf(*self),
        ensures
            parts_wf(copy),
            repr_chunks(copy.repr) == repr_chunks(self.repr),
            copy.repr is Deep <==> self.repr is Deep,
    {
        match &self.repr {
            Repr::Small { head, additional } => {
                let copy = clone_deque(additional);
                let head = head.clone();
                assert(chunk_views(copy@).len() == copy@.len());
                assert(chunk_views(additional@).len() == additional@.len());
                Parts { len: self.len, repr: Repr::Small { head, additional: copy } }
            },
            Repr::Deep(deep) => {
                let copy = Deep {
                    head: clone_deque(&deep.head),
                    tree: deep.tree.clone(),
                    tail: clone_deque(&deep.tail),
                };
                Parts { len: self.len, repr: Repr::Deep(Box::new(copy)) }
            },
        }
    }

    /// The part of the rope from `start` to `end`, which shares its chunks.
    pub(crate) fn slice(&self, start: usize, end: usize) -> (part: Self)
        requires
            parts_wf(*self),
            start <= end <= self.len,
        ensures
            parts_wf(part),
            repr_chunks(part.repr) == clipped(repr_chunks(self.repr), start as int, end as int),
            sliced_deep(
                self.repr is Deep,
                end - start == self.len,
                repr_chunks(part.repr).len(),
                part.repr is Deep,
            ),
    {
        if start == 0 && end == self.len {
            proof {
                lemma_repr(self.repr);
                lemma_clipped_whole(repr_chunks(self.repr));
            }
            return self.share();
        }
        if start == end {
            return Parts::new();
        }
        match &self.repr {
            Repr::Small { head, additional } => slice_small(
                head,
                additional,
                self.len,
                start,
                end,
            ),
            Repr::Deep(deep) => slice_deep(deep, self.len, start, end),
        }
    }
}

/// Handles on the chunks of a deque.
fn clone_deque(chunks: &VecDeque<Bytes>) -> (copy: VecDeque<Bytes>)
    ensures
        chunk_views(copy@) == chunk_views(chunks@),
{
    let mut copy: VecDeque<Bytes> = VecDeque::new();
    let mut i: usize = 0;
    while i < chunks.len()
        invariant
            i <= chunks.len(),
            copy@.len() == i,
            forall|j: int| 0 <= j < i ==> contents(#[trigger] copy@[j]) == contents(chunks@[j]),
        decreases chunks.len() - i,
    {
        copy.push_back(chunks[i].clone());
        i = i + 1;
    }
    assert(chunk_views(copy@) =~= chunk_views(chunks@));
    copy
}

/// Puts the chunks of a deque behind a rope.
fn push_back_all(parts: Parts, chunks: VecDeque<Bytes>) -> (whole: Parts)
    requires
        parts_wf(parts),
        none_empty(chunk_views(chunks@)),
        parts.len + joined(chunk_views(chunks@)).len() <= usize::MAX,
    ensures
        parts_wf(whole),
        repr_chunks(whole.repr) == repr_chunks(parts.repr) + chunk_views(chunks@),
        whole.repr is Deep <==> parts.repr is Deep || (chunks@.len() > 0 && repr_chunks(
            whole.repr,
        ).len() > PROMOTE_AT),
{
    let ghost total = repr_chunks(parts.repr) + chunk_views(chunks@);
    let mut whole = parts;
    let mut rest = chunks;
    while rest.len() > 0
        invariant
            parts_wf(whole),
            none_empty(chunk_views(rest@)),
            whole.len + joined(chunk_views(rest@)).len() <= usize::MAX,
            repr_chunks(whole.repr) + chunk_views(rest@) == total,
            whole.repr is Deep <==> parts.repr is Deep || (rest@.len() < chunks@.len()
                && repr_chunks(whole.repr).len() > PROMOTE_AT),
            rest@.len() <= chunks@.len(),
        decreases rest@.len(),
    {
        let ghost before = rest@;
        let ghost done = repr_chunks(whole.repr);
        match rest.pop_front() {
            Some(chunk) => {
                proof {
                    assert(seq![chunk] + rest@ =~= before);
                    lemma_views_front(chunk, rest@);
                    lemma_joined_push(done, contents(chunk));
                    assert(done.push(contents(chunk)) + chunk_views(rest@) =~= done + chunk_views(
                        before,
                    ));
                }
                whole = whole.push_back(chunk);
            },
            None => {},
        }
    }
    proof {
        lemma_no_views();
        assert(rest@ =~= Seq::<Bytes>::empty());
        assert(repr_chunks(whole.repr) =~= total);
    }
    whole
}

/// Puts the chunks of a deque in front of a rope.
fn push_front_all(parts: Parts, chunks: VecDeque<Bytes>) -> (whole: Parts)
    requires
        parts_wf(parts),
        none_empty(chunk_views(chunks@)),
        parts.len + joined(chunk_views(chunks@)).len() <= usize::MAX,
    ensures
        parts_wf(whole),
        repr_chunks(whole.repr) == chunk_views(chunks@) + repr_chunks(parts.repr),
        whole.repr is Deep <==> parts.repr is Deep || (chunks@.len() > 0 && repr_chunks(
            whole.repr,
        ).len() > PROMOTE_AT),
{
    let ghost total = chunk_views(chunks@) + repr_chunks(parts.repr);
    let mut whole = parts;
    let mut rest = chunks;
    while rest.len() > 0
        invariant
            parts_wf(whole),
            none_empty(chunk_views(rest@)),
            whole.len + joined(chunk_views(rest@)).len() <= usize::MAX,
            chunk_views(rest@) + repr_chunks(whole.repr) == total,
            whole.repr is Deep <==> parts.repr is Deep || (rest@.len() < chunks@.len()
                && repr_chunks(whole.repr).len() > PROMOTE_AT),
            rest@.len() <= chunks@.len(),
        decreases rest@.len(),
    {
        let ghost before = rest@;
        let ghost done = repr_chunks(whole.repr);
        match rest.pop_back() {
            Some(chunk) => {
                proof {
                    assert(rest@.push(chunk) =~= before);
                    lemma_views_back(rest@, chunk);
                    lemma_front(contents(chunk), done);
                    assert(chunk_views(rest@) + (seq![contents(chunk)] + done) =~= chunk_views(
                        before,
                    ) + done);
                }
                whole = whole.push_front(chunk);
            },
            None => {},
        }
    }
    proof {
        lemma_no_views();
        assert(rest@ =~= Seq::<Bytes>::empty());
        assert(repr_chunks(whole.repr) =~= total);
    }
    whole
}

/// The part of a small rope from `start` to `end`.
fn slice_small(
    head: &Bytes,
    additional: &VecDeque<Bytes>,
    len: usize,
    start: usize,
    end: usize,
) -> (part: Parts)
    requires
        contents(*head).len() == 0 ==> additional@.len() == 0,
        none_empty(chunk_views(additional@)),
        len == joined(small_chunks(*head, additional@)).len(),
        start < end <= len,
    ensures
        parts_wf(part),
        repr_chunks(part.repr) == clipped(
            small_chunks(*head, additional@),
            start as int,
            end as int,
        ),
        part.repr is Deep <==> repr_chunks(part.repr).len() > PROMOTE_AT,
{
    let first: usize = head.len();
    let ghost list = small_chunks(*head, additional@);
    let ghost one = seq![contents(*head)];
    let ghost more = chunk_views(additional@);
    proof {
        lemma_no_views();
        lemma_front(contents(*head), more);
        lemma_joined_one(contents(*head));
        lemma_clipped_concat(one, more, start as int, end as int);
        lemma_clipped_past(one, start as int, end as int);
        lemma_clipped_joined(list, start as int, end as int);
        assert(joined(clipped(list, start as int, end as int)).len() == end - start);
    }
    let mut out = Parts::new();
    if start < first {
        let to: usize = shorter(first, end);
        let front = chunk_subrange(head, start, to);
        proof {
            lemma_joined_push(repr_chunks(out.repr), contents(front));
            lemma_clipped_one(contents(*head), start as int, to as int);
        }
        out = out.push_back(front);
    }
    assert(repr_chunks(out.repr) =~= clipped(one, start as int, end as int));
    let rest = slice_deque_chunks(additional, first, start, end);
    proof {
        lemma_joined_concat(repr_chunks(out.repr), chunk_views(rest@));
        assert(repr_chunks(out.repr) + chunk_views(rest@) =~= clipped(
            list,
            start as int,
            end as int,
        ));
    }
    push_back_all(out, rest)
}

/// The part of a deep rope from `start` to `end`: one cut of the tree, with what falls into the two
/// deques put around it.
fn slice_deep(deep: &Deep, len: usize, start: usize, end: usize) -> (part: Parts)
    requires
        none_empty(chunk_views(deep.head@)),
        none_empty(chunk_views(deep.tail@)),
        tree_wf(deep.tree),
        len == joined(deep_chunks(*deep)).len(),
        start < end <= len,
    ensures
        parts_wf(part),
        repr_chunks(part.repr) == clipped(deep_chunks(*deep), start as int, end as int),
        part.repr is Deep ==> repr_chunks(part.repr).len() > DEMOTE_AT,
        repr_chunks(part.repr).len() > PROMOTE_AT ==> part.repr is Deep,
{
    let ghost head = chunk_views(deep.head@);
    let ghost tree = tree_chunks(deep.tree);
    let ghost tail = chunk_views(deep.tail@);
    let ghost list = deep_chunks(*deep);
    proof {
        lemma_deep(*deep);
    }
    let head_bytes: usize = deque_bytes(&deep.head);
    let tree_len: usize = deep.tree.byte_len();
    let tree_end: usize = head_bytes + tree_len;
    let from: usize = if start > head_bytes {
        shorter(start - head_bytes, tree_len)
    } else {
        0
    };
    let to: usize = if end > head_bytes {
        shorter(end - head_bytes, tree_len)
    } else {
        0
    };
    let ghost front = clipped(head, start as int, end as int);
    let ghost middle = clipped(tree, from as int, to as int);
    let ghost back = clipped(
        tail,
        beyond(start as int, tree_end as int),
        beyond(end as int, tree_end as int),
    );
    proof {
        lemma_joined_concat(head, tree);
        lemma_clipped_concat(head + tree, tail, start as int, end as int);
        lemma_clipped_concat(head, tree, start as int, end as int);
        lemma_clipped_past(head, start as int, end as int);
        lemma_clipped_past(
            tree,
            beyond(start as int, head_bytes as int),
            beyond(end as int, head_bytes as int),
        );
        assert(clipped(list, start as int, end as int) == front + middle + back);
        lemma_clipped_joined(list, start as int, end as int);
        assert(joined(clipped(list, start as int, end as int)).len() == end - start);
        lemma_joined_concat(front + middle, back);
        lemma_joined_concat(front, middle);
    }
    let mut out = Parts::from_tree(deep.tree.subrange(from, to));
    if start < head_bytes {
        let chunks = slice_deque_chunks(&deep.head, 0, start, shorter(end, head_bytes));
        out = push_front_all(out, chunks);
    }
    assert(repr_chunks(out.repr) =~= front + middle);
    if end > tree_end {
        let chunks = slice_deque_chunks(&deep.tail, tree_end, start, end);
        assert(chunk_views(chunks@) =~= back);
        out = push_back_all(out, chunks);
    }
    assert(repr_chunks(out.repr) =~= front + middle + back);
    out
}

} // verus!
