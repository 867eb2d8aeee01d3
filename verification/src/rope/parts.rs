//! What a rope is made of, and the operations on it.
//!
//! A small rope is a chunk and a deque of further chunks. Once it has many chunks it becomes deep:
//! a tree of chunk blocks between two deques.

use std::collections::VecDeque;

use bytes::Bytes;

use vstd::prelude::*;

use crate::chunks::chunk_views;
use crate::chunks::joined;
use crate::chunks::lemma_joined_concat;
use crate::chunks::lemma_joined_count;
use crate::chunks::lemma_joined_one;
use crate::chunks::lemma_joined_push;
use crate::chunks::lemma_joined_step;
use crate::chunks::lemma_none_empty_concat;
use crate::chunks::lemma_views_concat;
use crate::chunks::lemma_views_push;
use crate::chunks::none_empty;
use crate::rope::node::FANOUT;
use crate::rope::tree::lemma_tree;
use crate::rope::tree::tree_bytes;
use crate::rope::tree::tree_chunks;
use crate::rope::tree::tree_wf;
use crate::rope::tree::Tree;
use crate::shared::contents;

verus! {

/// The number of chunks at which a small rope becomes deep.
pub const PROMOTE_AT: usize = 64;

/// The number of chunks at which a deep rope becomes small again.
pub const DEMOTE_AT: usize = 32;

/// A tree of chunk blocks between two deques of chunks.
pub struct Deep {
    pub head: VecDeque<Bytes>,
    pub tree: Tree,
    pub tail: VecDeque<Bytes>,
}

/// The two shapes of a rope. In a small one the chunks fill `head` first.
pub enum Repr {
    Small { head: Bytes, additional: VecDeque<Bytes> },
    Deep(Box<Deep>),
}

/// A rope: its shape and the number of its bytes.
pub struct Parts {
    pub len: usize,
    pub repr: Repr,
}

/// The chunks of a small rope.
pub open spec fn small_chunks(head: Bytes, additional: Seq<Bytes>) -> Seq<Seq<u8>> {
    if contents(head).len() == 0 {
        Seq::empty()
    } else {
        seq![contents(head)] + chunk_views(additional)
    }
}

/// The chunks of a deep rope.
pub open spec fn deep_chunks(deep: Deep) -> Seq<Seq<u8>> {
    chunk_views(deep.head@) + tree_chunks(deep.tree) + chunk_views(deep.tail@)
}

/// The chunks of a rope, in order.
pub open spec fn repr_chunks(repr: Repr) -> Seq<Seq<u8>> {
    match repr {
        Repr::Small { head, additional } => small_chunks(head, additional@),
        Repr::Deep(deep) => deep_chunks(*deep),
    }
}

/// No chunk is empty, the chunks of a small rope fill its head first, and the tree is well formed.
pub open spec fn repr_wf(repr: Repr) -> bool {
    match repr {
        Repr::Small { head, additional } => {
            &&& none_empty(chunk_views(additional@))
            &&& contents(head).len() == 0 ==> additional@.len() == 0
        },
        Repr::Deep(deep) => {
            &&& none_empty(chunk_views(deep.head@))
            &&& tree_wf(deep.tree)
            &&& none_empty(chunk_views(deep.tail@))
        },
    }
}

/// The shape is well formed and the number of bytes is right.
pub open spec fn parts_wf(parts: Parts) -> bool {
    &&& repr_wf(parts.repr)
    &&& parts.len == joined(repr_chunks(parts.repr)).len()
}

/// No chunk of a well-formed rope is empty.
pub proof fn lemma_repr(repr: Repr)
    requires
        repr_wf(repr),
    ensures
        none_empty(repr_chunks(repr)),
        repr_chunks(repr).len() <= joined(repr_chunks(repr)).len(),
{
    match repr {
        Repr::Small { head, additional } => {
            if contents(head).len() > 0 {
                lemma_none_empty_concat(seq![contents(head)], chunk_views(additional@));
            }
        },
        Repr::Deep(deep) => {
            lemma_tree(deep.tree);
            lemma_none_empty_concat(chunk_views(deep.head@), tree_chunks(deep.tree));
            lemma_none_empty_concat(
                chunk_views(deep.head@) + tree_chunks(deep.tree),
                chunk_views(deep.tail@),
            );
        },
    }
    lemma_joined_count(repr_chunks(repr));
}

/// What the three sections of a deep rope spell.
pub proof fn lemma_deep(deep: Deep)
    ensures
        joined(deep_chunks(deep)) == joined(chunk_views(deep.head@)) + tree_bytes(deep.tree)
            + joined(chunk_views(deep.tail@)),
        joined(deep_chunks(deep)).len() == joined(chunk_views(deep.head@)).len() + tree_bytes(
            deep.tree,
        ).len() + joined(chunk_views(deep.tail@)).len(),
{
    lemma_joined_concat(
        chunk_views(deep.head@) + tree_chunks(deep.tree),
        chunk_views(deep.tail@),
    );
    lemma_joined_concat(chunk_views(deep.head@), tree_chunks(deep.tree));
}

/// The list of no chunks.
pub proof fn lemma_no_views()
    ensures
        chunk_views(Seq::<Bytes>::empty()) == Seq::<Seq<u8>>::empty(),
        joined(Seq::<Seq<u8>>::empty()) == Seq::<u8>::empty(),
        none_empty(Seq::<Seq<u8>>::empty()),
{
    assert(chunk_views(Seq::<Bytes>::empty()) =~= Seq::<Seq<u8>>::empty());
}

/// The chunk list of a sequence with one more chunk in front.
pub proof fn lemma_views_front(chunk: Bytes, rest: Seq<Bytes>)
    ensures
        chunk_views(seq![chunk] + rest) == seq![contents(chunk)] + chunk_views(rest),
        none_empty(chunk_views(seq![chunk] + rest)) == (contents(chunk).len() > 0 && none_empty(
            chunk_views(rest),
        )),
        joined(chunk_views(seq![chunk] + rest)) == contents(chunk) + joined(chunk_views(rest)),
{
    assert(chunk_views(seq![chunk] + rest) =~= seq![contents(chunk)] + chunk_views(rest));
    lemma_none_empty_concat(seq![contents(chunk)], chunk_views(rest));
    lemma_joined_concat(seq![contents(chunk)], chunk_views(rest));
    lemma_joined_one(contents(chunk));
    if none_empty(seq![contents(chunk)]) {
        assert(seq![contents(chunk)][0].len() > 0);
    }
}

/// The chunk list of a sequence with one more chunk at the back.
pub proof fn lemma_views_back(rest: Seq<Bytes>, chunk: Bytes)
    ensures
        chunk_views(rest.push(chunk)) == chunk_views(rest).push(contents(chunk)),
        chunk_views(rest.push(chunk)) == chunk_views(rest) + seq![contents(chunk)],
        none_empty(chunk_views(rest.push(chunk))) == (contents(chunk).len() > 0 && none_empty(
            chunk_views(rest),
        )),
        joined(chunk_views(rest.push(chunk))) == joined(chunk_views(rest)) + contents(chunk),
{
    lemma_views_push(rest, chunk);
    lemma_joined_push(chunk_views(rest), contents(chunk));
    assert(chunk_views(rest).push(contents(chunk)) =~= chunk_views(rest) + seq![contents(chunk)]);
    lemma_none_empty_concat(chunk_views(rest), seq![contents(chunk)]);
    if none_empty(seq![contents(chunk)]) {
        assert(seq![contents(chunk)][0].len() > 0);
    }
}

/// The number of bytes in a deque of chunks.
pub(crate) fn deque_bytes(chunks: &VecDeque<Bytes>) -> (len: usize)
    requires
        joined(chunk_views(chunks@)).len() <= usize::MAX,
    ensures
        len == joined(chunk_views(chunks@)).len(),
{
    let ghost views = chunk_views(chunks@);
    let mut len: usize = 0;
    let mut i: usize = 0;
    assert(views.take(0) =~= Seq::<Seq<u8>>::empty());
    while i < chunks.len()
        invariant
            i <= chunks.len(),
            views == chunk_views(chunks@),
            joined(views).len() <= usize::MAX,
            len == joined(views.take(i as int)).len(),
        decreases chunks.len() - i,
    {
        proof {
            lemma_joined_step(views, i as int);
        }
        len = len + chunks[i].len();
        i = i + 1;
    }
    assert(views.take(i as int) =~= views);
    len
}

/// Moves the chunks of a block to the back of a deque.
pub(crate) fn extend_deque(chunks: &mut VecDeque<Bytes>, block: Vec<Bytes>)
    ensures
        final(chunks)@ == old(chunks)@ + block@,
{
    let ghost all = block@;
    let mut block = block;
    let mut moved: VecDeque<Bytes> = VecDeque::new();
    assert(block@ + moved@ =~= all);
    while block.len() > 0
        invariant
            block@ + moved@ == all,
        decreases block@.len(),
    {
        let ghost before = block@;
        let ghost later = moved@;
        match block.pop() {
            Some(chunk) => {
                moved.push_front(chunk);
                assert(block@ + (seq![chunk] + later) =~= before + later);
            },
            None => {},
        }
    }
    assert(moved@ =~= all);
    chunks.append(&mut moved);
}

/// Adds the chunks of a deque to a tree, in blocks of up to `FANOUT`.
pub(crate) fn extend_blocks(tree: &mut Tree, chunks: VecDeque<Bytes>)
    requires
        tree_wf(*old(tree)),
        none_empty(chunk_views(chunks@)),
        tree_bytes(*old(tree)).len() + joined(chunk_views(chunks@)).len() <= usize::MAX,
    ensures
        tree_wf(*final(tree)),
        tree_chunks(*final(tree)) == tree_chunks(*old(tree)) + chunk_views(chunks@),
{
    let ghost all = chunks@;
    let ghost before = tree_chunks(*tree);
    let mut chunks = chunks;
    let mut block: Vec<Bytes> = Vec::with_capacity(FANOUT);
    proof {
        lemma_no_views();
        assert(block@ + chunks@ =~= all);
        assert(before + chunk_views(Seq::<Bytes>::empty()) =~= before);
        assert(Seq::<Bytes>::empty() + (block@ + chunks@) =~= all);
    }
    let ghost mut placed = Seq::<Bytes>::empty();
    while chunks.len() > 0
        invariant
            tree_wf(*tree),
            placed + (block@ + chunks@) == all,
            tree_chunks(*tree) == before + chunk_views(placed),
            none_empty(chunk_views(all)),
            joined(before).len() + joined(chunk_views(all)).len() <= usize::MAX,
            block@.len() < FANOUT,
        decreases chunks@.len(),
    {
        let ghost rest = chunks@;
        let ghost held = block@;
        match chunks.pop_front() {
            Some(chunk) => {
                block.push(chunk);
                assert(placed + (block@ + chunks@) =~= placed + (held + rest));
                if block.len() == FANOUT {
                    proof {
                        lemma_section(before, placed, block@, chunks@);
                    }
                    let ghost added = block@;
                    let mut full: Vec<Bytes> = Vec::with_capacity(FANOUT);
                    std::mem::swap(&mut full, &mut block);
                    tree.push_block(full);
                    proof {
                        lemma_views_concat(placed, added);
                        assert(before + (chunk_views(placed) + chunk_views(added)) =~= before
                            + chunk_views(placed) + chunk_views(added));
                        placed = placed + added;
                        assert(placed + (block@ + chunks@) =~= all);
                    }
                }
            },
            None => {},
        }
    }
    if block.len() > 0 {
        proof {
            lemma_section(before, placed, block@, chunks@);
            lemma_views_concat(placed, block@);
            assert(placed + block@ =~= all);
            assert(before + (chunk_views(placed) + chunk_views(block@)) =~= before + chunk_views(
                placed,
            ) + chunk_views(block@));
        }
        tree.push_block(block);
    } else {
        assert(placed =~= all);
    }
}

/// A section of a chunk list, behind what was placed before.
proof fn lemma_section(before: Seq<Seq<u8>>, placed: Seq<Bytes>, block: Seq<Bytes>, rest: Seq<Bytes>)
    ensures
        none_empty(chunk_views(placed + (block + rest))) ==> none_empty(chunk_views(block)),
        joined(before + chunk_views(placed)).len() + joined(chunk_views(block)).len() <= joined(
            before,
        ).len() + joined(chunk_views(placed + (block + rest))).len(),
{
    lemma_views_concat(placed, block + rest);
    lemma_views_concat(block, rest);
    lemma_none_empty_concat(chunk_views(placed), chunk_views(block + rest));
    lemma_none_empty_concat(chunk_views(block), chunk_views(rest));
    lemma_joined_concat(before, chunk_views(placed));
    lemma_joined_concat(chunk_views(placed), chunk_views(block + rest));
    lemma_joined_concat(chunk_views(block), chunk_views(rest));
}

impl Parts {
    /// A rope without chunks.
    pub(crate) fn new() -> (parts: Self)
        ensures
            parts_wf(parts),
            repr_chunks(parts.repr) == Seq::<Seq<u8>>::empty(),
            parts.repr is Small,
    {
        let parts = Parts {
            len: 0,
            repr: Repr::Small { head: Bytes::new(), additional: VecDeque::new() },
        };
        proof {
            lemma_no_views();
        }
        parts
    }

    /// An empty rope with room reserved for `cap` chunks.
    pub(crate) fn with_capacity(cap: usize) -> (parts: Self)
        requires
            cap <= isize::MAX / 32 + 1,
        ensures
            parts_wf(parts),
            repr_chunks(parts.repr) == Seq::<Seq<u8>>::empty(),
            parts.repr is Small,
    {
        proof {
            lemma_no_views();
        }
        let spare: usize = if cap == 0 {
            0
        } else {
            cap - 1
        };
        let parts = Parts {
            len: 0,
            repr: Repr::Small { head: Bytes::new(), additional: VecDeque::with_capacity(spare) },
        };
        assert(parts.repr->additional@ =~= Seq::<Bytes>::empty());
        parts
    }

    /// The number of chunks.
    pub(crate) fn chunk_count(&self) -> (count: usize)
        requires
            parts_wf(*self),
        ensures
            count == repr_chunks(self.repr).len(),
    {
        proof {
            lemma_repr(self.repr);
        }
        match &self.repr {
            Repr::Small { head, additional } => {
                if head.is_empty() {
                    0
                } else {
                    1 + additional.len()
                }
            },
            Repr::Deep(deep) => deep.head.len() + deep.tree.chunk_count() + deep.tail.len(),
        }
    }

    /// Adds a chunk at the back. An empty one is ignored.
    pub(crate) fn push_back(self, chunk: Bytes) -> (parts: Self)
        requires
            parts_wf(self),
            self.len + contents(chunk).len() <= usize::MAX,
        ensures
            parts_wf(parts),
            repr_chunks(parts.repr) == if contents(chunk).len() == 0 {
                repr_chunks(self.repr)
            } else {
                repr_chunks(self.repr).push(contents(chunk))
            },
            parts.repr is Deep <==> self.repr is Deep || (contents(chunk).len() > 0
                && repr_chunks(parts.repr).len() > PROMOTE_AT),
    {
        let ghost before = repr_chunks(self.repr);
        if chunk.is_empty() {
            return self;
        }
        proof {
            lemma_joined_push(before, contents(chunk));
            lemma_no_views();
        }
        let len: usize = self.len + chunk.len();
        match self.repr {
            Repr::Small { head, additional } => {
                if head.is_empty() {
                    proof {
                        assert(additional@ =~= Seq::<Bytes>::empty());
                        assert(small_chunks(chunk, additional@) =~= before.push(contents(chunk)));
                    }
                    Parts { len, repr: Repr::Small { head: chunk, additional } }
                } else {
                    let mut additional = additional;
                    proof {
                        lemma_views_back(additional@, chunk);
                        assert(small_chunks(head, additional@.push(chunk)) =~= before.push(
                            contents(chunk),
                        ));
                    }
                    additional.push_back(chunk);
                    let parts = Parts { len, repr: Repr::Small { head, additional } };
                    match &parts.repr {
                        Repr::Small { additional, .. } => {
                            if additional.len() < PROMOTE_AT {
                                return parts;
                            }
                        },
                        Repr::Deep(_) => {},
                    }
                    parts.promote()
                }
            },
            Repr::Deep(deep) => {
                let mut deep = deep;
                proof {
                    lemma_views_back(deep.tail@, chunk);
                }
                deep.tail.push_back(chunk);
                proof {
                    assert(deep_chunks(*deep) =~= before.push(contents(chunk)));
                }
                if deep.tail.len() >= FANOUT {
                    deep = freeze_tail(deep);
                }
                Parts { len, repr: Repr::Deep(deep) }
            },
        }
    }

    /// Adds a chunk at the front. An empty one is ignored.
    pub(crate) fn push_front(self, chunk: Bytes) -> (parts: Self)
        requires
            parts_wf(self),
            self.len + contents(chunk).len() <= usize::MAX,
        ensures
            parts_wf(parts),
            repr_chunks(parts.repr) == if contents(chunk).len() == 0 {
                repr_chunks(self.repr)
            } else {
                seq![contents(chunk)] + repr_chunks(self.repr)
            },
            parts.repr is Deep <==> self.repr is Deep || (contents(chunk).len() > 0
                && repr_chunks(parts.repr).len() > PROMOTE_AT),
    {
        let ghost before = repr_chunks(self.repr);
        if chunk.is_empty() {
            return self;
        }
        proof {
            lemma_joined_concat(seq![contents(chunk)], before);
            lemma_joined_one(contents(chunk));
            lemma_no_views();
        }
        let len: usize = self.len + chunk.len();
        match self.repr {
            Repr::Small { head, additional } => {
                if head.is_empty() {
                    proof {
                        assert(additional@ =~= Seq::<Bytes>::empty());
                        assert(small_chunks(chunk, additional@) =~= seq![contents(chunk)] + before);
                    }
                    Parts { len, repr: Repr::Small { head: chunk, additional } }
                } else {
                    let mut additional = additional;
                    proof {
                        lemma_views_front(head, additional@);
                        assert(small_chunks(chunk, seq![head] + additional@) =~= seq![
                            contents(chunk),
                        ] + before);
                    }
                    additional.push_front(head);
                    let parts = Parts { len, repr: Repr::Small { head: chunk, additional } };
                    match &parts.repr {
                        Repr::Small { additional, .. } => {
                            if additional.len() < PROMOTE_AT {
                                return parts;
                            }
                        },
                        Repr::Deep(_) => {},
                    }
                    parts.promote()
                }
            },
            Repr::Deep(deep) => {
                let mut deep = deep;
                proof {
                    lemma_views_front(chunk, deep.head@);
                }
                deep.head.push_front(chunk);
                proof {
                    assert(deep_chunks(*deep) =~= seq![contents(chunk)] + before);
                }
                Parts { len, repr: Repr::Deep(deep) }
            },
        }
    }

    /// Makes a small rope deep.
    pub(crate) fn promote(self) -> (parts: Self)
        requires
            parts_wf(self),
        ensures
            parts_wf(parts),
            repr_chunks(parts.repr) == repr_chunks(self.repr),
            parts.repr is Deep,
    {
        let ghost before = repr_chunks(self.repr);
        match self.repr {
            Repr::Deep(deep) => Parts { len: self.len, repr: Repr::Deep(deep) },
            Repr::Small { head, additional } => {
                let mut chunks = additional;
                proof {
                    lemma_no_views();
                    lemma_views_front(head, chunks@);
                }
                if !head.is_empty() {
                    chunks.push_front(head);
                } else {
                    assert(chunks@ =~= Seq::<Bytes>::empty());
                }
                assert(chunk_views(chunks@) =~= before);
                let ghost all = chunks@;
                let mut tree = Tree::new();
                let rest: usize = chunks.len() % FANOUT;
                let tail = chunks.split_off(chunks.len() - rest);
                proof {
                    assert(chunks@ + tail@ =~= all);
                    lemma_views_concat(chunks@, tail@);
                    lemma_joined_concat(chunk_views(chunks@), chunk_views(tail@));
                    lemma_none_empty_concat(chunk_views(chunks@), chunk_views(tail@));
                    lemma_repr(self.repr);
                }
                let ghost blocks = chunk_views(chunks@);
                extend_blocks(&mut tree, chunks);
                let deep = Deep { head: VecDeque::new(), tree, tail };
                proof {
                    assert(Seq::<Seq<u8>>::empty() + blocks =~= blocks);
                    assert(deep_chunks(deep) =~= before);
                }
                Parts { len: self.len, repr: Repr::Deep(Box::new(deep)) }
            },
        }
    }

    /// Makes a deep rope small once it has few chunks.
    pub(crate) fn maybe_demote(self) -> (parts: Self)
        requires
            parts_wf(self),
        ensures
            parts_wf(parts),
            repr_chunks(parts.repr) == repr_chunks(self.repr),
            parts.repr is Deep <==> self.repr is Deep && repr_chunks(parts.repr).len() > DEMOTE_AT,
    {
        let count: usize = self.chunk_count();
        match self.repr {
            Repr::Small { head, additional } => Parts {
                len: self.len,
                repr: Repr::Small { head, additional },
            },
            Repr::Deep(deep) => {
                if count > DEMOTE_AT {
                    return Parts { len: self.len, repr: Repr::Deep(deep) };
                }
                let mut additional = flatten(deep);
                proof {
                    lemma_no_views();
                    lemma_repr(self.repr);
                }
                let ghost all = additional@;
                match additional.pop_front() {
                    Some(head) => {
                        proof {
                            assert(seq![head] + additional@ =~= all);
                            lemma_views_front(head, additional@);
                        }
                        Parts { len: self.len, repr: Repr::Small { head, additional } }
                    },
                    None => {
                        assert(all =~= Seq::<Bytes>::empty());
                        Parts {
                            len: self.len,
                            repr: Repr::Small { head: Bytes::new(), additional },
                        }
                    },
                }
            },
        }
    }
}

/// Moves a full block from the front of the tail into the tree.
fn freeze_tail(deep: Box<Deep>) -> (frozen: Box<Deep>)
    requires
        repr_wf(Repr::Deep(deep)),
        deep.tail@.len() >= FANOUT,
        joined(deep_chunks(*deep)).len() <= usize::MAX,
    ensures
        repr_wf(Repr::Deep(frozen)),
        deep_chunks(*frozen) == deep_chunks(*deep),
        frozen.head@ == deep.head@,
        tree_chunks(frozen.tree) == tree_chunks(deep.tree) + chunk_views(
            deep.tail@.take(FANOUT as int),
        ),
        frozen.tail@ == deep.tail@.skip(FANOUT as int),
{
    let ghost start = *deep;
    let mut deep = deep;
    let mut block: Vec<Bytes> = Vec::with_capacity(FANOUT);
    assert(block@ + deep.tail@ =~= start.tail@);
    while block.len() < FANOUT
        invariant
            block@ + deep.tail@ == start.tail@,
            block@.len() <= FANOUT <= start.tail@.len(),
            deep.head == start.head,
            deep.tree == start.tree,
        decreases FANOUT - block@.len(),
    {
        let ghost held = block@;
        let ghost rest = deep.tail@;
        match deep.tail.pop_front() {
            Some(chunk) => {
                block.push(chunk);
                assert(block@ + deep.tail@ =~= held + rest);
            },
            None => {
                assert(held.len() == start.tail@.len());
                assert(false);
            },
        }
    }
    proof {
        assert(block@ =~= start.tail@.take(FANOUT as int));
        assert(deep.tail@ =~= start.tail@.skip(FANOUT as int));
        lemma_views_concat(block@, deep.tail@);
        lemma_none_empty_concat(chunk_views(block@), chunk_views(deep.tail@));
        lemma_joined_concat(chunk_views(block@), chunk_views(deep.tail@));
        lemma_deep(start);
    }
    deep.tree.push_block(block);
    proof {
        assert(deep_chunks(*deep) =~= deep_chunks(start));
    }
    deep
}

/// All chunks of a deep rope in one deque.
fn flatten(deep: Box<Deep>) -> (chunks: VecDeque<Bytes>)
    requires
        repr_wf(Repr::Deep(deep)),
    ensures
        chunk_views(chunks@) == deep_chunks(*deep),
{
    let ghost whole = deep_chunks(*deep);
    let Deep { head, tree, tail } = *deep;
    let mut chunks = head;
    let mut tree = tree;
    let mut tail = tail;
    let ghost last = chunk_views(tail@);
    loop
        invariant
            tree_wf(tree),
            last == chunk_views(tail@),
            chunk_views(chunks@) + tree_chunks(tree) + last == whole,
        ensures
            last == chunk_views(tail@),
            chunk_views(chunks@) + last == whole,
        decreases tree_chunks(tree).len(),
    {
        let ghost held = chunks@;
        let ghost rest = tree_chunks(tree);
        match tree.pop_front_block() {
            Some(block) => {
                let ghost next = block@;
                extend_deque(&mut chunks, block);
                proof {
                    lemma_views_concat(held, next);
                    assert(chunk_views(held) + chunk_views(next) + tree_chunks(tree) + last
                        =~= chunk_views(held) + rest + last);
                }
            },
            None => {
                assert(chunk_views(chunks@) + rest + last =~= chunk_views(chunks@) + last);
                break;
            },
        }
    }
    let ghost front = chunks@;
    proof {
        lemma_views_concat(front, tail@);
    }
    chunks.append(&mut tail);
    chunks
}

} // verus!
