//! Taking chunks and bytes off either end of a rope.

use std::collections::VecDeque;

use bytes::Bytes;

use vstd::prelude::*;

use crate::chunks::chunk_views;
use crate::chunks::clipped;
use crate::chunks::joined;
use crate::chunks::lemma_clipped_first;
use crate::chunks::lemma_clipped_joined;
use crate::chunks::lemma_clipped_last;
use crate::chunks::lemma_clipped_whole;
use crate::chunks::lemma_joined_concat;
use crate::chunks::lemma_joined_one;
use crate::chunks::lemma_joined_push;
use crate::chunks::lemma_none_empty_concat;
use crate::rope::parts::deep_chunks;
use crate::rope::parts::extend_deque;
use crate::rope::parts::lemma_no_views;
use crate::rope::parts::lemma_repr;
use crate::rope::parts::lemma_views_back;
use crate::rope::parts::lemma_views_front;
use crate::rope::parts::parts_wf;
use crate::rope::parts::repr_chunks;
use crate::rope::parts::repr_wf;
use crate::rope::parts::small_chunks;
use crate::rope::parts::Deep;
use crate::rope::parts::Parts;
use crate::rope::parts::Repr;
use crate::rope::parts::DEMOTE_AT;
use crate::rope::tree::lemma_tree;
use crate::rope::tree::tree_chunks;
use crate::shared::chunk_advance;
use crate::shared::contents;

verus! {

/// A chunk list with one more chunk in front.
pub proof fn lemma_front(chunk: Seq<u8>, rest: Seq<Seq<u8>>)
    ensures
        joined(seq![chunk] + rest) == chunk + joined(rest),
{
    lemma_joined_concat(seq![chunk], rest);
    lemma_joined_one(chunk);
}

/// Takes the first chunk of a deep rope.
fn pop_front_deep(deep: Box<Deep>) -> (popped: (Option<Bytes>, Box<Deep>))
    requires
        repr_wf(Repr::Deep(deep)),
    ensures
        repr_wf(Repr::Deep(popped.1)),
        match popped.0 {
            Some(chunk) => {
                &&& deep_chunks(*deep) == seq![contents(chunk)] + deep_chunks(*popped.1)
                &&& contents(chunk).len() > 0
            },
            None => deep_chunks(*deep).len() == 0 && deep_chunks(*popped.1).len() == 0,
        },
{
    let ghost start = *deep;
    let mut deep = deep;
    if deep.head.len() == 0 {
        match deep.tree.pop_front_block() {
            Some(block) => {
                proof {
                    lemma_tree(start.tree);
                    lemma_none_empty_concat(chunk_views(block@), tree_chunks(deep.tree));
                }
                let ghost next = block@;
                extend_deque(&mut deep.head, block);
                assert(deep.head@ =~= next);
            },
            None => {
                std::mem::swap(&mut deep.head, &mut deep.tail);
            },
        }
        proof {
            lemma_no_views();
            assert(start.head@ =~= Seq::<Bytes>::empty());
            assert(deep_chunks(*deep) =~= deep_chunks(start));
        }
    }
    let ghost filled = *deep;
    match deep.head.pop_front() {
        Some(chunk) => {
            proof {
                assert(seq![chunk] + deep.head@ =~= filled.head@);
                lemma_views_front(chunk, deep.head@);
                assert(seq![contents(chunk)] + deep_chunks(*deep) =~= deep_chunks(filled));
            }
            (Some(chunk), deep)
        },
        None => (None, deep),
    }
}

/// Takes the last chunk of a deep rope.
fn pop_back_deep(deep: Box<Deep>) -> (popped: (Option<Bytes>, Box<Deep>))
    requires
        repr_wf(Repr::Deep(deep)),
    ensures
        repr_wf(Repr::Deep(popped.1)),
        match popped.0 {
            Some(chunk) => {
                &&& deep_chunks(*deep) == deep_chunks(*popped.1).push(contents(chunk))
                &&& contents(chunk).len() > 0
            },
            None => deep_chunks(*deep).len() == 0 && deep_chunks(*popped.1).len() == 0,
        },
{
    let ghost start = *deep;
    let mut deep = deep;
    if deep.tail.len() == 0 {
        match deep.tree.pop_back_block() {
            Some(block) => {
                proof {
                    lemma_tree(start.tree);
                    lemma_none_empty_concat(tree_chunks(deep.tree), chunk_views(block@));
                }
                let ghost next = block@;
                extend_deque(&mut deep.tail, block);
                assert(deep.tail@ =~= next);
            },
            None => {
                std::mem::swap(&mut deep.head, &mut deep.tail);
            },
        }
        proof {
            lemma_no_views();
            assert(start.tail@ =~= Seq::<Bytes>::empty());
            assert(deep_chunks(*deep) =~= deep_chunks(start));
        }
    }
    let ghost filled = *deep;
    match deep.tail.pop_back() {
        Some(chunk) => {
            proof {
                assert(deep.tail@.push(chunk) =~= filled.tail@);
                lemma_views_back(deep.tail@, chunk);
                assert(deep_chunks(*deep).push(contents(chunk)) =~= deep_chunks(filled));
            }
            (Some(chunk), deep)
        },
        None => (None, deep),
    }
}

impl Parts {
    /// Takes the first chunk.
    pub(crate) fn pop_front(self) -> (popped: (Option<Bytes>, Self))
        requires
            parts_wf(self),
        ensures
            parts_wf(popped.1),
            match popped.0 {
                Some(chunk) => {
                    &&& repr_chunks(self.repr) == seq![contents(chunk)] + repr_chunks(
                        popped.1.repr,
                    )
                    &&& contents(chunk).len() > 0
                    &&& popped.1.repr is Deep <==> self.repr is Deep && repr_chunks(
                        popped.1.repr,
                    ).len() > DEMOTE_AT
                },
                None => {
                    &&& repr_chunks(self.repr).len() == 0
                    &&& repr_chunks(popped.1.repr).len() == 0
                    &&& popped.1.repr is Deep <==> self.repr is Deep
                },
            },
    {
        let ghost before = repr_chunks(self.repr);
        proof {
            lemma_no_views();
        }
        match self.repr {
            Repr::Small { head, additional } => {
                if head.is_empty() {
                    return (
                        None,
                        Parts { len: self.len, repr: Repr::Small { head, additional } },
                    );
                }
                let ghost all = additional@;
                let mut additional = additional;
                let len: usize = self.len;
                let next = match additional.pop_front() {
                    Some(next) => {
                        proof {
                            assert(seq![next] + additional@ =~= all);
                            lemma_views_front(next, additional@);
                        }
                        next
                    },
                    None => {
                        assert(all =~= Seq::<Bytes>::empty());
                        Bytes::new()
                    },
                };
                proof {
                    assert(seq![contents(head)] + small_chunks(next, additional@) =~= before);
                    lemma_front(contents(head), small_chunks(next, additional@));
                }
                let rest = Parts {
                    len: len - head.len(),
                    repr: Repr::Small { head: next, additional },
                };
                (Some(head), rest)
            },
            Repr::Deep(deep) => {
                let len: usize = self.len;
                let (chunk, deep) = pop_front_deep(deep);
                match chunk {
                    Some(chunk) => {
                        proof {
                            lemma_front(contents(chunk), deep_chunks(*deep));
                        }
                        let rest = Parts { len: len - chunk.len(), repr: Repr::Deep(deep) };
                        (Some(chunk), rest.maybe_demote())
                    },
                    None => {
                        assert(deep_chunks(*deep) =~= before);
                        (None, Parts { len, repr: Repr::Deep(deep) })
                    },
                }
            },
        }
    }

    /// Takes the last chunk.
    pub(crate) fn pop_back(self) -> (popped: (Option<Bytes>, Self))
        requires
            parts_wf(self),
        ensures
            parts_wf(popped.1),
            match popped.0 {
                Some(chunk) => {
                    &&& repr_chunks(self.repr) == repr_chunks(popped.1.repr).push(contents(chunk))
                    &&& contents(chunk).len() > 0
                    &&& popped.1.repr is Deep <==> self.repr is Deep && repr_chunks(
                        popped.1.repr,
                    ).len() > DEMOTE_AT
                },
                None => {
                    &&& repr_chunks(self.repr).len() == 0
                    &&& repr_chunks(popped.1.repr).len() == 0
                    &&& popped.1.repr is Deep <==> self.repr is Deep
                },
            },
    {
        let ghost before = repr_chunks(self.repr);
        proof {
            lemma_no_views();
        }
        match self.repr {
            Repr::Small { head, additional } => {
                let ghost all = additional@;
                let mut additional = additional;
                let len: usize = self.len;
                match additional.pop_back() {
                    Some(chunk) => {
                        proof {
                            assert(additional@.push(chunk) =~= all);
                            lemma_views_back(additional@, chunk);
                            assert(small_chunks(head, additional@).push(contents(chunk))
                                =~= before);
                            lemma_joined_push(small_chunks(head, additional@), contents(chunk));
                        }
                        let rest = Parts {
                            len: len - chunk.len(),
                            repr: Repr::Small { head, additional },
                        };
                        (Some(chunk), rest)
                    },
                    None => {
                        assert(all =~= Seq::<Bytes>::empty());
                        if head.is_empty() {
                            return (None, Parts { len, repr: Repr::Small { head, additional } });
                        }
                        let none = Bytes::new();
                        proof {
                            assert(small_chunks(none, additional@).push(contents(head)) =~= before);
                            lemma_joined_push(small_chunks(none, additional@), contents(head));
                        }
                        let rest = Parts {
                            len: len - head.len(),
                            repr: Repr::Small { head: none, additional },
                        };
                        (Some(head), rest)
                    },
                }
            },
            Repr::Deep(deep) => {
                let len: usize = self.len;
                let (chunk, deep) = pop_back_deep(deep);
                match chunk {
                    Some(chunk) => {
                        proof {
                            lemma_joined_push(deep_chunks(*deep), contents(chunk));
                        }
                        let rest = Parts { len: len - chunk.len(), repr: Repr::Deep(deep) };
                        (Some(chunk), rest.maybe_demote())
                    },
                    None => {
                        assert(deep_chunks(*deep) =~= before);
                        (None, Parts { len, repr: Repr::Deep(deep) })
                    },
                }
            },
        }
    }

    /// Drops the first `count` bytes.
    pub(crate) fn consume_front(self, count: usize) -> (parts: Self)
        requires
            parts_wf(self),
            count <= self.len,
        ensures
            parts_wf(parts),
            repr_chunks(parts.repr) == clipped(
                repr_chunks(self.repr),
                count as int,
                self.len as int,
            ),
            parts.repr is Deep <==> self.repr is Deep && (count == 0 || repr_chunks(
                parts.repr,
            ).len() > DEMOTE_AT),
    {
        let ghost list = repr_chunks(self.repr);
        let len: usize = self.len - count;
        proof {
            lemma_repr(self.repr);
            lemma_clipped_whole(list);
            lemma_clipped_joined(list, count as int, self.len as int);
        }
        if count == 0 {
            return self;
        }
        match self.repr {
            Repr::Small { head, additional } => {
                let (head, additional) = consume_front_small(head, additional, count);
                Parts { len, repr: Repr::Small { head, additional } }
            },
            Repr::Deep(deep) => {
                let deep = consume_front_deep(deep, count);
                let parts = Parts { len, repr: Repr::Deep(deep) };
                parts.maybe_demote()
            },
        }
    }

    /// Drops the last `count` bytes.
    pub(crate) fn consume_back(self, count: usize) -> (parts: Self)
        requires
            parts_wf(self),
            count <= self.len,
        ensures
            parts_wf(parts),
            repr_chunks(parts.repr) == clipped(repr_chunks(self.repr), 0, self.len - count),
            parts.repr is Deep <==> self.repr is Deep && (count == 0 || repr_chunks(
                parts.repr,
            ).len() > DEMOTE_AT),
    {
        let ghost list = repr_chunks(self.repr);
        let len: usize = self.len - count;
        proof {
            lemma_repr(self.repr);
            lemma_clipped_whole(list);
            lemma_clipped_joined(list, 0, self.len - count);
        }
        if count == 0 {
            return self;
        }
        match self.repr {
            Repr::Small { head, additional } => {
                let (head, additional) = consume_back_small(head, additional, count);
                Parts { len, repr: Repr::Small { head, additional } }
            },
            Repr::Deep(deep) => {
                let deep = consume_back_deep(deep, count);
                let parts = Parts { len, repr: Repr::Deep(deep) };
                parts.maybe_demote()
            },
        }
    }
}

/// Drops the first `count` bytes of a small rope.
fn consume_front_small(head: Bytes, additional: VecDeque<Bytes>, count: usize) -> (left: (
    Bytes,
    VecDeque<Bytes>,
))
    requires
        repr_wf((Repr::Small { head, additional })),
        count <= joined(small_chunks(head, additional@)).len(),
    ensures
        repr_wf((Repr::Small { head: left.0, additional: left.1 })),
        small_chunks(left.0, left.1@) == clipped(
            small_chunks(head, additional@),
            count as int,
            joined(small_chunks(head, additional@)).len() as int,
        ),
{
    let ghost target = clipped(
        small_chunks(head, additional@),
        count as int,
        joined(small_chunks(head, additional@)).len() as int,
    );
    let mut head = head;
    let mut additional = additional;
    let mut left: usize = count;
    while left > 0
        invariant
            repr_wf((Repr::Small { head, additional })),
            left <= joined(small_chunks(head, additional@)).len(),
            clipped(
                small_chunks(head, additional@),
                left as int,
                joined(small_chunks(head, additional@)).len() as int,
            ) == target,
        decreases left,
    {
        let ghost first = contents(head);
        let ghost others = chunk_views(additional@);
        proof {
            lemma_no_views();
            lemma_front(first, others);
            lemma_clipped_first(first, others, left as int);
        }
        if head.len() <= left {
            let ghost all = additional@;
            left = left - head.len();
            head = match additional.pop_front() {
                Some(next) => {
                    proof {
                        assert(seq![next] + additional@ =~= all);
                        lemma_views_front(next, additional@);
                    }
                    next
                },
                None => {
                    assert(all =~= Seq::<Bytes>::empty());
                    Bytes::new()
                },
            };
            assert(small_chunks(head, additional@) =~= others);
        } else {
            chunk_advance(&mut head, left);
            left = 0;
            proof {
                assert(contents(head) == first.skip(first.len() - contents(head).len()));
                lemma_repr(Repr::Small { head, additional });
                lemma_clipped_whole(small_chunks(head, additional@));
            }
        }
    }
    proof {
        lemma_repr(Repr::Small { head, additional });
        lemma_clipped_whole(small_chunks(head, additional@));
    }
    (head, additional)
}

/// Drops the last `count` bytes of a small rope.
fn consume_back_small(head: Bytes, additional: VecDeque<Bytes>, count: usize) -> (left: (
    Bytes,
    VecDeque<Bytes>,
))
    requires
        repr_wf((Repr::Small { head, additional })),
        count <= joined(small_chunks(head, additional@)).len(),
    ensures
        repr_wf((Repr::Small { head: left.0, additional: left.1 })),
        small_chunks(left.0, left.1@) == clipped(
            small_chunks(head, additional@),
            0,
            joined(small_chunks(head, additional@)).len() - count,
        ),
{
    let ghost target = clipped(
        small_chunks(head, additional@),
        0,
        joined(small_chunks(head, additional@)).len() - count,
    );
    let mut head = head;
    let mut additional = additional;
    let mut left: usize = count;
    while left > 0
        invariant
            repr_wf((Repr::Small { head, additional })),
            left <= joined(small_chunks(head, additional@)).len(),
            clipped(
                small_chunks(head, additional@),
                0,
                joined(small_chunks(head, additional@)).len() - left,
            ) == target,
        decreases left,
    {
        let ghost all = additional@;
        proof {
            lemma_no_views();
        }
        match additional.pop_back() {
            Some(back) => {
                let last: usize = back.len();
                let ghost full = contents(back);
                let ghost rest = small_chunks(head, additional@);
                proof {
                    assert(additional@.push(back) =~= all);
                    lemma_views_back(additional@, back);
                    assert(small_chunks(head, all) =~= rest.push(full));
                    lemma_repr(Repr::Small { head, additional });
                    lemma_joined_push(rest, full);
                    lemma_clipped_last(rest, full, left as int);
                }
                if last <= left {
                    left = left - last;
                } else {
                    let mut back = back;
                    back.truncate(last - left);
                    proof {
                        lemma_views_back(additional@, back);
                        assert(small_chunks(head, additional@.push(back)) =~= rest.push(
                            contents(back),
                        ));
                    }
                    additional.push_back(back);
                    left = 0;
                    proof {
                        lemma_repr(Repr::Small { head, additional });
                        lemma_clipped_whole(small_chunks(head, additional@));
                    }
                }
            },
            None => {
                let ghost first = contents(head);
                let ghost none = Seq::<Seq<u8>>::empty();
                proof {
                    assert(all =~= Seq::<Bytes>::empty());
                    assert(additional@ =~= Seq::<Bytes>::empty());
                    assert(small_chunks(head, all) =~= none.push(first));
                    lemma_joined_push(none, first);
                    lemma_clipped_last(none, first, left as int);
                }
                if head.len() <= left {
                    head = Bytes::new();
                    assert(small_chunks(head, additional@) =~= none);
                } else {
                    let keep: usize = head.len() - left;
                    head.truncate(keep);
                    assert(small_chunks(head, additional@) =~= none.push(contents(head)));
                }
                left = 0;
                proof {
                    lemma_repr(Repr::Small { head, additional });
                    lemma_clipped_whole(small_chunks(head, additional@));
                }
            },
        }
    }
    proof {
        lemma_repr(Repr::Small { head, additional });
        lemma_clipped_whole(small_chunks(head, additional@));
    }
    (head, additional)
}

/// Drops the first `count` bytes of a deep rope.
fn consume_front_deep(deep: Box<Deep>, count: usize) -> (left: Box<Deep>)
    requires
        repr_wf(Repr::Deep(deep)),
        count <= joined(deep_chunks(*deep)).len(),
        joined(deep_chunks(*deep)).len() <= usize::MAX,
    ensures
        repr_wf(Repr::Deep(left)),
        deep_chunks(*left) == clipped(
            deep_chunks(*deep),
            count as int,
            joined(deep_chunks(*deep)).len() as int,
        ),
{
    let ghost target = clipped(
        deep_chunks(*deep),
        count as int,
        joined(deep_chunks(*deep)).len() as int,
    );
    let mut deep = deep;
    let mut left: usize = count;
    while left > 0
        invariant
            repr_wf(Repr::Deep(deep)),
            left <= joined(deep_chunks(*deep)).len(),
            clipped(
                deep_chunks(*deep),
                left as int,
                joined(deep_chunks(*deep)).len() as int,
            ) == target,
        decreases left,
    {
        let (popped, rest) = pop_front_deep(deep);
        deep = rest;
        match popped {
            Some(chunk) => {
                let first: usize = chunk.len();
                let ghost others = deep_chunks(*deep);
                proof {
                    lemma_repr(Repr::Deep(deep));
                    lemma_front(contents(chunk), others);
                    lemma_clipped_first(contents(chunk), others, left as int);
                }
                if first <= left {
                    left = left - first;
                } else {
                    let mut chunk = chunk;
                    chunk_advance(&mut chunk, left);
                    proof {
                        lemma_views_front(chunk, deep.head@);
                    }
                    deep.head.push_front(chunk);
                    left = 0;
                    proof {
                        assert(deep_chunks(*deep) =~= seq![contents(chunk)] + others);
                        lemma_repr(Repr::Deep(deep));
                        lemma_clipped_whole(deep_chunks(*deep));
                    }
                }
            },
            None => {
                proof {
                    lemma_no_views();
                    assert(false);
                }
                left = 0;
            },
        }
    }
    proof {
        lemma_repr(Repr::Deep(deep));
        lemma_clipped_whole(deep_chunks(*deep));
    }
    deep
}

/// Drops the last `count` bytes of a deep rope.
fn consume_back_deep(deep: Box<Deep>, count: usize) -> (left: Box<Deep>)
    requires
        repr_wf(Repr::Deep(deep)),
        count <= joined(deep_chunks(*deep)).len(),
        joined(deep_chunks(*deep)).len() <= usize::MAX,
    ensures
        repr_wf(Repr::Deep(left)),
        deep_chunks(*left) == clipped(
            deep_chunks(*deep),
            0,
            joined(deep_chunks(*deep)).len() - count,
        ),
{
    let ghost target = clipped(deep_chunks(*deep), 0, joined(deep_chunks(*deep)).len() - count);
    let mut deep = deep;
    let mut left: usize = count;
    while left > 0
        invariant
            repr_wf(Repr::Deep(deep)),
            left <= joined(deep_chunks(*deep)).len() <= usize::MAX,
            clipped(deep_chunks(*deep), 0, joined(deep_chunks(*deep)).len() - left) == target,
        decreases left,
    {
        let (popped, rest) = pop_back_deep(deep);
        deep = rest;
        match popped {
            Some(chunk) => {
                let last: usize = chunk.len();
                let ghost others = deep_chunks(*deep);
                proof {
                    lemma_repr(Repr::Deep(deep));
                    lemma_joined_push(others, contents(chunk));
                    lemma_clipped_last(others, contents(chunk), left as int);
                }
                if last <= left {
                    left = left - last;
                } else {
                    let mut chunk = chunk;
                    chunk.truncate(last - left);
                    proof {
                        lemma_views_back(deep.tail@, chunk);
                    }
                    deep.tail.push_back(chunk);
                    left = 0;
                    proof {
                        assert(deep_chunks(*deep) =~= others.push(contents(chunk)));
                        lemma_joined_push(others, contents(chunk));
                        lemma_repr(Repr::Deep(deep));
                        lemma_clipped_whole(deep_chunks(*deep));
                    }
                }
            },
            None => {
                proof {
                    lemma_no_views();
                    assert(false);
                }
                left = 0;
            },
        }
    }
    proof {
        lemma_repr(Repr::Deep(deep));
        lemma_clipped_whole(deep_chunks(*deep));
    }
    deep
}

} // verus!
