//! What an overwrite makes of a list of chunks: each chunk that it touches gives way to the pieces
//! of its edit, and the others stay.

use vstd::prelude::*;

use crate::chunks::joined;
use crate::chunks::least;
use crate::chunks::lemma_joined_concat;
use crate::chunks::lemma_joined_cut;
use crate::chunks::lemma_joined_step;
use crate::rope::edit::cow_pieces;

verus! {

/// The larger of two positions.
pub open spec fn most(a: int, b: int) -> int {
    if a >= b {
        a
    } else {
        b
    }
}

/// `pieces` take the place of a chunk when `new` overwrites the bytes from `at` on, as far as these
/// lie in the chunk. A chunk with none of them stays.
pub open spec fn rewritten_chunk(
    chunk: Seq<u8>,
    at: int,
    new: Seq<u8>,
    pieces: Seq<Seq<u8>>,
) -> bool {
    let from = most(at, 0);
    let to = least(at + new.len(), chunk.len() as int);
    if from < to {
        cow_pieces(chunk, from, new.subrange(from - at, to - at), pieces)
    } else {
        pieces == seq![chunk]
    }
}

/// The chunks of all lists, one list after the other.
pub open spec fn flattened(lists: Seq<Seq<Seq<u8>>>) -> Seq<Seq<u8>>
    decreases lists.len(),
{
    if lists.len() == 0 {
        Seq::empty()
    } else {
        flattened(lists.drop_last()) + lists.last()
    }
}

/// `lists` holds, for each chunk, the pieces that take its place.
pub open spec fn rewritten_by(
    before: Seq<Seq<u8>>,
    lists: Seq<Seq<Seq<u8>>>,
    at: int,
    new: Seq<u8>,
) -> bool {
    &&& lists.len() == before.len()
    &&& forall|k: int|
        0 <= k < before.len() ==> rewritten_chunk(
            before[k],
            at - joined(before.take(k)).len(),
            new,
            #[trigger] lists[k],
        )
}

/// The chunks of a list after `new` overwrote its bytes from `at` on.
#[verifier::opaque]
pub open spec fn rewritten(
    before: Seq<Seq<u8>>,
    after: Seq<Seq<u8>>,
    at: int,
    new: Seq<u8>,
) -> bool {
    exists|lists: Seq<Seq<Seq<u8>>>|
        #[trigger] rewritten_by(before, lists, at, new) && after == flattened(lists)
}

/// Two lists of lists in a row.
proof fn lemma_flattened(a: Seq<Seq<Seq<u8>>>, b: Seq<Seq<Seq<u8>>>)
    ensures
        flattened(a + b) == flattened(a) + flattened(b),
    decreases b.len(),
{
    if b.len() == 0 {
        assert(a + b =~= a);
        assert(flattened(a) + flattened(b) =~= flattened(a));
    } else {
        lemma_flattened(a, b.drop_last());
        assert((a + b).drop_last() =~= a + b.drop_last());
        assert(flattened(a) + (flattened(b.drop_last()) + b.last()) =~= flattened(a) + flattened(
            b.drop_last(),
        ) + b.last());
    }
}

/// Lists of one chunk each.
proof fn lemma_flattened_ones(lists: Seq<Seq<Seq<u8>>>, chunks: Seq<Seq<u8>>)
    requires
        lists.len() == chunks.len(),
        forall|k: int| 0 <= k < lists.len() ==> #[trigger] lists[k] == seq![chunks[k]],
    ensures
        flattened(lists) == chunks,
    decreases lists.len(),
{
    if lists.len() == 0 {
        assert(flattened(lists) =~= chunks);
    } else {
        lemma_flattened_ones(lists.drop_last(), chunks.drop_last());
        assert(lists.last() == lists[lists.len() - 1]);
        assert(flattened(lists) =~= chunks);
    }
}

/// The first chunks of a list hold no more bytes than the first and more.
proof fn lemma_reach(chunks: Seq<Seq<u8>>, a: int, b: int)
    requires
        0 <= a <= b <= chunks.len(),
    ensures
        joined(chunks.take(a)).len() <= joined(chunks.take(b)).len(),
{
    lemma_joined_cut(chunks.take(b), a);
    assert(chunks.take(b).take(a) =~= chunks.take(a));
}

/// An overwrite leaves the chunks that end before it and those that start behind it as they are.
pub proof fn law_overwrite_keeps_other_chunks(
    before: Seq<Seq<u8>>,
    after: Seq<Seq<u8>>,
    at: int,
    new: Seq<u8>,
    first: int,
    last: int,
) -> (middle: Seq<Seq<u8>>)
    requires
        rewritten(before, after, at, new),
        0 <= first <= last <= before.len(),
        joined(before.take(first)).len() <= at,
        at + new.len() <= joined(before.take(last)).len(),
    ensures
        after == before.take(first) + middle + before.skip(last),
{
    reveal(rewritten);
    let lists = choose|lists: Seq<Seq<Seq<u8>>>|
        #[trigger] rewritten_by(before, lists, at, new) && after == flattened(lists);
    let front = lists.take(first);
    let own = lists.subrange(first, last);
    let back = lists.skip(last);
    assert forall|k: int| 0 <= k < front.len() implies #[trigger] front[k] == seq![before.take(
        first,
    )[k]] by {
        assert(front[k] == lists[k]);
        lemma_joined_step(before, k);
        lemma_reach(before, k + 1, first);
    }
    assert forall|k: int| 0 <= k < back.len() implies #[trigger] back[k] == seq![before.skip(
        last,
    )[k]] by {
        assert(back[k] == lists[last + k]);
        lemma_reach(before, last, last + k);
    }
    lemma_flattened_ones(front, before.take(first));
    lemma_flattened_ones(back, before.skip(last));
    lemma_flattened(front + own, back);
    lemma_flattened(front, own);
    assert(front + own + back =~= lists);
    flattened(own)
}

/// An overwrite of two lists in a row overwrites each of them.
pub(crate) proof fn lemma_rewritten_concat(
    a: Seq<Seq<u8>>,
    a_after: Seq<Seq<u8>>,
    b: Seq<Seq<u8>>,
    b_after: Seq<Seq<u8>>,
    at: int,
    new: Seq<u8>,
)
    requires
        rewritten(a, a_after, at, new),
        rewritten(b, b_after, at - joined(a).len(), new),
    ensures
        rewritten(a + b, a_after + b_after, at, new),
{
    reveal(rewritten);
    let first = choose|lists: Seq<Seq<Seq<u8>>>|
        #[trigger] rewritten_by(a, lists, at, new) && a_after == flattened(lists);
    let second = choose|lists: Seq<Seq<Seq<u8>>>|
        #[trigger] rewritten_by(b, lists, at - joined(a).len(), new) && b_after == flattened(lists);
    let lists = first + second;
    let list = a + b;
    lemma_flattened(first, second);
    assert forall|k: int| 0 <= k < list.len() implies rewritten_chunk(
        list[k],
        at - joined(list.take(k)).len(),
        new,
        #[trigger] lists[k],
    ) by {
        if k < a.len() {
            assert(list.take(k) =~= a.take(k));
            assert(lists[k] == first[k]);
        } else {
            assert(list.take(k) =~= a + b.take(k - a.len()));
            lemma_joined_concat(a, b.take(k - a.len()));
            assert(lists[k] == second[k - a.len()]);
        }
    }
    assert(rewritten_by(list, lists, at, new));
}

/// A list that an overwrite does not reach stays as it is.
pub(crate) proof fn lemma_rewritten_none(list: Seq<Seq<u8>>, at: int, new: Seq<u8>)
    requires
        at + new.len() <= 0 || at >= joined(list).len(),
    ensures
        rewritten(list, list, at, new),
    decreases list.len(),
{
    reveal(rewritten);
    if list.len() == 0 {
        let lists = Seq::<Seq<Seq<u8>>>::empty();
        assert(rewritten_by(list, lists, at, new));
        assert(flattened(lists) =~= list);
    } else {
        let front = list.drop_last();
        let last = seq![list.last()];
        lemma_rewritten_none(front, at, new);
        lemma_rewritten_one(list.last(), at - joined(front).len(), new, last);
        assert(front + last =~= list);
        lemma_rewritten_concat(front, front, last, last, at, new);
    }
}

/// An overwrite with nothing leaves every list as it is.
pub(crate) proof fn lemma_rewritten_nothing(list: Seq<Seq<u8>>, at: int)
    ensures
        rewritten(list, list, at, Seq::empty()),
    decreases list.len(),
{
    let none = Seq::<u8>::empty();
    if list.len() == 0 {
        lemma_rewritten_none(list, at, none);
    } else {
        let front = list.drop_last();
        let last = seq![list.last()];
        lemma_rewritten_nothing(front, at);
        lemma_rewritten_one(list.last(), at - joined(front).len(), none, last);
        assert(front + last =~= list);
        lemma_rewritten_concat(front, front, last, last, at, none);
    }
}

/// A list of one chunk.
pub(crate) proof fn lemma_rewritten_one(
    chunk: Seq<u8>,
    at: int,
    new: Seq<u8>,
    pieces: Seq<Seq<u8>>,
)
    requires
        rewritten_chunk(chunk, at, new, pieces),
    ensures
        rewritten(seq![chunk], pieces, at, new),
{
    reveal(rewritten);
    let before = seq![chunk];
    let lists = seq![pieces];
    assert(before.take(0) =~= Seq::<Seq<u8>>::empty());
    assert(rewritten_by(before, lists, at, new));
    assert(lists.drop_last() =~= Seq::<Seq<Seq<u8>>>::empty());
    reveal_with_fuel(flattened, 2);
    assert(flattened(lists) =~= pieces);
}

/// What is written before a list and behind it changes nothing in it.
pub(crate) proof fn lemma_rewritten_among(
    list: Seq<Seq<u8>>,
    after: Seq<Seq<u8>>,
    at: int,
    front: Seq<u8>,
    new: Seq<u8>,
    back: Seq<u8>,
)
    requires
        rewritten(list, after, at, new),
        front.len() == 0 || at <= 0,
        back.len() == 0 || at + new.len() >= joined(list).len(),
    ensures
        rewritten(list, after, at - front.len(), front + new + back),
{
    reveal(rewritten);
    let lists = choose|lists: Seq<Seq<Seq<u8>>>|
        #[trigger] rewritten_by(list, lists, at, new) && after == flattened(lists);
    let all = front + new + back;
    let start = at - front.len();
    assert forall|k: int| 0 <= k < list.len() implies rewritten_chunk(
        list[k],
        start - joined(list.take(k)).len(),
        all,
        #[trigger] lists[k],
    ) by {
        lemma_joined_step(list, k);
        let off = joined(list.take(k)).len();
        let chunk = list[k];
        assert(rewritten_chunk(chunk, at - off, new, lists[k]));
        let from = most(at - off, 0);
        let to = least(at - off + new.len(), chunk.len() as int);
        let wide_from = most(start - off, 0);
        let wide_to = least(start - off + all.len(), chunk.len() as int);
        if from < to {
            assert(wide_from == from);
            assert(wide_to == to);
            assert(all.subrange(from - (start - off), to - (start - off)) =~= new.subrange(
                from - (at - off),
                to - (at - off),
            ));
        }
    }
    assert(rewritten_by(list, lists, start, all));
}

/// An overwrite goes on from one list to the next: it has written `done` to the first one and writes
/// `next` to the second one, from `local` on.
pub(crate) proof fn lemma_rewritten_step(
    a: Seq<Seq<u8>>,
    a_after: Seq<Seq<u8>>,
    b: Seq<Seq<u8>>,
    b_after: Seq<Seq<u8>>,
    at: int,
    done: Seq<u8>,
    local: int,
    next: Seq<u8>,
)
    requires
        rewritten(a, a_after, at, done),
        rewritten(b, b_after, local, next),
        joined(a).len() + local == at + done.len(),
        0 <= local,
        done.len() == 0 || local == 0,
    ensures
        rewritten(a + b, a_after + b_after, at, done + next),
{
    let none = Seq::<u8>::empty();
    lemma_rewritten_among(a, a_after, at, none, done, next);
    assert(none + done + next =~= done + next);
    lemma_rewritten_among(b, b_after, local, done, next, none);
    assert(done + next + none =~= done + next);
    lemma_rewritten_concat(a, a_after, b, b_after, at, done + next);
}

/// One chunk that an edit overwrites from `local` on.
pub(crate) proof fn lemma_rewritten_piece(
    chunk: Seq<u8>,
    local: int,
    next: Seq<u8>,
    pieces: Seq<Seq<u8>>,
)
    requires
        0 <= local,
        0 < next.len(),
        local + next.len() <= chunk.len(),
        cow_pieces(chunk, local, next, pieces),
    ensures
        rewritten(seq![chunk], pieces, local, next),
{
    assert(next.subrange(0, next.len() as int) =~= next);
    lemma_rewritten_one(chunk, local, next, pieces);
}

/// What lies behind an overwrite stays.
pub(crate) proof fn lemma_rewritten_end(
    a: Seq<Seq<u8>>,
    a_after: Seq<Seq<u8>>,
    b: Seq<Seq<u8>>,
    at: int,
    new: Seq<u8>,
)
    requires
        rewritten(a, a_after, at, new),
        at + new.len() <= joined(a).len(),
    ensures
        rewritten(a + b, a_after + b, at, new),
{
    lemma_rewritten_none(b, at - joined(a).len(), new);
    lemma_rewritten_concat(a, a_after, b, b, at, new);
}

} // verus!
