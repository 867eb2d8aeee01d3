//! How edits cut a rope into chunks, which bytes they change, and when a rope turns into a tree.

use vstd::prelude::*;

use crate::chunks::clipped;
use crate::chunks::joined;
use crate::chunks::lemma_clipped_skip;
use crate::chunks::lemma_clipped_take;
use crate::chunks::lemma_joined_at;
use crate::chunks::lemma_joined_concat;
use crate::chunks::lemma_joined_one;
use crate::chunks::lemma_joined_push;
use crate::chunks::none_empty;
use crate::rope::builder::DEFAULT_CAPACITY;
use crate::rope::edit::cow_pieces;
use crate::rope::edit::patched;
use crate::rope::edit::unless_empty;
use crate::rope::edit::COW_SPLIT_ABOVE;
use crate::rope::join::joined_deep;
use crate::rope::join::sliced_deep;
use crate::rope::join::split_deep;
use crate::rope::node::FANOUT;
use crate::rope::parts::DEMOTE_AT;
use crate::rope::parts::PROMOTE_AT;
use crate::rope::replace::coalesced;
use crate::rope::replace::coalesces;
use crate::rope::replace::edited_chunks;
use crate::rope::replace::respliced;
use crate::rope::replace::spliced;
use crate::rope::replace::COALESCE_MAX;
use crate::rope::rewrite::flattened;
use crate::rope::rewrite::rewritten;
use crate::rope::rewrite::rewritten_by;
use crate::rope::rewrite::rewritten_chunk;
use crate::rope::set_byte::byte_set;

verus! {

/// The sizes at which ropes change their shape.
pub proof fn law_sizes()
    ensures
        PROMOTE_AT == 64,
        DEMOTE_AT == 32,
        FANOUT == 32,
        COW_SPLIT_ABOVE == 4096,
        COALESCE_MAX == 256,
        DEFAULT_CAPACITY == 128 * 1024,
{
}

/// Two ropes joined: a rope without chunks changes nothing; otherwise the result is a tree if it has
/// more than 32 chunks, and either the first rope was a tree or it has 64 chunks or more.
pub proof fn law_joined_depth(left: bool, count: nat, right: bool, more: nat)
    ensures
        more == 0 ==> joined_deep(left, count, right, more) == left,
        more > 0 && count == 0 ==> joined_deep(left, count, right, more) == right,
        more > 0 && count > 0 && left ==> (joined_deep(left, count, right, more) <==> count + more
            > 32),
        more > 0 && count > 0 && !left ==> (joined_deep(left, count, right, more) <==> count + more
            >= 64),
{
}

/// A rope cut in two: an empty half is flat and the other one is what the rope was. Both halves of a
/// tree are trees where they have more than 32 chunks. Of a flat rope a half is a tree where it has
/// more than 64 chunks, the second one only if a chunk was cut.
pub proof fn law_split_depth(
    deep: bool,
    count: nat,
    first: nat,
    first_deep: bool,
    second: nat,
    second_deep: bool,
)
    requires
        split_deep(deep, count, first, first_deep, second, second_deep),
    ensures
        first == 0 ==> !first_deep && second_deep == deep,
        first > 0 && second == 0 ==> first_deep == deep && !second_deep,
        first > 0 && second > 0 && deep ==> (first_deep <==> first > 32) && (second_deep <==> second
            > 32),
        first > 0 && second > 0 && !deep ==> (first_deep <==> first > 64) && (second_deep <==> second
            > 64 && first + second > count),
{
}

/// A slice of a rope: the whole of it is what the rope was, and of a flat rope a part is a tree where
/// it has more than 64 chunks. Of a tree a part with more than 64 chunks is a tree, and one with 32 or
/// fewer is not.
pub proof fn law_slice_depth(deep: bool, whole: bool, count: nat, part_deep: bool)
    requires
        sliced_deep(deep, whole, count, part_deep),
    ensures
        whole ==> part_deep == deep,
        !whole && !deep ==> (part_deep <==> count > 64),
        !whole && deep && count > 64 ==> part_deep,
        !whole && deep && count <= 32 ==> !part_deep,
{
}

/// Overwritten bytes: nothing moves, the bytes from `at` on are the new ones, and all others are as
/// they were.
pub proof fn law_patched(bytes: Seq<u8>, at: int, new: Seq<u8>)
    requires
        0 <= at,
        at + new.len() <= bytes.len(),
    ensures
        patched(bytes, at, new).len() == bytes.len(),
        forall|i: int|
            0 <= i < bytes.len() ==> #[trigger] patched(bytes, at, new)[i] == if at <= i < at
                + new.len() {
                new[i - at]
            } else {
                bytes[i]
            },
{
}

/// An overwrite inside a chunk leaves the other bytes of the chunk as they are. The chunk stays one
/// unless it has more than 4096 bytes; where it is cut, the new bytes are a chunk of their own between
/// what lay before them and behind them.
pub proof fn law_cow_pieces(chunk: Seq<u8>, at: int, new: Seq<u8>, pieces: Seq<Seq<u8>>)
    requires
        0 <= at,
        0 < new.len(),
        at + new.len() <= chunk.len(),
        cow_pieces(chunk, at, new, pieces),
    ensures
        joined(pieces).len() == chunk.len(),
        forall|i: int|
            0 <= i < chunk.len() ==> #[trigger] joined(pieces)[i] == if at <= i < at + new.len() {
                new[i - at]
            } else {
                chunk[i]
            },
        none_empty(pieces),
        1 <= pieces.len() <= 3,
        chunk.len() <= 4096 ==> pieces.len() == 1,
        pieces.len() > 1 ==> {
            ||| pieces == seq![new, chunk.skip(at + new.len())]
            ||| pieces == seq![chunk.take(at), new]
            ||| pieces == seq![chunk.take(at), new, chunk.skip(at + new.len())]
        },
{
    lemma_cow_joined(chunk, at, new, pieces);
}

proof fn lemma_unless_empty(chunk: Seq<u8>)
    ensures
        joined(unless_empty(chunk)) == chunk,
        none_empty(unless_empty(chunk)),
{
    lemma_joined_one(chunk);
    if chunk.len() == 0 {
        assert(chunk =~= Seq::<u8>::empty());
    }
}

proof fn lemma_cow_joined(chunk: Seq<u8>, at: int, new: Seq<u8>, pieces: Seq<Seq<u8>>)
    requires
        0 <= at,
        0 < new.len(),
        at + new.len() <= chunk.len(),
        cow_pieces(chunk, at, new, pieces),
    ensures
        joined(pieces) == patched(chunk, at, new),
        none_empty(pieces),
        1 <= pieces.len() <= 3,
        chunk.len() <= 4096 ==> pieces.len() == 1,
        pieces.len() > 1 ==> {
            ||| pieces == seq![new, chunk.skip(at + new.len())]
            ||| pieces == seq![chunk.take(at), new]
            ||| pieces == seq![chunk.take(at), new, chunk.skip(at + new.len())]
        },
{
    let whole = patched(chunk, at, new);
    lemma_joined_one(whole);
    if pieces != seq![whole] {
        let front = unless_empty(chunk.take(at));
        let back = unless_empty(chunk.skip(at + new.len()));
        lemma_unless_empty(chunk.take(at));
        lemma_unless_empty(chunk.skip(at + new.len()));
        lemma_joined_one(new);
        lemma_joined_concat(front, seq![new]);
        lemma_joined_concat(front + seq![new], back);
        if at == 0 {
            assert(pieces =~= seq![new] + back);
            if at + new.len() < chunk.len() {
                assert(pieces =~= seq![new, chunk.skip(at + new.len())]);
            }
        } else if at + new.len() == chunk.len() {
            assert(pieces =~= seq![chunk.take(at), new]);
        } else {
            assert(pieces =~= seq![chunk.take(at), new, chunk.skip(at + new.len())]);
        }
    }
}

/// Setting a byte changes that byte of the rope and no other, and cuts no chunk but the one that it
/// lies in.
pub proof fn law_byte_set(
    before: Seq<Seq<u8>>,
    after: Seq<Seq<u8>>,
    i: int,
    pieces: Seq<Seq<u8>>,
    offset: int,
    value: u8,
)
    requires
        byte_set(before, after, i, pieces, offset, value),
    ensures
        0 <= i < before.len(),
        joined(before.take(i)).len() <= offset < joined(before.take(i)).len() + before[i].len(),
        joined(after) == joined(before).update(offset, value),
        after.take(i) == before.take(i),
        after.skip(i + pieces.len()) == before.skip(i + 1),
        before[i].len() <= 4096 ==> after.len() == before.len(),
{
    let local = offset - joined(before.take(i)).len();
    lemma_cow_joined(before[i], local, seq![value], pieces);
    lemma_joined_at(before, i);
    lemma_joined_concat(before.take(i), pieces);
    lemma_joined_concat(before.take(i) + pieces, before.skip(i + 1));
    assert(joined(after) =~= joined(before).update(offset, value));
    assert(after.take(i) =~= before.take(i));
    assert(after.skip(i + pieces.len()) =~= before.skip(i + 1));
}

/// A replacement keeps within one chunk where the range begins in that chunk and ends in it or at its
/// end, and the chunk has at most 256 bytes afterwards.
pub proof fn law_coalesces(chunks: Seq<Seq<u8>>, i: int, start: int, end: int, added: int)
    requires
        0 <= i < chunks.len(),
    ensures
        coalesces(chunks, i, start, end, added) <==> {
            &&& joined(chunks.take(i)).len() <= start
            &&& start < joined(chunks.take(i)).len() + chunks[i].len()
            &&& end <= joined(chunks.take(i)).len() + chunks[i].len()
            &&& chunks[i].len() - (end - start) + added <= 256
        },
{
}

/// A replacement within a chunk: the chunks before it and behind it stay, and in its place is what it
/// had before the range, the new bytes and what it had behind the range, or no chunk if that is
/// nothing.
pub proof fn law_coalesced(chunks: Seq<Seq<u8>>, i: int, start: int, end: int, new: Seq<u8>)
    requires
        0 <= i < chunks.len(),
        joined(chunks.take(i)).len() <= start <= end,
        end <= joined(chunks.take(i)).len() + chunks[i].len(),
    ensures
        ({
            let b = joined(chunks.take(i)).len() as int;
            let piece = chunks[i].take(start - b) + new + chunks[i].skip(end - b);
            &&& piece.len() > 0 ==> coalesced(chunks, i, start, end, new) == chunks.update(i, piece)
            &&& piece.len() == 0 ==> coalesced(chunks, i, start, end, new) == chunks.remove(i)
        }),
{
    let b = joined(chunks.take(i)).len() as int;
    let piece = chunks[i].take(start - b) + new + chunks[i].skip(end - b);
    if piece.len() > 0 {
        assert(coalesced(chunks, i, start, end, new) =~= chunks.update(i, piece));
    } else {
        assert(coalesced(chunks, i, start, end, new) =~= chunks.remove(i));
    }
}

/// Whichever way a replacement is made, the bytes outside the range are as they were and the new bytes
/// stand in its place. A replacement within a small chunk of a flat rope leaves every other chunk as
/// it is, and adds none; any other one keeps the new chunks as they are given, between what is left
/// before the range and what is left behind it.
pub proof fn law_edited_chunks(
    deep: bool,
    chunks: Seq<Seq<u8>>,
    start: int,
    end: int,
    runs: Seq<Seq<u8>>,
    after: Seq<Seq<u8>>,
    deep_after: bool,
)
    requires
        0 <= start <= end <= joined(chunks).len(),
        edited_chunks(deep, chunks, start, end, runs, after, deep_after),
    ensures
        joined(after) == joined(chunks).take(start) + joined(runs) + joined(chunks).skip(end),
        deep || !(exists|i: int|
            #[trigger] coalesces(chunks, i, start, end, joined(runs).len() as int)) ==> after
            == clipped(chunks, 0, start) + runs + clipped(chunks, end, joined(chunks).len() as int),
        deep ==> (deep_after <==> after.len() > 32),
        !deep && (exists|i: int|
            #[trigger] coalesces(chunks, i, start, end, joined(runs).len() as int)) ==> !deep_after
            && chunks.len() - 1 <= after.len() <= chunks.len(),
        !deep && !(exists|i: int|
            #[trigger] coalesces(chunks, i, start, end, joined(runs).len() as int)) ==> (deep_after
            <==> after.len() >= 64),
{
    let new = joined(runs);
    if !deep && exists|i: int| #[trigger] coalesces(chunks, i, start, end, new.len() as int) {
        let i = choose|i: int|
            {
                &&& #[trigger] coalesces(chunks, i, start, end, new.len() as int)
                &&& after == coalesced(chunks, i, start, end, new)
            };
        let before = joined(chunks.take(i)).len() as int;
        let piece = respliced(chunks[i], start - before, end - before, new);
        lemma_joined_at(chunks, i);
        lemma_unless_empty(piece);
        lemma_joined_concat(chunks.take(i), unless_empty(piece));
        lemma_joined_concat(chunks.take(i) + unless_empty(piece), chunks.skip(i + 1));
        assert(joined(after) =~= joined(chunks).take(start) + new + joined(chunks).skip(end));
    } else {
        lemma_clipped_take(chunks, start);
        lemma_clipped_skip(chunks, end);
        let front = clipped(chunks, 0, start);
        let back = clipped(chunks, end, joined(chunks).len() as int);
        lemma_joined_concat(front, runs);
        lemma_joined_concat(front + runs, back);
    }
}

/// The chunks that a splice leaves.
pub proof fn law_spliced(chunks: Seq<Seq<u8>>, start: int, end: int, runs: Seq<Seq<u8>>)
    ensures
        spliced(chunks, start, end, runs) == clipped(chunks, 0, start) + runs + clipped(
            chunks,
            end,
            joined(chunks).len() as int,
        ),
{
}

proof fn lemma_rewritten_chunk(chunk: Seq<u8>, at: int, new: Seq<u8>, pieces: Seq<Seq<u8>>)
    requires
        rewritten_chunk(chunk, at, new, pieces),
    ensures
        joined(pieces).len() == chunk.len(),
        forall|i: int|
            0 <= i < chunk.len() ==> #[trigger] joined(pieces)[i] == if at <= i < at + new.len() {
                new[i - at]
            } else {
                chunk[i]
            },
{
    let from = if at >= 0 {
        at
    } else {
        0
    };
    let to = if at + new.len() <= chunk.len() {
        at + new.len()
    } else {
        chunk.len() as int
    };
    if from < to {
        lemma_cow_joined(chunk, from, new.subrange(from - at, to - at), pieces);
    } else {
        lemma_joined_one(chunk);
    }
}

proof fn lemma_rewritten_bytes(
    before: Seq<Seq<u8>>,
    lists: Seq<Seq<Seq<u8>>>,
    at: int,
    new: Seq<u8>,
)
    requires
        rewritten_by(before, lists, at, new),
    ensures
        joined(flattened(lists)).len() == joined(before).len(),
        forall|i: int|
            0 <= i < joined(before).len() ==> #[trigger] joined(flattened(lists))[i] == if at <= i
                < at + new.len() {
                new[i - at]
            } else {
                joined(before)[i]
            },
    decreases before.len(),
{
    if before.len() > 0 {
        let n = before.len() - 1;
        let front = before.drop_last();
        let most = lists.drop_last();
        assert forall|k: int| 0 <= k < front.len() implies rewritten_chunk(
            front[k],
            at - joined(front.take(k)).len(),
            new,
            #[trigger] most[k],
        ) by {
            assert(front.take(k) =~= before.take(k));
            assert(most[k] == lists[k]);
        }
        lemma_rewritten_bytes(front, most, at, new);
        assert(before.take(n) =~= front);
        let local = at - joined(front).len();
        assert(rewritten_chunk(before[n], at - joined(before.take(n)).len(), new, lists[n]));
        lemma_rewritten_chunk(before[n], local, new, lists[n]);
        lemma_joined_concat(flattened(most), lists[n]);
        lemma_joined_push(front, before[n]);
        assert(front.push(before[n]) =~= before);
        let whole = joined(before);
        let result = joined(flattened(lists));
        let split = joined(front).len() as int;
        assert forall|i: int| 0 <= i < whole.len() implies #[trigger] result[i] == if at <= i < at
            + new.len() {
            new[i - at]
        } else {
            whole[i]
        } by {
            if i < split {
                assert(result[i] == joined(flattened(most))[i]);
                assert(whole[i] == joined(front)[i]);
            } else {
                assert(result[i] == joined(lists[n])[i - split]);
                assert(whole[i] == before[n][i - split]);
            }
        }
    }
}

/// What an overwrite does to a chunk that begins `at` bytes before it: nothing where the two do not
/// meet, and otherwise the part that lies in the chunk is written there.
pub proof fn law_rewritten_chunk(chunk: Seq<u8>, at: int, new: Seq<u8>, pieces: Seq<Seq<u8>>)
    requires
        rewritten_chunk(chunk, at, new, pieces),
    ensures
        at >= chunk.len() || at + new.len() <= 0 || new.len() == 0 || chunk.len() == 0 ==> pieces
            == seq![chunk],
        0 <= at && 0 < new.len() && at + new.len() <= chunk.len() ==> cow_pieces(
            chunk,
            at,
            new,
            pieces,
        ),
        at < 0 && 0 < at + new.len() <= chunk.len() ==> cow_pieces(chunk, 0, new.skip(-at), pieces),
        0 <= at < chunk.len() && at + new.len() > chunk.len() ==> cow_pieces(
            chunk,
            at,
            new.take(chunk.len() - at),
            pieces,
        ),
        at < 0 && 0 < chunk.len() < at + new.len() ==> cow_pieces(
            chunk,
            0,
            new.subrange(-at, chunk.len() - at),
            pieces,
        ),
{
    assert(new.subrange(0, new.len() as int) =~= new);
    if at < 0 && 0 < at + new.len() <= chunk.len() {
        assert(new.subrange(-at, new.len() as int) =~= new.skip(-at));
    }
    if 0 <= at < chunk.len() && at + new.len() > chunk.len() {
        assert(new.subrange(0, chunk.len() - at) =~= new.take(chunk.len() - at));
    }
}

/// An overwrite changes the bytes from `at` on to the new ones and no other byte, and none of them
/// moves, however the chunks are cut by it.
pub proof fn law_overwrite_changes_its_bytes(
    before: Seq<Seq<u8>>,
    after: Seq<Seq<u8>>,
    at: int,
    new: Seq<u8>,
)
    requires
        rewritten(before, after, at, new),
    ensures
        joined(after).len() == joined(before).len(),
        forall|i: int|
            0 <= i < joined(before).len() ==> #[trigger] joined(after)[i] == if at <= i < at
                + new.len() {
                new[i - at]
            } else {
                joined(before)[i]
            },
{
    reveal(rewritten);
    let lists = choose|lists: Seq<Seq<Seq<u8>>>|
        #[trigger] rewritten_by(before, lists, at, new) && after == flattened(lists);
    lemma_rewritten_bytes(before, lists, at, new);
}

} // verus!
