//! Lists of byte chunks and the bytes they spell when they are read in order.

use bytes::Bytes;

use vstd::prelude::*;

use crate::shared::contents;

verus! {

/// The bytes of each chunk in a list.
pub open spec fn chunk_views(chunks: Seq<Bytes>) -> Seq<Seq<u8>> {
    Seq::new(chunks.len(), |i: int| contents(chunks[i]))
}

/// The bytes of all chunks, one chunk after the other.
pub open spec fn joined(chunks: Seq<Seq<u8>>) -> Seq<u8>
    decreases chunks.len(),
{
    if chunks.len() == 0 {
        Seq::empty()
    } else {
        joined(chunks.drop_last()) + chunks.last()
    }
}

/// No chunk of the list is empty.
pub open spec fn none_empty(chunks: Seq<Seq<u8>>) -> bool {
    forall|i: int| 0 <= i < chunks.len() ==> (#[trigger] chunks[i]).len() > 0
}

/// A list with one chunk spells that chunk.
pub proof fn lemma_joined_one(chunk: Seq<u8>)
    ensures
        joined(seq![chunk]) == chunk,
{
    reveal_with_fuel(joined, 2);
    assert(seq![chunk].drop_last() =~= Seq::<Seq<u8>>::empty());
    assert(joined(seq![chunk]) =~= chunk);
}

/// A chunk at the back adds its bytes at the back.
pub proof fn lemma_joined_push(chunks: Seq<Seq<u8>>, chunk: Seq<u8>)
    ensures
        joined(chunks.push(chunk)) == joined(chunks) + chunk,
{
    assert(chunks.push(chunk).drop_last() =~= chunks);
}

/// Two lists in a row spell what the first spells, then what the second spells.
pub proof fn lemma_joined_concat(a: Seq<Seq<u8>>, b: Seq<Seq<u8>>)
    ensures
        joined(a + b) == joined(a) + joined(b),
    decreases b.len(),
{
    if b.len() == 0 {
        assert(a + b =~= a);
        assert(joined(a) + joined(b) =~= joined(a));
    } else {
        lemma_joined_concat(a, b.drop_last());
        assert((a + b).drop_last() =~= a + b.drop_last());
        assert(joined(a) + (joined(b.drop_last()) + b.last()) =~= joined(a) + joined(b.drop_last())
            + b.last());
    }
}

/// Cutting a list in two cuts what it spells in two.
pub proof fn lemma_joined_cut(chunks: Seq<Seq<u8>>, at: int)
    requires
        0 <= at <= chunks.len(),
    ensures
        joined(chunks) == joined(chunks.take(at)) + joined(chunks.skip(at)),
{
    lemma_joined_concat(chunks.take(at), chunks.skip(at));
    assert(chunks.take(at) + chunks.skip(at) =~= chunks);
}

/// What the first `at + 1` chunks spell: the first `at`, then the next one.
pub proof fn lemma_joined_step(chunks: Seq<Seq<u8>>, at: int)
    requires
        0 <= at < chunks.len(),
    ensures
        joined(chunks.take(at + 1)) == joined(chunks.take(at)) + chunks[at],
        joined(chunks.take(at)).len() + chunks[at].len() <= joined(chunks).len(),
{
    assert(chunks.take(at + 1).drop_last() =~= chunks.take(at));
    lemma_joined_cut(chunks, at + 1);
}

/// The bytes of one chunk, as a part of what the list spells.
pub proof fn lemma_joined_at(chunks: Seq<Seq<u8>>, at: int)
    requires
        0 <= at < chunks.len(),
    ensures
        joined(chunks) == joined(chunks.take(at)) + chunks[at] + joined(chunks.skip(at + 1)),
{
    lemma_joined_step(chunks, at);
    lemma_joined_cut(chunks, at + 1);
}

/// Lists with chunk counts: without empty chunks there are no more chunks than bytes.
pub proof fn lemma_joined_count(chunks: Seq<Seq<u8>>)
    requires
        none_empty(chunks),
    ensures
        chunks.len() <= joined(chunks).len(),
    decreases chunks.len(),
{
    if chunks.len() > 0 {
        assert forall|i: int| 0 <= i < chunks.drop_last().len() implies (
        #[trigger] chunks.drop_last()[i]).len() > 0 by {
            assert(chunks.drop_last()[i] == chunks[i]);
        }
        lemma_joined_count(chunks.drop_last());
        assert(chunks[chunks.len() - 1].len() > 0);
    }
}

/// Two lists without empty chunks make one.
pub proof fn lemma_none_empty_concat(a: Seq<Seq<u8>>, b: Seq<Seq<u8>>)
    ensures
        none_empty(a + b) == (none_empty(a) && none_empty(b)),
{
    if none_empty(a + b) {
        assert forall|i: int| 0 <= i < a.len() implies (#[trigger] a[i]).len() > 0 by {
            assert((a + b)[i] == a[i]);
        }
        assert forall|i: int| 0 <= i < b.len() implies (#[trigger] b[i]).len() > 0 by {
            assert((a + b)[a.len() + i] == b[i]);
        }
    }
}

/// The smaller of two positions.
pub open spec fn least(a: int, b: int) -> int {
    if a <= b {
        a
    } else {
        b
    }
}

/// How far `a` lies behind `b`, or zero if it lies before it.
pub open spec fn beyond(a: int, b: int) -> int {
    if a > b {
        a - b
    } else {
        0
    }
}

/// The part of each chunk that lies between the offsets `start` and `end`. Chunks with nothing
/// there are left out.
pub open spec fn clipped(chunks: Seq<Seq<u8>>, start: int, end: int) -> Seq<Seq<u8>>
    decreases chunks.len(),
{
    if chunks.len() == 0 || start >= end {
        Seq::empty()
    } else {
        let last = chunks.last();
        let before = joined(chunks.drop_last()).len() as int;
        let front = clipped(chunks.drop_last(), start, least(end, before));
        let from = beyond(start, before);
        let to = least(end - before, last.len() as int);
        if from < to {
            front.push(last.subrange(from, to))
        } else {
            front
        }
    }
}

/// Offsets behind the last byte stand for the end.
pub proof fn lemma_clipped_past(chunks: Seq<Seq<u8>>, start: int, end: int)
    requires
        0 <= start,
    ensures
        clipped(chunks, start, end) == clipped(
            chunks,
            least(start, joined(chunks).len() as int),
            least(end, joined(chunks).len() as int),
        ),
{
    if chunks.len() > 0 && start < end {
        let front = chunks.drop_last();
        let before = joined(front).len() as int;
        let total = joined(chunks).len() as int;
        assert(total == before + chunks.last().len());
        if start >= total {
            assert(clipped(front, start, least(end, before)) =~= Seq::<Seq<u8>>::empty());
            assert(clipped(chunks, start, end) =~= Seq::<Seq<u8>>::empty());
        } else {
            let to = least(end, total);
            assert(least(to, before) == least(end, before));
            assert(least(to - before, chunks.last().len() as int) == least(
                end - before,
                chunks.last().len() as int,
            ));
            assert(clipped(chunks, start, end) =~= clipped(chunks, start, to));
        }
    }
}

/// Clipping two lists in a row clips each of them.
pub proof fn lemma_clipped_concat(a: Seq<Seq<u8>>, b: Seq<Seq<u8>>, start: int, end: int)
    requires
        0 <= start,
    ensures
        clipped(a + b, start, end) == clipped(a, start, end) + clipped(
            b,
            beyond(start, joined(a).len() as int),
            beyond(end, joined(a).len() as int),
        ),
    decreases b.len(),
{
    let len = joined(a).len() as int;
    if start >= end {
        assert(clipped(a + b, start, end) =~= Seq::<Seq<u8>>::empty());
    } else if b.len() == 0 {
        assert(a + b =~= a);
    } else {
        let rest = b.drop_last();
        let before = joined(rest).len() as int;
        assert((a + b).drop_last() =~= a + rest);
        lemma_joined_concat(a, rest);
        let to = least(end, len + before);
        lemma_clipped_concat(a, rest, start, to);
        lemma_clipped_past(a, start, end);
        lemma_clipped_past(a, start, to);
        let left = clipped(a, start, end);
        let right = clipped(rest, beyond(start, len), beyond(to, len));
        assert(clipped(a + rest, start, to) == left + right);
        if beyond(start, len) < beyond(end, len) {
            assert(beyond(to, len) == least(beyond(end, len), before));
        } else {
            assert(right =~= Seq::<Seq<u8>>::empty());
        }
        assert(clipped(a + b, start, end) =~= left + clipped(
            b,
            beyond(start, len),
            beyond(end, len),
        ));
    }
}

/// Clipping a list with one more chunk at the back.
pub proof fn lemma_clipped_push(chunks: Seq<Seq<u8>>, chunk: Seq<u8>, start: int, end: int)
    requires
        0 <= start,
    ensures
        ({
            let before = joined(chunks).len() as int;
            let from = beyond(start, before);
            let to = least(end - before, chunk.len() as int);
            clipped(chunks.push(chunk), start, end) == if from < to {
                clipped(chunks, start, end).push(chunk.subrange(from, to))
            } else {
                clipped(chunks, start, end)
            }
        }),
{
    assert(chunks.push(chunk).drop_last() =~= chunks);
    lemma_clipped_past(chunks, start, end);
    lemma_clipped_past(chunks, start, least(end, joined(chunks).len() as int));
}

/// Clipping from the first byte to the last changes nothing.
pub proof fn lemma_clipped_whole(chunks: Seq<Seq<u8>>)
    requires
        none_empty(chunks),
    ensures
        clipped(chunks, 0, joined(chunks).len() as int) == chunks,
    decreases chunks.len(),
{
    if chunks.len() == 0 {
        assert(clipped(chunks, 0, 0) =~= chunks);
    } else {
        let front = chunks.drop_last();
        assert forall|i: int| 0 <= i < front.len() implies (#[trigger] front[i]).len() > 0 by {
            assert(front[i] == chunks[i]);
        }
        lemma_clipped_whole(front);
        assert(chunks[chunks.len() - 1].len() > 0);
        assert(chunks.last().subrange(0, chunks.last().len() as int) =~= chunks.last());
        assert(front.push(chunks.last()) =~= chunks);
    }
}

/// What a clipped list spells.
pub proof fn lemma_clipped_joined(chunks: Seq<Seq<u8>>, start: int, end: int)
    requires
        0 <= start <= end <= joined(chunks).len(),
    ensures
        joined(clipped(chunks, start, end)) == joined(chunks).subrange(start, end),
    decreases chunks.len(),
{
    let whole = joined(chunks);
    if start == end {
        assert(whole.subrange(start, end) =~= Seq::<u8>::empty());
    } else {
        let rest = chunks.drop_last();
        let last = chunks.last();
        let before = joined(rest).len() as int;
        if start <= before {
            lemma_clipped_joined(rest, start, least(end, before));
        }
        let front = clipped(rest, start, least(end, before));
        if end > before {
            let part = last.subrange(beyond(start, before), least(end - before, last.len() as int));
            lemma_joined_push(front, part);
            assert(joined(front) + part =~= whole.subrange(start, end));
        } else {
            assert(joined(front) =~= whole.subrange(start, end));
        }
    }
}

/// What the front of a list spells.
pub proof fn lemma_clipped_take(chunks: Seq<Seq<u8>>, at: int)
    requires
        0 <= at <= joined(chunks).len(),
    ensures
        joined(clipped(chunks, 0, at)) == joined(chunks).take(at),
{
    lemma_clipped_joined(chunks, 0, at);
}

/// What the back of a list spells.
pub proof fn lemma_clipped_skip(chunks: Seq<Seq<u8>>, at: int)
    requires
        0 <= at <= joined(chunks).len(),
    ensures
        joined(clipped(chunks, at, joined(chunks).len() as int)) == joined(chunks).skip(at),
{
    lemma_clipped_joined(chunks, at, joined(chunks).len() as int);
}

/// A clipped list has no empty chunks.
pub proof fn lemma_clipped_full(chunks: Seq<Seq<u8>>, start: int, end: int)
    requires
        0 <= start,
    ensures
        none_empty(clipped(chunks, start, end)),
        clipped(chunks, start, end).len() <= chunks.len(),
    decreases chunks.len(),
{
    if chunks.len() > 0 && start < end {
        let front = chunks.drop_last();
        lemma_clipped_full(front, start, least(end, joined(front).len() as int));
    }
}

/// Cutting a list behind its first `at` chunks cuts the other chunks.
pub proof fn lemma_clipped_drop(chunks: Seq<Seq<u8>>, at: int, local: int)
    requires
        none_empty(chunks),
        0 <= at <= chunks.len(),
        0 <= local <= joined(chunks.skip(at)).len(),
    ensures
        joined(chunks).len() == joined(chunks.take(at)).len() + joined(chunks.skip(at)).len(),
        clipped(chunks.skip(at), local, joined(chunks.skip(at)).len() as int) == clipped(
            chunks,
            joined(chunks.take(at)).len() + local,
            joined(chunks).len() as int,
        ),
{
    let front = chunks.take(at);
    let own = chunks.skip(at);
    let none = Seq::<Seq<u8>>::empty();
    assert(front + own + none =~= chunks);
    assert(front + own =~= chunks);
    lemma_none_empty_concat(front, own);
    lemma_joined_cut(chunks, at);
    lemma_clipped_between(front, own, none, local);
    let rest = clipped(own, local, joined(own).len() as int);
    assert(rest + none =~= rest);
}

/// The chunks that are not empty.
pub open spec fn solid(chunks: Seq<Seq<u8>>) -> Seq<Seq<u8>> {
    chunks.filter(|chunk: Seq<u8>| chunk.len() > 0)
}

/// Clipping from the first byte to the last leaves out the empty chunks.
proof fn lemma_solid_clipped(chunks: Seq<Seq<u8>>)
    ensures
        solid(chunks) == clipped(chunks, 0, joined(chunks).len() as int),
    decreases chunks.len(),
{
    reveal(Seq::filter);
    if chunks.len() > 0 {
        let front = chunks.drop_last();
        let last = chunks.last();
        let len = joined(chunks).len() as int;
        lemma_solid_clipped(front);
        assert(front.push(last) =~= chunks);
        lemma_clipped_push(front, last, 0, len);
        lemma_clipped_past(front, 0, len);
        assert(last.subrange(0, last.len() as int) =~= last);
    }
}

/// Leaving out the empty chunks leaves out no byte, and nothing at all where no chunk is empty.
pub proof fn lemma_solid(chunks: Seq<Seq<u8>>)
    ensures
        none_empty(solid(chunks)),
        joined(solid(chunks)) == joined(chunks),
        none_empty(chunks) ==> solid(chunks) == chunks,
{
    let len = joined(chunks).len() as int;
    lemma_solid_clipped(chunks);
    lemma_clipped_full(chunks, 0, len);
    lemma_clipped_joined(chunks, 0, len);
    assert(joined(chunks).subrange(0, len) =~= joined(chunks));
    if none_empty(chunks) {
        lemma_clipped_whole(chunks);
    }
}

/// The chunks of two lists in a row that are not empty.
pub proof fn lemma_solid_concat(a: Seq<Seq<u8>>, b: Seq<Seq<u8>>)
    ensures
        solid(a + b) == solid(a) + solid(b),
{
    lemma_solid_clipped(a);
    lemma_solid_clipped(b);
    lemma_solid_clipped(a + b);
    lemma_joined_concat(a, b);
    let len = joined(a + b).len() as int;
    lemma_clipped_concat(a, b, 0, len);
    lemma_clipped_past(a, 0, len);
}

/// A list of one chunk has that chunk, unless it is empty.
pub proof fn lemma_solid_one(chunk: Seq<u8>)
    ensures
        joined(seq![chunk]) == chunk,
        solid(seq![chunk]) == if chunk.len() == 0 {
            Seq::empty()
        } else {
            seq![chunk]
        },
{
    lemma_solid_clipped(seq![chunk]);
    lemma_joined_one(chunk);
    if chunk.len() > 0 {
        lemma_clipped_one(chunk, 0, chunk.len() as int);
        assert(chunk.subrange(0, chunk.len() as int) =~= chunk);
    }
}

/// The first chunk, cut off after `most` bytes if it is longer; nothing if there are no chunks.
pub open spec fn front_piece(chunks: Seq<Seq<u8>>, most: int) -> Seq<u8> {
    if chunks.len() == 0 {
        Seq::empty()
    } else if chunks[0].len() <= most {
        chunks[0]
    } else {
        chunks[0].take(most)
    }
}

/// Clipping a list of one chunk.
pub proof fn lemma_clipped_one(chunk: Seq<u8>, start: int, end: int)
    requires
        0 <= start < end <= chunk.len(),
    ensures
        clipped(seq![chunk], start, end) == seq![chunk.subrange(start, end)],
{
    reveal_with_fuel(clipped, 2);
    assert(seq![chunk].drop_last() =~= Seq::<Seq<u8>>::empty());
    assert(clipped(seq![chunk], start, end) =~= seq![chunk.subrange(start, end)]);
}

/// Once the first chunks reach as far as `end`, the others add nothing.
pub proof fn lemma_clipped_reached(chunks: Seq<Seq<u8>>, at: int, start: int, end: int)
    requires
        0 <= start,
        0 <= at <= chunks.len(),
        at == chunks.len() || joined(chunks.take(at)).len() >= end,
    ensures
        clipped(chunks, start, end) == clipped(chunks.take(at), start, end),
{
    if at == chunks.len() {
        assert(chunks.take(at) =~= chunks);
    } else {
        assert(chunks.take(at) + chunks.skip(at) =~= chunks);
        lemma_clipped_concat(chunks.take(at), chunks.skip(at), start, end);
        assert(clipped(chunks, start, end) =~= clipped(chunks.take(at), start, end));
    }
}

/// Cutting three lists in a row at the offset `local` of the middle one.
pub proof fn lemma_clipped_between(
    front: Seq<Seq<u8>>,
    own: Seq<Seq<u8>>,
    back: Seq<Seq<u8>>,
    local: int,
)
    requires
        0 <= local <= joined(own).len(),
        none_empty(front),
        none_empty(back),
    ensures
        ({
            let list = front + own + back;
            let at = joined(front).len() + local;
            &&& clipped(list, 0, at) == front + clipped(own, 0, local)
            &&& clipped(list, at, joined(list).len() as int) == clipped(
                own,
                local,
                joined(own).len() as int,
            ) + back
        }),
{
    let list = front + own + back;
    let at = joined(front).len() + local;
    let len = joined(list).len() as int;
    lemma_joined_concat(front, own);
    lemma_joined_concat(front + own, back);
    lemma_clipped_whole(front);
    lemma_clipped_whole(back);
    lemma_clipped_concat(front + own, back, 0, at);
    lemma_clipped_concat(front, own, 0, at);
    lemma_clipped_past(front, 0, at);
    assert(clipped(list, 0, at) =~= front + clipped(own, 0, local));
    lemma_clipped_concat(front + own, back, at, len);
    lemma_clipped_concat(front, own, at, len);
    lemma_clipped_past(front, at, len);
    lemma_clipped_past(own, local, len - joined(front).len());
    assert(clipped(list, at, len) =~= clipped(own, local, joined(own).len() as int) + back);
}

/// Cutting a list at `at`, told by its first chunk and the others.
pub proof fn lemma_clipped_first(chunk: Seq<u8>, rest: Seq<Seq<u8>>, at: int)
    requires
        0 <= at <= chunk.len() + joined(rest).len(),
        chunk.len() > 0,
        none_empty(rest),
    ensures
        ({
            let list = seq![chunk] + rest;
            let len = joined(list).len() as int;
            &&& len == chunk.len() + joined(rest).len()
            &&& at >= chunk.len() ==> {
                &&& clipped(list, 0, at) == seq![chunk] + clipped(rest, 0, at - chunk.len())
                &&& clipped(list, at, len) == clipped(
                    rest,
                    at - chunk.len(),
                    joined(rest).len() as int,
                )
            }
            &&& 0 < at < chunk.len() ==> {
                &&& clipped(list, 0, at) == seq![chunk.take(at)]
                &&& clipped(list, at, len) == seq![chunk.skip(at)] + rest
            }
        }),
{
    let one = seq![chunk];
    let list = one + rest;
    lemma_joined_concat(one, rest);
    lemma_joined_one(chunk);
    let len = joined(list).len() as int;
    let first = chunk.len() as int;
    lemma_clipped_concat(one, rest, 0, at);
    lemma_clipped_concat(one, rest, at, len);
    lemma_clipped_past(one, 0, at);
    lemma_clipped_past(one, at, len);
    lemma_clipped_whole(rest);
    if at >= first {
        lemma_clipped_one(chunk, 0, first);
        assert(chunk.subrange(0, first) =~= chunk);
        assert(clipped(list, at, len) =~= clipped(rest, at - first, joined(rest).len() as int));
    } else if 0 < at {
        lemma_clipped_one(chunk, 0, at);
        lemma_clipped_one(chunk, at, first);
        assert(chunk.subrange(0, at) =~= chunk.take(at));
        assert(chunk.subrange(at, first) =~= chunk.skip(at));
        assert(clipped(list, 0, at) =~= seq![chunk.take(at)]);
    }
}

/// Dropping `count` bytes at the back of a list, told by its last chunk and the others.
pub proof fn lemma_clipped_last(front: Seq<Seq<u8>>, chunk: Seq<u8>, count: int)
    requires
        0 <= count <= joined(front).len() + chunk.len(),
        none_empty(front),
    ensures
        ({
            let list = front.push(chunk);
            let len = joined(list).len() as int;
            &&& len == joined(front).len() + chunk.len()
            &&& count >= chunk.len() ==> clipped(list, 0, len - count) == clipped(
                front,
                0,
                joined(front).len() - (count - chunk.len()),
            )
            &&& 0 <= count < chunk.len() ==> clipped(list, 0, len - count) == front.push(
                chunk.take(chunk.len() - count),
            )
        }),
{
    lemma_joined_push(front, chunk);
    let len = joined(front.push(chunk)).len() as int;
    lemma_clipped_push(front, chunk, 0, len - count);
    lemma_clipped_past(front, 0, len - count);
    lemma_clipped_whole(front);
    if count < chunk.len() {
        assert(chunk.subrange(0, chunk.len() - count) =~= chunk.take(chunk.len() - count));
    }
}

/// Clipping a list that was clipped before.
pub proof fn lemma_clipped_twice(chunks: Seq<Seq<u8>>, start: int, end: int, from: int, to: int)
    requires
        0 <= start <= end <= joined(chunks).len(),
        0 <= from <= to <= end - start,
    ensures
        clipped(clipped(chunks, start, end), from, to) == clipped(chunks, start + from, start + to),
    decreases chunks.len(),
{
    if chunks.len() > 0 {
        let front = chunks.drop_last();
        let last = chunks.last();
        let before = joined(front).len() as int;
        assert(front.push(last) =~= chunks);
        lemma_joined_push(front, last);
        let low = least(start, before);
        let high = least(end, before);
        let part = clipped(front, start, end);
        lemma_clipped_past(front, start, end);
        lemma_clipped_joined(front, low, high);
        let len = high - low;
        assert(joined(part).len() == len);
        lemma_clipped_past(part, from, to);
        lemma_clipped_twice(front, low, high, least(from, len), least(to, len));
        lemma_clipped_past(front, start + from, start + to);
        lemma_clipped_past(front, low + least(from, len), low + least(to, len));
        assert(clipped(part, from, to) =~= clipped(front, start + from, start + to));
        lemma_clipped_push(front, last, start, end);
        lemma_clipped_push(front, last, start + from, start + to);
        let a = beyond(start, before);
        let b = least(end - before, last.len() as int);
        if a < b {
            lemma_clipped_push(part, last.subrange(a, b), from, to);
            let x = beyond(from, len);
            let y = least(to - len, b - a);
            if x < y {
                assert(last.subrange(a, b).subrange(x, y) =~= last.subrange(a + x, a + y));
            }
        }
    }
}

/// The chunk list of two chunk sequences in a row.
pub proof fn lemma_views_concat(a: Seq<Bytes>, b: Seq<Bytes>)
    ensures
        chunk_views(a + b) == chunk_views(a) + chunk_views(b),
{
    assert(chunk_views(a + b) =~= chunk_views(a) + chunk_views(b));
}

/// The chunk list of a sequence with one more chunk.
pub proof fn lemma_views_push(a: Seq<Bytes>, chunk: Bytes)
    ensures
        chunk_views(a.push(chunk)) == chunk_views(a).push(contents(chunk)),
{
    assert(chunk_views(a.push(chunk)) =~= chunk_views(a).push(contents(chunk)));
}

/// No chunks spell nothing, and a chunk at the back adds its bytes at the back.
pub proof fn law_joined(chunks: Seq<Seq<u8>>, chunk: Seq<u8>)
    ensures
        joined(Seq::<Seq<u8>>::empty()) == Seq::<u8>::empty(),
        joined(chunks.push(chunk)) == joined(chunks) + chunk,
        none_empty(chunks) <==> !(exists|i: int|
            0 <= i < chunks.len() && #[trigger] chunks[i] == Seq::<u8>::empty()),
{
    lemma_joined_push(chunks, chunk);
    if none_empty(chunks) {
        assert forall|i: int| 0 <= i < chunks.len() implies #[trigger] chunks[i]
            != Seq::<u8>::empty() by {
            assert(chunks[i].len() > 0);
        }
    }
    assert forall|i: int| 0 <= i < chunks.len() && chunks[i].len() == 0 implies #[trigger] chunks[i]
        == Seq::<u8>::empty() by {
        assert(chunks[i] =~= Seq::<u8>::empty());
    }
}

/// The bytes of a list of chunks, chunk by chunk.
pub proof fn law_chunk_views(chunks: Seq<Bytes>)
    ensures
        chunk_views(chunks).len() == chunks.len(),
        forall|i: int|
            0 <= i < chunks.len() ==> #[trigger] chunk_views(chunks)[i] == contents(chunks[i]),
{
}

/// Leaving out the empty chunks: another chunk at the back stays exactly where it has bytes.
pub proof fn law_solid(chunks: Seq<Seq<u8>>, chunk: Seq<u8>)
    ensures
        solid(Seq::<Seq<u8>>::empty()) == Seq::<Seq<u8>>::empty(),
        chunk.len() == 0 ==> solid(chunks.push(chunk)) == solid(chunks),
        chunk.len() > 0 ==> solid(chunks.push(chunk)) == solid(chunks).push(chunk),
{
    lemma_solid(Seq::<Seq<u8>>::empty());
    assert(chunks.push(chunk) =~= chunks + seq![chunk]);
    lemma_solid_concat(chunks, seq![chunk]);
    lemma_solid_one(chunk);
    if chunk.len() == 0 {
        assert(solid(chunks) + Seq::<Seq<u8>>::empty() =~= solid(chunks));
    } else {
        assert(solid(chunks) + seq![chunk] =~= solid(chunks).push(chunk));
    }
}

/// Cutting a list of chunks between two offsets, by what the last chunk keeps: nothing where the range
/// ends before it, the range alone where it begins in it, and otherwise its front behind what the
/// chunks before it keep. An empty range keeps nothing.
pub proof fn law_clip(chunks: Seq<Seq<u8>>, chunk: Seq<u8>, start: int, end: int)
    requires
        0 <= start <= end <= joined(chunks).len() + chunk.len(),
    ensures
        ({
            let b = joined(chunks).len() as int;
            let cut = clipped(chunks.push(chunk), start, end);
            &&& start == end ==> cut == Seq::<Seq<u8>>::empty()
            &&& start < end <= b ==> cut == clipped(chunks, start, end)
            &&& b <= start < end ==> cut == seq![chunk.subrange(start - b, end - b)]
            &&& start < b < end ==> cut == clipped(chunks, start, b).push(
                chunk.subrange(0, end - b),
            )
        }),
{
    let b = joined(chunks).len() as int;
    lemma_clipped_push(chunks, chunk, start, end);
    lemma_clipped_past(chunks, start, end);
    if b <= start < end {
        lemma_clipped_past(chunks, start, end);
        assert(clipped(chunks, b, b) =~= Seq::<Seq<u8>>::empty());
        assert(clipped(chunks, start, end).push(chunk.subrange(start - b, end - b)) =~= seq![
            chunk.subrange(start - b, end - b),
        ]);
    }
}

/// The front of the first chunk, as far as `most` bytes go.
pub proof fn law_front_piece(chunks: Seq<Seq<u8>>, most: int)
    requires
        0 <= most,
    ensures
        chunks.len() == 0 ==> front_piece(chunks, most) == Seq::<u8>::empty(),
        chunks.len() > 0 && chunks[0].len() <= most ==> front_piece(chunks, most) == chunks[0],
        chunks.len() > 0 && chunks[0].len() > most ==> front_piece(chunks, most)
            == chunks[0].subrange(0, most),
{
}

/// The smaller of two positions, and how far one lies behind another.
pub proof fn law_positions(a: int, b: int)
    ensures
        least(a, b) <= a && least(a, b) <= b && (least(a, b) == a || least(a, b) == b),
        a <= b ==> beyond(a, b) == 0,
        a >= b ==> b + beyond(a, b) == a,
{
}

} // verus!
