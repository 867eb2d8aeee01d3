//! What holds of ropes across operations.
//!
//! Each law is stated over the bytes and the chunk lists that the contracts of the operations speak
//! of.

use vstd::prelude::*;

use crate::chunks::clipped;
use crate::chunks::joined;
use crate::chunks::lemma_clipped_between;
use crate::chunks::lemma_clipped_full;
use crate::chunks::lemma_clipped_past;
use crate::chunks::lemma_clipped_push;
use crate::chunks::lemma_clipped_twice;
use crate::chunks::lemma_joined_at;
use crate::chunks::lemma_joined_concat;
use crate::chunks::lemma_joined_one;
use crate::chunks::lemma_joined_push;
use crate::chunks::lemma_none_empty_concat;
use crate::chunks::lemma_solid;
use crate::chunks::none_empty;
use crate::chunks::solid;
use crate::rope::builder::big_endian;
use crate::rope::builder::flushed;
use crate::rope::builder::framed;
use crate::rope::builder::Behavior;
use crate::rope::builder::Builder;
use crate::rope::byte_rope::ByteRope;
use crate::rope::replace::respliced;

verus! {

/// `split_to`, then `append` of the second half to the first: the bytes are those of the rope that
/// was split.
pub proof fn law_split_then_append(rope: ByteRope, at: int, front: ByteRope, rest: ByteRope)
    requires
        0 <= at <= rope@.len(),
        front@ == rope@.take(at),
        rest@ == rope@.skip(at),
    ensures
        front@ + rest@ == rope@,
        front@.len() + rest@.len() == rope@.len(),
{
    assert(front@ + rest@ =~= rope@);
}

/// `append`, then `split_to` where the two ropes met: each half has the bytes that it had.
pub proof fn law_append_then_split(first: ByteRope, second: ByteRope, whole: ByteRope)
    requires
        whole@ == first@ + second@,
    ensures
        whole@.take(first@.len() as int) == first@,
        whole@.skip(first@.len() as int) == second@,
{
    assert(whole@.take(first@.len() as int) =~= first@);
    assert(whole@.skip(first@.len() as int) =~= second@);
}

/// A pop at the end where a chunk was pushed returns that chunk and leaves the chunks from before
/// the push.
pub proof fn law_pop_undoes_push(before: Seq<Seq<u8>>, pushed: Seq<u8>, popped: Seq<u8>, after: Seq<Seq<u8>>)
    ensures
        before.push(pushed) == after.push(popped) ==> popped == pushed && after == before,
        seq![pushed] + before == seq![popped] + after ==> popped == pushed && after == before,
{
    if before.push(pushed) == after.push(popped) {
        assert(before.push(pushed).drop_last() =~= before);
        assert(after.push(popped).drop_last() =~= after);
        assert(before.push(pushed).last() == pushed);
        assert(after.push(popped).last() == popped);
    }
    if seq![pushed] + before == seq![popped] + after {
        assert((seq![pushed] + before)[0] == pushed);
        assert((seq![popped] + after)[0] == popped);
        assert((seq![pushed] + before).skip(1) =~= before);
        assert((seq![popped] + after).skip(1) =~= after);
    }
}

/// `slice(start..end)` has the bytes that are left after `truncate(end)` and `advance(start)`, in
/// either order.
pub proof fn law_slice_is_truncate_and_advance(whole: Seq<u8>, start: int, end: int)
    requires
        0 <= start <= end <= whole.len(),
    ensures
        whole.take(end).skip(start) == whole.subrange(start, end),
        whole.skip(start).take(end - start) == whole.subrange(start, end),
{
    assert(whole.take(end).skip(start) =~= whole.subrange(start, end));
    assert(whole.skip(start).take(end - start) =~= whole.subrange(start, end));
}

/// A slice of a slice is a slice of the rope, down to its chunks. With `truncate` and `advance`,
/// whose results are slices up to the end and from the start, the same holds.
pub proof fn law_slices_compose(chunks: Seq<Seq<u8>>, start: int, end: int, from: int, to: int)
    requires
        0 <= start <= end <= joined(chunks).len(),
        0 <= from <= to <= end - start,
    ensures
        clipped(clipped(chunks, start, end), from, to) == clipped(chunks, start + from, start + to),
{
    lemma_clipped_twice(chunks, start, end, from, to);
}

/// `split_to` where one chunk ends and the next begins: no chunk is cut. So `append`, then `split_to`
/// where the two ropes met, gives each rope its chunks back.
pub proof fn law_split_between_chunks(front: Seq<Seq<u8>>, back: Seq<Seq<u8>>)
    requires
        none_empty(front),
        none_empty(back),
    ensures
        ({
            let whole = front + back;
            let at = joined(front).len() as int;
            &&& clipped(whole, 0, at) == front
            &&& clipped(whole, at, joined(whole).len() as int) == back
        }),
{
    let none = Seq::<Seq<u8>>::empty();
    assert(front + none =~= front);
    lemma_clipped_between(front, none, back, 0);
    assert(none + back =~= back);
}

/// `split_to` cuts at most one chunk in two.
pub proof fn law_split_cuts_one_chunk(chunks: Seq<Seq<u8>>, at: int)
    requires
        none_empty(chunks),
        0 <= at <= joined(chunks).len(),
    ensures
        clipped(chunks, 0, at).len() + clipped(chunks, at, joined(chunks).len() as int).len()
            <= chunks.len() + 1,
    decreases chunks.len(),
{
    if chunks.len() > 0 {
        let front = chunks.drop_last();
        let last = chunks.last();
        let before = joined(front).len() as int;
        let len = joined(chunks).len() as int;
        assert(front.push(last) =~= chunks);
        lemma_joined_push(front, last);
        lemma_none_empty_concat(front, seq![last]);
        assert(front + seq![last] =~= chunks);
        lemma_clipped_push(front, last, 0, at);
        lemma_clipped_push(front, last, at, len);
        lemma_clipped_past(front, 0, at);
        lemma_clipped_past(front, at, len);
        lemma_clipped_full(front, 0, before);
        if at <= before {
            law_split_cuts_one_chunk(front, at);
        }
    }
}

/// Two calls of `advance` drop what one call with the sum drops.
pub proof fn law_advance_adds_up(whole: Seq<u8>, first: int, second: int)
    requires
        0 <= first,
        0 <= second,
        first + second <= whole.len(),
    ensures
        whole.skip(first).skip(second) == whole.skip(first + second),
{
    assert(whole.skip(first).skip(second) =~= whole.skip(first + second));
}

/// `replace` is a split at both ends of the range, with the new bytes joined in between. It leaves
/// every byte outside the range as it was, and putting the old bytes back undoes it.
pub proof fn law_replace(whole: Seq<u8>, start: int, end: int, new: Seq<u8>)
    requires
        0 <= start <= end <= whole.len(),
    ensures
        respliced(whole, start, end, new) == whole.take(start) + new + whole.skip(end),
        respliced(whole, start, end, new).len() == whole.len() - (end - start) + new.len(),
        forall|i: int| 0 <= i < start ==> respliced(whole, start, end, new)[i] == whole[i],
        forall|i: int|
            0 <= i < new.len() ==> respliced(whole, start, end, new)[start + i] == #[trigger] new[i],
        forall|i: int|
            end <= i < whole.len() ==> respliced(whole, start, end, new)[i - (end - start)
                + new.len()] == #[trigger] whole[i],
        respliced(
            respliced(whole, start, end, new),
            start,
            start + new.len(),
            whole.subrange(start, end),
        ) == whole,
{
    let after = respliced(whole, start, end, new);
    assert forall|i: int| end <= i < whole.len() implies after[i - (end - start) + new.len()]
        == #[trigger] whole[i] by {
        assert(whole.skip(end)[i - end] == whole[i]);
    }
    assert(respliced(after, start, start + new.len(), whole.subrange(start, end)) =~= whole);
}

/// `set_byte` is a `replace` of one byte.
pub proof fn law_set_byte_is_replace(whole: Seq<u8>, at: int, value: u8)
    requires
        0 <= at < whole.len(),
    ensures
        whole.update(at, value) == respliced(whole, at, at + 1, seq![value]),
{
    assert(whole.update(at, value) =~= respliced(whole, at, at + 1, seq![value]));
}

/// `byte_at` finds a byte where `get` shows it: byte `k` of chunk `i` lies as many bytes behind the
/// start as the chunks before it have, and `k` more.
pub proof fn law_byte_lies_in_its_chunk(rope: ByteRope, i: int, k: int)
    requires
        0 <= i < rope.chunk_list().len(),
        0 <= k < rope.chunk_list()[i].len(),
    ensures
        joined(rope.chunk_list().take(i)).len() + k < rope@.len(),
        rope@[joined(rope.chunk_list().take(i)).len() + k] == rope.chunk_list()[i][k],
{
    lemma_joined_at(rope.chunk_list(), i);
}

/// How a rope is cut into chunks does not show in its bytes, so it does not show in `==` either:
/// a chunk can be cut in two at any place.
pub proof fn law_cuts_are_invisible(list: Seq<Seq<u8>>, i: int, at: int)
    requires
        0 <= i < list.len(),
        0 <= at <= list[i].len(),
    ensures
        joined(list.take(i) + seq![list[i].take(at), list[i].skip(at)] + list.skip(i + 1)) == joined(
            list,
        ),
{
    let chunk = list[i];
    let pieces = seq![chunk.take(at), chunk.skip(at)];
    lemma_joined_at(list, i);
    lemma_joined_concat(list.take(i) + pieces, list.skip(i + 1));
    lemma_joined_concat(list.take(i), pieces);
    lemma_joined_one(chunk.take(at));
    lemma_joined_push(seq![chunk.take(at)], chunk.skip(at));
    assert(pieces =~= seq![chunk.take(at)].push(chunk.skip(at)));
    assert(chunk.take(at) + chunk.skip(at) =~= chunk);
}

/// Leaving out empty chunks changes no byte, and what is left holds no empty chunk.
pub proof fn law_empty_chunks_do_not_count(list: Seq<Seq<u8>>)
    ensures
        joined(solid(list)) == joined(list),
        none_empty(solid(list)),
{
    lemma_solid(list);
}

/// `finish` returns every byte that was written, whether it was still pending or not.
pub proof fn law_finish_keeps_every_byte(finished: Seq<Seq<u8>>, pending: Seq<u8>)
    ensures
        joined(flushed(finished, pending)) == joined(finished) + pending,
        none_empty(finished) ==> none_empty(flushed(finished, pending)),
{
    lemma_joined_push(finished, pending);
    if pending.len() == 0 {
        assert(joined(finished) + pending =~= joined(finished));
    }
    if none_empty(finished) {
        let list = flushed(finished, pending);
        assert forall|i: int| 0 <= i < list.len() implies (#[trigger] list[i]).len() > 0 by {
            if i < finished.len() {
                assert(list[i] == finished[i]);
            }
        }
    }
}

/// What one operation on a builder does to its bytes.
pub enum Step {
    /// A write of these bytes at the back, as by `put_slice`, `put_bytes`, `put_bytes_mut`, `append`
    /// and `extend`. A change of policy, as by `with_inline_threshold`, writes none.
    Write(Seq<u8>),
    /// A cut that takes these bytes off the front, as by `split` and `split_to`.
    Take(Seq<u8>),
}

/// The step leads from one content of a builder to another.
pub open spec fn stepped(before: Seq<u8>, step: Step, after: Seq<u8>) -> bool {
    match step {
        Step::Write(bytes) => after == before + bytes,
        Step::Take(bytes) => before == bytes + after,
    }
}

/// The bytes that the steps write, in order.
pub open spec fn steps_written(steps: Seq<Step>) -> Seq<u8>
    decreases steps.len(),
{
    if steps.len() == 0 {
        Seq::empty()
    } else {
        match steps.last() {
            Step::Write(bytes) => steps_written(steps.drop_last()) + bytes,
            Step::Take(_) => steps_written(steps.drop_last()),
        }
    }
}

/// The bytes that the steps take, in order.
pub open spec fn steps_taken(steps: Seq<Step>) -> Seq<u8>
    decreases steps.len(),
{
    if steps.len() == 0 {
        Seq::empty()
    } else {
        match steps.last() {
            Step::Write(_) => steps_taken(steps.drop_last()),
            Step::Take(bytes) => steps_taken(steps.drop_last()) + bytes,
        }
    }
}

/// A builder driven by any sequence of writes and cuts: what was taken from it, followed by what it
/// still has, is what it had at first followed by what was written. Capacity, inline threshold and
/// behavior do not show. `finish` gives back what the builder still has.
pub proof fn law_builder_keeps_every_byte<B: Behavior>(builders: Seq<Builder<B>>, steps: Seq<Step>)
    requires
        builders.len() == steps.len() + 1,
        forall|i: int|
            0 <= i < steps.len() ==> stepped(builders[i]@, #[trigger] steps[i], builders[i + 1]@),
    ensures
        steps_taken(steps) + builders.last()@ == builders[0]@ + steps_written(steps),
    decreases steps.len(),
{
    let first = builders[0]@;
    if steps.len() == 0 {
        assert(steps_taken(steps) + first =~= first + steps_written(steps));
    } else {
        let n = steps.len() - 1;
        let front = steps.drop_last();
        assert forall|i: int| 0 <= i < front.len() implies stepped(
            builders.drop_last()[i]@,
            #[trigger] front[i],
            builders.drop_last()[i + 1]@,
        ) by {
            assert(front[i] == steps[i]);
        }
        law_builder_keeps_every_byte(builders.drop_last(), front);
        let before = builders[n]@;
        let after = builders[n + 1]@;
        assert(stepped(before, steps[n], after));
        match steps.last() {
            Step::Write(bytes) => {
                assert(steps_taken(front) + (before + bytes) =~= (steps_taken(front) + before)
                    + bytes);
                assert((first + steps_written(front)) + bytes =~= first + (steps_written(front)
                    + bytes));
            },
            Step::Take(bytes) => {
                assert((steps_taken(front) + bytes) + after =~= steps_taken(front) + (bytes
                    + after));
            },
        }
    }
}

/// The number that bytes in big-endian order spell.
pub open spec fn big_endian_value(bytes: Seq<u8>) -> nat
    decreases bytes.len(),
{
    if bytes.len() == 0 {
        0
    } else {
        256 * big_endian_value(bytes.drop_last()) + bytes.last() as nat
    }
}

/// `256^width`.
pub open spec fn byte_range(width: nat) -> nat
    decreases width,
{
    if width == 0 {
        1
    } else {
        256 * byte_range((width - 1) as nat)
    }
}

/// A number that fits into `width` bytes can be read back from them.
pub proof fn law_big_endian_reads_back(value: nat, width: nat)
    requires
        value < byte_range(width),
    ensures
        big_endian(value, width).len() == width,
        big_endian_value(big_endian(value, width)) == value,
    decreases width,
{
    if width > 0 {
        let bytes = big_endian(value, width);
        assert(value / 256 < byte_range((width - 1) as nat));
        law_big_endian_reads_back(value / 256, (width - 1) as nat);
        assert(bytes.drop_last() =~= big_endian(value / 256, (width - 1) as nat));
        assert(bytes.last() == (value % 256) as u8);
    }
}

/// A framed write can be read back: its first eight bytes spell how long the rest is, and the rest
/// is what was written.
pub proof fn law_frame_reads_back(payload: Seq<u8>)
    requires
        payload.len() <= usize::MAX,
    ensures
        framed(payload).len() == 8 + payload.len(),
        big_endian_value(framed(payload).take(8)) == payload.len(),
        framed(payload).skip(8) == payload,
{
    reveal_with_fuel(byte_range, 9);
    assert(byte_range(8) == 0x1_0000_0000_0000_0000);
    law_big_endian_reads_back(payload.len(), 8);
    assert(framed(payload).take(8) =~= big_endian(payload.len(), 8));
    assert(framed(payload).skip(8) =~= payload);
}

} // verus!
