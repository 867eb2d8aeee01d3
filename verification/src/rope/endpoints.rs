//! What ropes and builders have to give and can take, and what a builder does with a write.

use bytes::Bytes;
use bytes::BytesMut;

use vstd::arithmetic::power::lemma_pow0;
use vstd::arithmetic::power::pow;
use vstd::prelude::*;

use crate::bigint::places::lemma_place_below;
use crate::buffer::laws::law_transfer_moves_a_prefix;
use crate::buffer::reader;
use crate::buffer::reader::flowed;
use crate::buffer::writer;
use crate::chunks::clipped;
use crate::chunks::joined;
use crate::chunks::lemma_clipped_skip;
use crate::chunks::lemma_clipped_take;
use crate::chunks::lemma_joined_concat;
use crate::chunks::lemma_joined_push;
use crate::chunks::solid;
use crate::rope::builder::adopted;
use crate::rope::builder::big_endian;
use crate::rope::builder::copied;
use crate::rope::builder::copied_at;
use crate::rope::builder::extended;
use crate::rope::builder::flushed;
use crate::rope::builder::framed;
use crate::rope::builder::froze;
use crate::rope::builder::froze_pending;
use crate::rope::builder::prefixed;
use crate::rope::builder::prepared;
use crate::rope::builder::same_policy;
use crate::rope::builder::spare_room;
use crate::rope::builder::Behavior;
use crate::rope::builder::Builder;
use crate::rope::byte_rope::ByteRope;
use crate::rope::convert::rope_chunks;
use crate::rope::convert::rope_views;
use crate::rope::convert::vec_views;
use crate::rope::stream::Reader;
use crate::rope::tagged::Charge;
use crate::rope::tagged::Handle as _;
use crate::rope::tagged::Owner;
use crate::rope::tagged::Tagged;
use crate::rope::text_rope::Kind;
use crate::rope::text_rope::Utf8;
use crate::shared::buffered;
use crate::shared::contents;

verus! {

/// A rope spells its chunks in a row.
pub proof fn law_rope_spells_its_chunks(rope: &ByteRope)
    ensures
        rope@ == joined(rope.chunk_list()),
{
}

/// A rope as a source has all of its bytes to give, in its chunks, and never fails.
pub proof fn law_rope_source(rope: &ByteRope)
    ensures
        reader::Buffer::remaining(rope) == rope@,
        reader::Buffer::runs(rope) == solid(rope.chunk_list()),
        reader::Buffer::hands_back(rope),
        !reader::Buffer::fails(rope),
{
}

/// A reader of a rope has all the bytes of the rope to give, in its chunks, and never fails.
pub proof fn law_reader_source(source: &Reader)
    ensures
        reader::Buffer::remaining(source) == source.inner@,
        reader::Buffer::runs(source) == solid(source.inner.chunk_list()),
        reader::Buffer::hands_back(source),
        !reader::Buffer::fails(source),
{
}

/// A rope as a destination holds what was written behind what it had. It always asks for as much as
/// can be asked for, takes what a `usize` can count, and exposes no slice.
pub proof fn law_rope_destination(rope: &ByteRope, n: nat)
    ensures
        writer::Buffer::written(rope) == rope@,
        writer::Buffer::space(rope) + rope@.len() == usize::MAX,
        writer::Buffer::reported(rope) == usize::MAX,
        !writer::Buffer::honest(rope),
        writer::Buffer::tally(rope) == rope@.len(),
        writer::Buffer::may_expose(rope, n),
        writer::Buffer::exposes(rope, n) <==> n == 0,
{
}

/// A builder as a destination holds what was written. It always asks for as much as can be asked for
/// and takes what a `usize` can count; it exposes any slice that can be allocated.
pub proof fn law_builder_destination<B: Behavior>(builder: &Builder<B>, n: nat)
    ensures
        writer::Buffer::written(builder) == builder@,
        writer::Buffer::space(builder) + builder@.len() == usize::MAX,
        writer::Buffer::reported(builder) == usize::MAX,
        !writer::Buffer::honest(builder),
        writer::Buffer::tally(builder) == builder@.len(),
        writer::Buffer::may_expose(builder, n) <==> n <= isize::MAX && builder@.len() + n
            <= usize::MAX,
        writer::Buffer::exposes(builder, n),
{
}

/// A builder as a source has all of its bytes to give: its finished chunks, then what is pending.
pub proof fn law_builder_source<B: Behavior>(builder: &Builder<B>)
    ensures
        reader::Buffer::remaining(builder) == joined(builder.finished()) + builder.pending(),
        reader::Buffer::runs(builder) == solid(builder.finished().push(builder.pending())),
        reader::Buffer::hands_back(builder),
        !reader::Buffer::fails(builder),
{
    crate::chunks::law_solid(builder.finished(), builder.pending());
}

/// A copy into a rope drains the source.
pub proof fn law_source_drains_into_rope(
    source: Seq<u8>,
    before: &ByteRope,
    source_after: Seq<u8>,
    after: &ByteRope,
)
    requires
        flowed(
            source,
            writer::Buffer::written(before),
            Seq::empty(),
            source_after,
            writer::Buffer::written(after),
        ),
        source_after.len() > 0 ==> writer::Buffer::reported(after) == 0,
    ensures
        source_after.len() == 0,
        after@ == before@ + source,
{
    law_transfer_moves_a_prefix(source, before@, source_after, after@);
    assert(source.take(source.len() as int) =~= source);
}

/// Flushing makes a chunk of what is pending, if there is anything.
pub proof fn law_flushed(finished: Seq<Seq<u8>>, pending: Seq<u8>)
    ensures
        pending.len() == 0 ==> flushed(finished, pending) == finished,
        pending.len() > 0 ==> flushed(finished, pending) == finished.push(pending),
{
}

/// What a builder spells: its finished chunks, then what is pending.
pub proof fn law_builder_spells<B: Behavior>(builder: &Builder<B>)
    ensures
        builder@ == joined(builder.finished()) + builder.pending(),
{
}

proof fn lemma_flushed_spells(finished: Seq<Seq<u8>>, pending: Seq<u8>)
    ensures
        joined(flushed(finished, pending)) == joined(finished) + pending,
{
    lemma_joined_push(finished, pending);
    if pending.len() == 0 {
        assert(joined(finished) + pending =~= joined(finished));
    }
}

/// A write by copy appends the bytes. The finished chunks stay, and at most one is added to them,
/// which begins with what was pending; what is pending then is the back of the written bytes.
pub proof fn law_copied<B: Behavior>(before: Builder<B>, bytes: Seq<u8>, after: Builder<B>)
    requires
        copied(before, bytes, after),
    ensures
        after@ == before@ + bytes,
        after.finished().len() <= before.finished().len() + 1,
        before.finished() == after.finished().take(before.finished().len() as int),
        after.finished().len() == before.finished().len() ==> after.pending() == before.pending()
            + bytes || after.pending() == bytes,
        after.finished().len() > before.finished().len() ==> after.pending().len() <= bytes.len()
            && after.finished().last() + after.pending() == before.pending() + bytes,
        after.finished().len() > before.finished().len() ==> froze(
            before.behavior(),
            after.finished().last(),
        ),
{
    let split = choose|split: int| #[trigger] copied_at(before, bytes, split, after);
    let full = before.pending() + bytes.take(split);
    lemma_flushed_spells(before.finished(), full);
    assert(bytes.take(split) + bytes.skip(split) =~= bytes);
    assert(after@ =~= before@ + bytes);
    assert(before.finished() =~= after.finished().take(before.finished().len() as int));
    if split < bytes.len() {
        if full.len() == 0 {
            assert(split == 0);
            assert(bytes.skip(0) =~= bytes);
        } else {
            assert(full + bytes.skip(split) =~= before.pending() + bytes);
        }
    }
}

/// A write of an owned chunk appends its bytes. One that is longer than the threshold becomes a chunk
/// of its own behind what was pending; an empty one changes nothing.
pub proof fn law_adopted<B: Behavior>(before: Builder<B>, bytes: Seq<u8>, after: Builder<B>)
    requires
        adopted(before, bytes, after),
        bytes.len() <= isize::MAX,
    ensures
        after@ == before@ + bytes,
        bytes.len() == 0 ==> after == before,
        bytes.len() > before.threshold() ==> after.finished() == flushed(
            before.finished(),
            before.pending(),
        ).push(bytes) && after.pending().len() == 0,
        bytes.len() > before.threshold() && bytes.len() > 0 && before.pending().len() > 0 ==> froze(
            before.behavior(),
            before.pending(),
        ),
        0 < bytes.len() <= before.threshold() ==> copied(before, bytes, after),
{
    if bytes.len() == 0 {
        assert(before@ + bytes =~= before@);
    } else if bytes.len() <= before.threshold() {
        law_copied(before, bytes, after);
    } else {
        lemma_flushed_spells(before.finished(), before.pending());
        lemma_joined_push(flushed(before.finished(), before.pending()), bytes);
        assert(after@ =~= before@ + bytes);
    }
}

/// A write into an exposed slice appends the bytes, which are pending then; what was pending before
/// is in front of them or has become a chunk.
pub proof fn law_extended<B: Behavior>(before: Builder<B>, bytes: Seq<u8>, after: Builder<B>)
    requires
        extended(before, bytes, after),
    ensures
        after@ == before@ + bytes,
        after.pending() == before.pending() + bytes || after.pending() == bytes,
        after.pending() == before.pending() + bytes && before.pending().len() > 0 ==> after.finished()
            == before.finished(),
        after.pending() != before.pending() + bytes ==> after.finished() == flushed(
            before.finished(),
            before.pending(),
        ) && froze(before.behavior(), before.pending()),
{
    lemma_flushed_spells(before.finished(), before.pending());
    assert(after@ =~= before@ + bytes);
}

/// A chunk that a behavior made was handed to it as a buffer with the same bytes.
pub proof fn law_froze<B: Behavior>(behavior: B, bytes: Seq<u8>)
    ensures
        froze(behavior, bytes) <==> exists|buffer: BytesMut, chunk: Bytes|
            {
                &&& #[trigger] call_ensures(B::freeze, (&behavior, buffer), chunk)
                &&& buffered(buffer) == bytes
                &&& contents(chunk) == bytes
            },
{
}

/// What is pending goes through the behavior before it becomes a chunk.
pub proof fn law_froze_pending<B: Behavior>(builder: Builder<B>)
    ensures
        froze_pending(builder) <==> builder.pending().len() == 0 || froze(
            builder.behavior(),
            builder.pending(),
        ),
{
}

/// A builder made ready for a framed write spells what it did, with nothing pending.
pub proof fn law_prepared<B: Behavior>(builder: Builder<B>, before: Builder<B>)
    requires
        prepared(builder, before),
    ensures
        builder@ == before@,
        builder.finished() == flushed(before.finished(), before.pending()),
        builder.pending().len() == 0,
        builder.capacity() == before.capacity(),
        builder.threshold() == before.threshold(),
        builder.behavior() == before.behavior(),
{
}

/// Two builders have the same policy exactly when capacity, threshold and behavior agree.
pub proof fn law_same_policy<B>(a: Builder<B>, b: Builder<B>)
    ensures
        same_policy(a, b) <==> a.capacity() == b.capacity() && a.threshold() == b.threshold()
            && a.behavior() == b.behavior(),
{
}

/// Room for more pending bytes: what the capacity leaves, with everything held to `isize::MAX`.
pub proof fn law_spare_room(capacity: int, len: int)
    ensures
        len >= isize::MAX ==> spare_room(capacity, len) == 0,
        len < isize::MAX && capacity <= isize::MAX ==> spare_room(capacity, len) + len == capacity,
        len < isize::MAX && capacity > isize::MAX ==> spare_room(capacity, len) + len == isize::MAX,
{
}

/// Big-endian bytes, place by place: there are `width` of them, and the one at each index is the digit
/// of that power of 256.
pub proof fn law_big_endian(value: nat, width: nat, i: int)
    requires
        0 <= i < width,
    ensures
        big_endian(value, width).len() == width,
        big_endian(value, width)[i] == (value as int / pow(256, (width - 1 - i) as nat)) % 256,
    decreases width,
{
    let k = (width - 1 - i) as nat;
    lemma_big_endian_len(value, width);
    lemma_big_endian_len(value / 256, (width - 1) as nat);
    if k == 0 {
        lemma_pow0(256);
    } else {
        lemma_place_below(value as int, 256, k);
        law_big_endian(value / 256, (width - 1) as nat, i);
    }
}

proof fn lemma_big_endian_len(value: nat, width: nat)
    ensures
        big_endian(value, width).len() == width,
    decreases width,
{
    if width > 0 {
        lemma_big_endian_len(value / 256, (width - 1) as nat);
    }
}

/// A frame is eight bytes that spell how many follow, most significant first, and then those.
pub proof fn law_framed(payload: Seq<u8>, i: int)
    requires
        0 <= i < 8,
    ensures
        framed(payload).len() == 8 + payload.len(),
        framed(payload)[i] == (payload.len() as int / pow(256, (7 - i) as nat)) % 256,
        framed(payload).skip(8) == payload,
{
    law_big_endian(payload.len(), 8, i);
    assert(framed(payload).skip(8) =~= payload);
}

/// A prefix that is written in front of what was written since `start` spells its length: what lay
/// before `start` is in front of the eight bytes of the prefix, and what was written since then behind
/// them.
pub proof fn law_prefixed<B: Behavior>(written: Builder<B>, start: int, chunks: Seq<Seq<u8>>)
    requires
        0 <= start <= written@.len(),
        prefixed(written, start, chunks),
    ensures
        joined(chunks) == written@.take(start) + big_endian((written@.len() - start) as nat, 8)
            + written@.skip(start),
{
    let all = flushed(written.finished(), written.pending());
    let len = written@.len() as int;
    let head = big_endian((len - start) as nat, 8);
    lemma_flushed_spells(written.finished(), written.pending());
    lemma_clipped_take(all, start);
    lemma_clipped_skip(all, start);
    let front = clipped(all, 0, start);
    let back = clipped(all, start, len);
    lemma_joined_push(front, head);
    lemma_joined_concat(front.push(head), back);
}

/// The bytes of a list of vectors and of a list of ropes, one by one.
pub proof fn law_views(vecs: Seq<Vec<u8>>, ropes: Seq<ByteRope>)
    ensures
        vec_views(vecs).len() == vecs.len(),
        forall|i: int| 0 <= i < vecs.len() ==> #[trigger] vec_views(vecs)[i] == vecs[i]@,
        rope_views(ropes).len() == ropes.len(),
        forall|i: int| 0 <= i < ropes.len() ==> #[trigger] rope_views(ropes)[i] == ropes[i]@,
{
}

/// The chunks of a list of ropes: none have none, and those of another rope come behind the others.
pub proof fn law_rope_chunks(ropes: Seq<ByteRope>, rope: ByteRope)
    ensures
        rope_chunks(Seq::<ByteRope>::empty()) == Seq::<Seq<u8>>::empty(),
        rope_chunks(ropes.push(rope)) == rope_chunks(ropes) + rope.chunk_list(),
{
    assert(ropes.push(rope).drop_last() =~= ropes);
}

/// A rope with an owner spells the rope's bytes, and is in step exactly when as many bytes are charged
/// to the owner as it has.
pub proof fn law_tagged<O: Owner>(tagged: &Tagged<O>)
    ensures
        tagged@ == tagged.rope()@,
        tagged.in_step() <==> tagged.handle().charged() == tagged@.len(),
        tagged.charged() == tagged.handle().charged(),
{
}

/// A handle that only remembers a number stands for that many bytes.
pub proof fn law_charge(charge: Charge)
    ensures
        charge.charged() == charge.len,
{
}

/// Text is what is valid UTF-8.
pub proof fn law_utf8(bytes: Seq<u8>)
    ensures
        Utf8::admits(bytes) <==> vstd::utf8::valid_utf8(bytes),
{
}

} // verus!
