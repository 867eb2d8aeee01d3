//! Building a rope out of many writes.

use core::convert::Infallible;

use bytes::Bytes;
use bytes::BytesMut;

use vstd::prelude::*;
use vstd::slice::slice_subrange;
use vstd::std_specs::convert::FromSpecImpl;

use crate::buffer::reader;
use crate::buffer::reader::chain::lemma_carry;
use crate::buffer::reader::chain::lemma_chained;
use crate::buffer::reader::flowed;
use crate::buffer::reader::gained;
use crate::buffer::reader::runs::handed_back;
use crate::buffer::reader::runs::lemma_ends_early;
use crate::buffer::reader::runs::lemma_goes_on;
use crate::buffer::reader::sources::shorter;
use crate::buffer::reader::Buffer as _;
use crate::buffer::reader::Chunk;
use crate::buffer::reader::Steady;
use crate::buffer::writer;
use crate::buffer::writer::filled_by;
use crate::buffer::writer::zero_bytes;
use crate::buffer::writer::Buffer as _;
use crate::chunks::beyond;
use crate::chunks::clipped;
use crate::chunks::front_piece;
use crate::chunks::joined;
use crate::chunks::lemma_clipped_full;
use crate::chunks::lemma_clipped_past;
use crate::chunks::lemma_clipped_push;
use crate::chunks::lemma_clipped_whole;
use crate::chunks::lemma_joined_push;
use crate::chunks::lemma_none_empty_concat;
use crate::chunks::lemma_solid;
use crate::chunks::lemma_solid_concat;
use crate::chunks::lemma_solid_one;
use crate::chunks::none_empty;
use crate::chunks::solid;
use crate::rope::byte_rope::ByteRope;
use crate::rope::error::ByteRopeError;
use crate::shared::buffer_slice;
use crate::shared::buffered;
use crate::shared::chunk_slice;
use crate::shared::contents;
use crate::shared::frozen;

verus! {

/// The capacity of the head buffer where none is asked for: 128 KiB.
pub const DEFAULT_CAPACITY: usize = 131072;

/// How a [`Builder`] sizes its head buffer, when it copies small chunks, and how a finished buffer
/// becomes a chunk.
pub trait Behavior {
    /// The capacity of the head buffer where none is given.
    fn default_capacity(&self) -> (capacity: usize)
        ensures
            capacity <= isize::MAX,
        default_ensures
            capacity == DEFAULT_CAPACITY,
    {
        proof {
            lemma_capacity_fits();
        }
        DEFAULT_CAPACITY
    }

    /// Chunks of up to this many bytes are copied into the head buffer; longer ones are held as
    /// they are.
    fn inline_threshold(&self) -> (threshold: usize)
        default_ensures
            threshold == 0,
    {
        0
    }

    /// Turns a finished buffer into a chunk with the same bytes.
    fn freeze(&self, buffer: BytesMut) -> (chunk: Bytes)
        ensures
            contents(chunk) == buffered(buffer),
    {
        frozen(buffer)
    }
}

/// The default capacity is one that an allocation can have.
proof fn lemma_capacity_fits()
    ensures
        DEFAULT_CAPACITY <= isize::MAX,
{
    vstd::layout::usize_size_pow2();
    assert(isize::MAX >= 0x7fff_ffff);
}

/// The behavior with every default.
#[derive(Debug, Default, Clone, Copy)]
pub struct DefaultBehavior;

impl Behavior for DefaultBehavior {

}

/// Collects writes in a head buffer and moves finished chunks to a rope.
pub struct Builder<B = DefaultBehavior> {
    chunks: ByteRope,
    head: BytesMut,
    capacity: usize,
    inline_threshold: usize,
    behavior: B,
}

impl<B> View for Builder<B> {
    type V = Seq<u8>;

    /// Every byte written, in order.
    open spec fn view(&self) -> Seq<u8> {
        joined(self.finished()) + self.pending()
    }
}

/// The chunks that a builder has once its head buffer is flushed: the finished ones, and the
/// pending bytes as one more if there are any.
pub open spec fn flushed(finished: Seq<Seq<u8>>, pending: Seq<u8>) -> Seq<Seq<u8>> {
    if pending.len() == 0 {
        finished
    } else {
        finished.push(pending)
    }
}

/// A flush moves no byte.
proof fn lemma_flushed(finished: Seq<Seq<u8>>, pending: Seq<u8>)
    ensures
        joined(flushed(finished, pending)) == joined(finished) + pending,
        joined(finished) + pending + Seq::<u8>::empty() == joined(finished) + pending,
{
    lemma_joined_push(finished, pending);
    assert(joined(finished) + pending + Seq::<u8>::empty() =~= joined(finished) + pending);
    if pending.len() == 0 {
        assert(joined(finished) + pending =~= joined(finished));
    }
}

/// The runs that a builder is read in: those of the finished chunks, then the pending bytes.
proof fn lemma_flushed_runs(finished: Seq<Seq<u8>>, pending: Seq<u8>)
    ensures
        solid(flushed(finished, pending)) == solid(finished) + solid(seq![pending]),
        none_empty(finished) ==> solid(flushed(finished, pending)) == flushed(finished, pending),
{
    lemma_solid_one(pending);
    lemma_solid_concat(finished, seq![pending]);
    lemma_solid(finished);
    if pending.len() == 0 {
        assert(solid(finished) + solid(seq![pending]) =~= solid(finished));
    } else {
        assert(finished + seq![pending] =~= finished.push(pending));
        assert(finished + solid(seq![pending]) =~= finished.push(pending));
    }
}

/// Cutting what a builder has at `at`.
proof fn lemma_flushed_cut(finished: Seq<Seq<u8>>, pending: Seq<u8>, at: int)
    requires
        none_empty(finished),
        0 <= at <= joined(finished).len() + pending.len(),
    ensures
        ({
            let all = flushed(finished, pending);
            let settled = joined(finished).len() as int;
            let len = settled + pending.len();
            if at <= settled {
                &&& clipped(all, 0, at) == clipped(finished, 0, at)
                &&& clipped(all, at, len) == flushed(clipped(finished, at, settled), pending)
            } else {
                &&& clipped(all, 0, at) == finished.push(pending.take(at - settled))
                &&& clipped(all, at, len) == flushed(Seq::empty(), pending.skip(at - settled))
            }
        }),
{
    let settled = joined(finished).len() as int;
    let len = settled + pending.len();
    let all = flushed(finished, pending);
    lemma_clipped_whole(finished);
    lemma_clipped_past(finished, 0, at);
    lemma_clipped_past(finished, at, len);
    if pending.len() > 0 {
        lemma_clipped_push(finished, pending, 0, at);
        lemma_clipped_push(finished, pending, at, len);
        if at <= settled {
            assert(pending.subrange(0, pending.len() as int) =~= pending);
        } else {
            assert(pending.subrange(0, at - settled) =~= pending.take(at - settled));
            assert(pending.subrange(at - settled, pending.len() as int) =~= pending.skip(
                at - settled,
            ));
        }
    }
}

/// See [`lemma_flushed_runs`], for every builder.
proof fn lemma_all_flushed_runs()
    ensures
        forall|finished: Seq<Seq<u8>>, pending: Seq<u8>|
            {
                &&& solid(#[trigger] flushed(finished, pending)) == solid(finished) + solid(
                    seq![pending],
                )
                &&& none_empty(finished) ==> solid(flushed(finished, pending)) == flushed(
                    finished,
                    pending,
                )
            },
{
    assert forall|finished: Seq<Seq<u8>>, pending: Seq<u8>|
        {
            &&& solid(#[trigger] flushed(finished, pending)) == solid(finished) + solid(
                seq![pending],
            )
            &&& none_empty(finished) ==> solid(flushed(finished, pending)) == flushed(
                finished,
                pending,
            )
        } by {
        lemma_flushed_runs(finished, pending);
    }
}

/// The `width` lowest bytes of `value`, the highest of them first.
pub open spec fn big_endian(value: nat, width: nat) -> Seq<u8>
    decreases width,
{
    if width == 0 {
        Seq::empty()
    } else {
        big_endian(value / 256, (width - 1) as nat).push((value % 256) as u8)
    }
}

/// See [`big_endian`].
fn big_endian_bytes(value: u64, width: usize) -> (bytes: Vec<u8>)
    ensures
        bytes@ == big_endian(value as nat, width as nat),
        bytes@.len() == width,
    decreases width,
{
    if width == 0 {
        Vec::new()
    } else {
        let mut bytes = big_endian_bytes(value / 256, width - 1);
        bytes.push((value % 256) as u8);
        bytes
    }
}

/// `bytes` with their number in front, as eight bytes in big-endian order.
pub open spec fn framed(bytes: Seq<u8>) -> Seq<u8> {
    big_endian(bytes.len(), 8) + bytes
}

/// What a callback leaves in a slice of `len` zero bytes, cut to the length that it reports.
fn socket_bytes<Cb>(len: usize, f: Cb) -> (bytes: Vec<u8>) where Cb: FnOnce(&mut [u8]) -> usize
    requires
        forall|slice: &mut [u8]| slice@.len() == len ==> #[trigger] f.requires((slice,)),
    ensures
        bytes@.len() <= len,
        exists|slice: &mut [u8], claimed: usize|
            {
                &&& slice@ == zero_bytes(len as nat)
                &&& #[trigger] f.ensures((slice,), claimed)
                &&& final(slice)@.len() == len ==> {
                    &&& bytes@.len() == if claimed <= len {
                        claimed
                    } else {
                        len
                    }
                    &&& bytes@ == final(slice)@.take(bytes@.len() as int)
                }
            },
{
    let mut exposed: Vec<u8> = Vec::new();
    exposed.resize(len, 0);
    let slice: &mut [u8] = exposed.as_mut_slice();
    assert(slice@ =~= zero_bytes(len as nat));
    let claimed: usize = f(slice);
    let count: usize = shorter(claimed, len);
    let ghost full = exposed@;
    assert(exists|slice: &mut [u8]|
        slice@ == zero_bytes(len as nat) && #[trigger] f.ensures((slice,), claimed)
            && final(slice)@ == full);
    exposed.resize(count, 0);
    proof {
        if full.len() == len {
            assert(exposed@ =~= full.take(count as int));
        }
    }
    exposed
}

impl<B> Builder<B> {
    /// The bytes of each finished chunk.
    pub closed spec fn finished(&self) -> Seq<Seq<u8>> {
        self.chunks.chunk_list()
    }

    /// The bytes in the head buffer.
    pub closed spec fn pending(&self) -> Seq<u8> {
        buffered(self.head)
    }

    /// The capacity that a new head buffer gets at least.
    pub closed spec fn capacity(&self) -> usize {
        self.capacity
    }

    /// Up to which length a chunk is copied.
    pub closed spec fn threshold(&self) -> usize {
        self.inline_threshold
    }

    /// What decides how a buffer becomes a chunk.
    pub closed spec fn behavior(&self) -> B {
        self.behavior
    }
}

/// Two builders that differ in what was written to them only.
pub open spec fn same_policy<B>(a: Builder<B>, b: Builder<B>) -> bool {
    &&& a.capacity() == b.capacity()
    &&& a.threshold() == b.threshold()
    &&& a.behavior() == b.behavior()
}

/// A behavior made a chunk of a buffer with these bytes.
pub open spec fn froze<B: Behavior>(behavior: B, bytes: Seq<u8>) -> bool {
    exists|buffer: BytesMut, chunk: Bytes|
        {
            &&& buffered(buffer) == bytes
            &&& #[trigger] call_ensures(B::freeze, (&behavior, buffer), chunk)
            &&& contents(chunk) == bytes
        }
}

/// The pending bytes of a builder, if there are any, became a chunk by its behavior.
pub open spec fn froze_pending<B: Behavior>(builder: Builder<B>) -> bool {
    builder.pending().len() > 0 ==> froze(builder.behavior(), builder.pending())
}

/// A builder to whose head buffer bytes were copied: the first `split` of them behind the pending
/// ones, the others, if there are any, into a new head buffer. In that case the behavior makes a
/// chunk of the old one.
pub open spec fn copied_at<B: Behavior>(
    before: Builder<B>,
    bytes: Seq<u8>,
    split: int,
    after: Builder<B>,
) -> bool {
    let full = before.pending() + bytes.take(split);
    &&& 0 <= split <= bytes.len()
    &&& if split == bytes.len() {
        &&& after.finished() == before.finished()
        &&& after.pending() == before.pending() + bytes
    } else {
        &&& after.finished() == flushed(before.finished(), full)
        &&& after.pending() == bytes.skip(split)
        &&& full.len() > 0 ==> froze(before.behavior(), full)
    }
}

/// A builder to whose head buffer bytes were copied. Where they are split rests on the capacity
/// that the allocator gave the head buffer.
pub open spec fn copied<B: Behavior>(
    before: Builder<B>,
    bytes: Seq<u8>,
    after: Builder<B>,
) -> bool {
    exists|split: int| #[trigger] copied_at(before, bytes, split, after)
}

/// A builder that got an owned chunk: one of up to the threshold is copied, a longer one is held as
/// it is, behind what was pending.
pub open spec fn adopted<B: Behavior>(
    before: Builder<B>,
    bytes: Seq<u8>,
    after: Builder<B>,
) -> bool {
    if bytes.len() == 0 {
        after == before
    } else if bytes.len() <= before.threshold() {
        bytes.len() <= isize::MAX ==> copied(before, bytes, after)
    } else {
        &&& after.finished() == flushed(before.finished(), before.pending()).push(bytes)
        &&& after.pending() == Seq::<u8>::empty()
        &&& froze_pending(before)
    }
}

/// A builder whose head buffer got bytes in one piece, if need be as a new head buffer. In that
/// case the behavior makes a chunk of the old one.
pub open spec fn extended<B: Behavior>(
    before: Builder<B>,
    bytes: Seq<u8>,
    after: Builder<B>,
) -> bool {
    ||| {
        &&& after.finished() == before.finished()
        &&& after.pending() == before.pending() + bytes
    }
    ||| {
        &&& after.finished() == flushed(before.finished(), before.pending())
        &&& after.pending() == bytes
        &&& froze_pending(before)
    }
}

impl Builder<DefaultBehavior> {
    /// Creates a builder whose head buffer holds `capacity` bytes.
    pub fn new(capacity: usize) -> (builder: Self)
        ensures
            builder.finished() == Seq::<Seq<u8>>::empty(),
            builder.pending() == Seq::<u8>::empty(),
            builder.capacity() == capacity,
            builder.threshold() == 0,
    {
        Builder {
            chunks: ByteRope::new(),
            head: BytesMut::new(),
            capacity,
            inline_threshold: 0,
            behavior: DefaultBehavior,
        }
    }
}

impl ByteRope {
    /// Creates a builder whose head buffer holds `chunk_capacity` bytes.
    pub fn builder(chunk_capacity: usize) -> (builder: Builder)
        ensures
            builder.finished() == Seq::<Seq<u8>>::empty(),
            builder.pending() == Seq::<u8>::empty(),
            builder.capacity() == chunk_capacity,
            builder.threshold() == 0,
    {
        Builder::new(chunk_capacity)
    }
}

impl Default for Builder<DefaultBehavior> {
    /// An empty builder with the default capacity.
    fn default() -> (builder: Self)
        ensures
            builder.finished() == Seq::<Seq<u8>>::empty(),
            builder.pending() == Seq::<u8>::empty(),
            builder.capacity() == DEFAULT_CAPACITY,
            builder.threshold() == 0,
    {
        Builder::from_behavior(DefaultBehavior)
    }
}

impl<B: Behavior> Builder<B> {
    /// Creates a builder with the capacity and the threshold of a behavior.
    pub fn from_behavior(behavior: B) -> (builder: Self)
        ensures
            builder.finished() == Seq::<Seq<u8>>::empty(),
            builder.pending() == Seq::<u8>::empty(),
            call_ensures(B::default_capacity, (&behavior,), builder.capacity()),
            call_ensures(B::inline_threshold, (&behavior,), builder.threshold()),
            builder.behavior() == behavior,
    {
        let capacity: usize = behavior.default_capacity();
        let inline_threshold: usize = behavior.inline_threshold();
        Builder {
            chunks: ByteRope::new(),
            head: BytesMut::new(),
            capacity,
            inline_threshold,
            behavior,
        }
    }

    /// Copies chunks of up to `threshold` bytes into the head buffer from now on.
    pub fn with_inline_threshold(self, threshold: usize) -> (builder: Self)
        ensures
            builder.finished() == self.finished(),
            builder.pending() == self.pending(),
            builder.capacity() == self.capacity(),
            builder.threshold() == threshold,
            builder.behavior() == self.behavior(),
    {
        Builder {
            chunks: self.chunks,
            head: self.head,
            capacity: self.capacity,
            inline_threshold: threshold,
            behavior: self.behavior,
        }
    }

    /// Up to which length a chunk is copied.
    pub fn inline_threshold(&self) -> (threshold: usize)
        ensures
            threshold == self.threshold(),
    {
        self.inline_threshold
    }

    /// Lets another behavior decide how a buffer becomes a chunk from now on. What was written, the
    /// capacity and the threshold stay.
    pub fn with_behavior<C: Behavior>(self, behavior: C) -> (builder: Builder<C>)
        ensures
            builder.finished() == self.finished(),
            builder.pending() == self.pending(),
            builder.capacity() == self.capacity(),
            builder.threshold() == self.threshold(),
            builder.behavior() == behavior,
    {
        Builder {
            chunks: self.chunks,
            head: self.head,
            capacity: self.capacity,
            inline_threshold: self.inline_threshold,
            behavior,
        }
    }

    /// The number of bytes written.
    pub fn len(&self) -> (len: usize)
        requires
            self@.len() <= usize::MAX,
        ensures
            len == self@.len(),
    {
        self.chunks.len() + self.head.len()
    }

    /// Whether no bytes were written.
    pub fn is_empty(&self) -> (empty: bool)
        ensures
            empty == (self@.len() == 0),
    {
        self.head.is_empty() && self.chunks.is_empty()
    }

    /// How many bytes the head buffer can take before it has to be allocated anew. That rests on
    /// the capacity that the allocator gave it, which holds at least the pending bytes.
    fn room(&self) -> (room: usize)
        ensures
            exists|capacity: usize|
                {
                    &&& capacity >= self.pending().len()
                    &&& room == #[trigger] spare_room(capacity as int, self.pending().len() as int)
                },
    {
        let capacity: usize = self.head.capacity();
        let len: usize = self.head.len();
        let room: usize = room_within(capacity, len);
        assert(room == spare_room(capacity as int, self.pending().len() as int));
        room
    }

    /// Turns the pending bytes into a chunk, if there are any.
    fn flush(&mut self)
        requires
            old(self)@.len() <= usize::MAX,
        ensures
            final(self).finished() == flushed(old(self).finished(), old(self).pending()),
            final(self).pending() == Seq::<u8>::empty(),
            final(self)@ == old(self)@,
            froze_pending(*old(self)),
            same_policy(*final(self), *old(self)),
    {
        proof {
            lemma_flushed(self.finished(), self.pending());
        }
        if !self.head.is_empty() {
            let buffer = self.head.split();
            let chunk = self.behavior.freeze(buffer);
            assert(froze(self.behavior, buffered(buffer)));
            self.chunks.push_back(chunk);
        } else {
            assert(self.pending() =~= Seq::<u8>::empty());
        }
    }

    /// Turns the pending bytes into a chunk, if there are any, and starts a head buffer with room
    /// for `min_len` bytes.
    fn flush_and_reserve(&mut self, min_len: usize)
        requires
            old(self)@.len() <= usize::MAX,
        ensures
            final(self).finished() == flushed(old(self).finished(), old(self).pending()),
            final(self).pending() == Seq::<u8>::empty(),
            final(self)@ == old(self)@,
            froze_pending(*old(self)),
            same_policy(*final(self), *old(self)),
    {
        proof {
            lemma_flushed(self.finished(), self.pending());
        }
        let wanted: usize = if self.capacity >= min_len {
            self.capacity
        } else {
            min_len
        };
        let mut head = BytesMut::with_capacity(shorter(wanted, isize::MAX as usize));
        core::mem::swap(&mut self.head, &mut head);
        if !head.is_empty() {
            let chunk = self.behavior.freeze(head);
            assert(froze(self.behavior, buffered(head)));
            self.chunks.push_back(chunk);
        }
    }

    /// Moves the chunks of a rope to the back.
    pub fn append(&mut self, bytes: &mut ByteRope)
        requires
            old(self)@.len() + old(bytes)@.len() <= usize::MAX,
        ensures
            final(self)@ == old(self)@ + old(bytes)@,
            old(bytes)@.len() > 0 ==> {
                &&& final(self).finished() == flushed(old(self).finished(), old(self).pending())
                    + old(bytes).chunk_list()
                &&& final(self).pending() == Seq::<u8>::empty()
                &&& froze_pending(*old(self))
            },
            old(bytes)@.len() == 0 ==> *final(self) == *old(self),
            final(bytes)@ == Seq::<u8>::empty(),
            same_policy(*final(self), *old(self)),
    {
        if bytes.is_empty() {
            proof {
                assert(old(bytes)@ =~= Seq::<u8>::empty());
                assert(self@ + bytes@ =~= self@);
            }
            return;
        }
        self.flush();
        self.chunks.append(bytes);
        proof {
            assert(old(self)@ + old(bytes)@ + Seq::<u8>::empty() =~= old(self)@ + old(bytes)@);
            assert(joined(flushed(old(self).finished(), old(self).pending())) + Seq::<u8>::empty()
                =~= joined(flushed(old(self).finished(), old(self).pending())));
        }
    }

    /// Appends the chunks of a rope, which stays as it is.
    pub fn extend(&mut self, bytes: &ByteRope)
        requires
            old(self)@.len() + bytes@.len() <= usize::MAX,
        ensures
            final(self)@ == old(self)@ + bytes@,
            bytes@.len() > 0 ==> {
                &&& final(self).finished() == flushed(old(self).finished(), old(self).pending())
                    + bytes.chunk_list()
                &&& final(self).pending() == Seq::<u8>::empty()
                &&& froze_pending(*old(self))
            },
            bytes@.len() == 0 ==> *final(self) == *old(self),
            same_policy(*final(self), *old(self)),
    {
        let mut copy = bytes.clone();
        self.append(&mut copy);
    }

    /// Takes everything that was written and leaves the builder empty.
    pub fn split(&mut self) -> (bytes: ByteRope)
        requires
            old(self)@.len() <= usize::MAX,
        ensures
            bytes@ == old(self)@,
            bytes.chunk_list() == flushed(old(self).finished(), old(self).pending()),
            froze_pending(*old(self)),
            final(self)@ == Seq::<u8>::empty(),
            final(self).finished() == Seq::<Seq<u8>>::empty(),
            final(self).pending() == Seq::<u8>::empty(),
            same_policy(*final(self), *old(self)),
    {
        proof {
            lemma_flushed(self.finished(), self.pending());
        }
        self.flush();
        let mut bytes = ByteRope::new();
        core::mem::swap(&mut self.chunks, &mut bytes);
        assert(self@ =~= Seq::<u8>::empty());
        bytes
    }

    /// Takes the first `at` bytes that were written.
    pub fn split_to(&mut self, at: usize) -> (result: Result<ByteRope, ByteRopeError>)
        requires
            old(self)@.len() <= usize::MAX,
        ensures
            match result {
                Ok(front) => {
                    &&& at <= old(self)@.len()
                    &&& front@ == old(self)@.take(at as int)
                    &&& final(self)@ == old(self)@.skip(at as int)
                    &&& front.chunk_list() == clipped(
                        flushed(old(self).finished(), old(self).pending()),
                        0,
                        at as int,
                    )
                    &&& flushed(final(self).finished(), final(self).pending()) == clipped(
                        flushed(old(self).finished(), old(self).pending()),
                        at as int,
                        old(self)@.len() as int,
                    )
                    &&& final(self).pending() == old(self).pending().skip(
                        beyond(at as int, joined(old(self).finished()).len() as int),
                    )
                    &&& at > joined(old(self).finished()).len() ==> froze(
                        old(self).behavior(),
                        old(self).pending().take(at - joined(old(self).finished()).len()),
                    )
                },
                Err(error) => {
                    &&& at > old(self)@.len()
                    &&& error == ByteRopeError::OutOfBounds(at)
                    &&& *final(self) == *old(self)
                },
            },
            same_policy(*final(self), *old(self)),
    {
        let len: usize = self.len();
        let ghost whole = self@;
        if len < at {
            return Err(ByteRopeError::OutOfBounds(at));
        }
        // The count also tells that no chunk is empty.
        let _count: usize = self.chunks.chunk_count();
        let ghost list = self.finished();
        let ghost open = self.pending();
        proof {
            lemma_flushed_cut(list, open, at as int);
            lemma_clipped_whole(list);
            assert(open.take(open.len() as int) =~= open);
            assert(open.skip(open.len() as int) =~= Seq::<u8>::empty());
            assert(open.skip(0) =~= open);
        }
        if len == at {
            proof {
                assert(whole.take(at as int) =~= whole);
                assert(whole.skip(at as int) =~= Seq::<u8>::empty());
            }
            return Ok(self.split());
        }
        let settled: usize = self.chunks.len();
        if at > settled {
            let buffer = self.head.split_to(at - settled);
            let chunk = self.behavior.freeze(buffer);
            assert(froze(self.behavior, buffered(buffer)));
            self.chunks.push_back(chunk);
            proof {
                assert(self@ =~= whole);
                lemma_joined_push(list, contents(chunk));
                lemma_none_empty_concat(list, seq![contents(chunk)]);
                assert(list + seq![contents(chunk)] =~= list.push(contents(chunk)));
                lemma_clipped_whole(list.push(contents(chunk)));
            }
        }
        let ghost front = self.chunks@;
        let ghost back = buffered(self.head);
        let result = self.chunks.split_to(at);
        proof {
            assert(front.take(at as int) =~= whole.take(at as int));
            assert(front.skip(at as int) + back =~= whole.skip(at as int));
        }
        result
    }

    /// Everything that was written, as a rope.
    pub fn finish(self) -> (rope: ByteRope)
        requires
            self@.len() <= usize::MAX,
        ensures
            rope@ == self@,
            rope.chunk_list() == flushed(self.finished(), self.pending()),
            froze_pending(self),
    {
        proof {
            lemma_flushed(self.finished(), self.pending());
        }
        let mut chunks = self.chunks;
        if !self.head.is_empty() {
            let chunk = self.behavior.freeze(self.head);
            assert(froze(self.behavior, buffered(self.head)));
            chunks.push_back(chunk);
        }
        chunks
    }

    /// Lets `f` write, and puts the number of bytes that it wrote in front of them, as eight bytes
    /// in big-endian order.
    pub fn write_with_len_prefix<Body: FnOnce(&mut Self)>(&mut self, f: Body)
        requires
            old(self)@.len() <= usize::MAX,
            forall|builder: &mut Self|
                prepared(*builder, *old(self)) ==> #[trigger] f.requires((builder,)),
            forall|builder: &mut Self|
                prepared(*builder, *old(self)) && #[trigger] f.ensures((builder,), ()) ==> {
                    &&& old(self)@.len() <= final(builder)@.len()
                    &&& final(builder)@.len() + 8 <= usize::MAX
                },
        ensures
            exists|builder: &mut Self|
                {
                    &&& prepared(*builder, *old(self))
                    &&& #[trigger] f.ensures((builder,), ())
                    &&& final(self)@ == final(builder)@.take(old(self)@.len() as int) + framed(
                        final(builder)@.skip(old(self)@.len() as int),
                    )
                    &&& prefixed(
                        *final(builder),
                        old(self)@.len() as int,
                        final(self).finished(),
                    )
                    &&& final(self).pending() == Seq::<u8>::empty()
                    &&& froze_pending(*final(builder))
                    &&& same_policy(*final(self), *final(builder))
                },
            froze_pending(*old(self)),
    {
        self.flush();
        let before: usize = self.len();
        f(self);
        let ghost wrote = self@;
        let ghost written_to = *self;
        assert(exists|builder: &mut Self|
            prepared(*builder, *old(self)) && #[trigger] f.ensures((builder,), ())
                && *final(builder) == written_to);
        self.flush();
        proof {
            lemma_flushed(self.finished(), self.pending());
            assert(self.chunks@ =~= wrote);
        }
        let written: u64 = (self.len() - before) as u64;
        let length = big_endian_bytes(written, 8);
        let chunk = Bytes::copy_from_slice(length.as_slice());
        match self.chunks.split_to(before) {
            Ok(prefix) => {
                let mut prefix = prefix;
                prefix.push_back(chunk);
                prefix.append(&mut self.chunks);
                self.chunks = prefix;
                proof {
                    assert(wrote.take(before as int) + big_endian(written as nat, 8) + wrote.skip(
                        before as int,
                    ) =~= wrote.take(before as int) + framed(wrote.skip(before as int)));
                    assert(self@ =~= wrote.take(before as int) + framed(wrote.skip(before as int)));
                }
            },
            Err(_) => vstd::pervasive::unreached(),
        }
    }

    /// Lets `f` fill a slice of `preferred_read_size` zero bytes, and takes over as many of them as
    /// it reports to have filled, but no more than the slice has.
    pub fn for_socket_read<Cb>(&mut self, preferred_read_size: usize, f: Cb) where
        Cb: FnOnce(&mut [u8]) -> usize,

        requires
            preferred_read_size <= isize::MAX,
            old(self)@.len() + preferred_read_size <= usize::MAX,
            forall|slice: &mut [u8]|
                slice@.len() == preferred_read_size ==> #[trigger] f.requires((slice,)),
        ensures
            final(self)@.len() >= old(self)@.len(),
            final(self)@.take(old(self)@.len() as int) == old(self)@,
            final(self)@.len() <= old(self)@.len() + preferred_read_size,
            extended(
                *old(self),
                final(self)@.skip(old(self)@.len() as int),
                *final(self),
            ),
            exists|slice: &mut [u8], claimed: usize|
                {
                    &&& slice@ == zero_bytes(preferred_read_size as nat)
                    &&& #[trigger] f.ensures((slice,), claimed)
                    &&& final(slice)@.len() == preferred_read_size ==> final(self)@ == old(self)@
                        + final(slice)@.take(
                        if claimed <= preferred_read_size {
                            claimed as int
                        } else {
                            preferred_read_size as int
                        },
                    )
                },
            same_policy(*final(self), *old(self)),
    {
        if preferred_read_size > self.room() {
            self.flush_and_reserve(preferred_read_size);
        }
        let bytes = socket_bytes(preferred_read_size, f);
        let ghost before = self@;
        let ghost ready = *self;
        if bytes.len() > 0 {
            self.head.extend_from_slice(bytes.as_slice());
        }
        proof {
            assert(self.pending() =~= ready.pending() + bytes@);
            assert(Seq::<u8>::empty() + bytes@ =~= bytes@);
            assert(self@ =~= before + bytes@);
            assert(self@.take(before.len() as int) =~= before);
            assert(self@.skip(before.len() as int) =~= bytes@);
        }
    }
}

/// How many bytes a buffer that holds `len` of `capacity` bytes has left, with no buffer growing
/// beyond what one allocation can have.
pub open spec fn spare_room(capacity: int, len: int) -> int {
    if len >= isize::MAX {
        0
    } else if capacity <= isize::MAX {
        capacity - len
    } else {
        isize::MAX - len
    }
}

/// How many bytes a buffer that holds `len` of `capacity` bytes has left.
pub fn room_within(capacity: usize, len: usize) -> (room: usize)
    requires
        len <= capacity,
    ensures
        room == spare_room(capacity as int, len as int),
{
    let most: usize = isize::MAX as usize;
    if len >= most {
        return 0;
    }
    shorter(capacity, most) - len
}

/// The chunks of a builder after a framed write that started at the offset `start`: what the write
/// left in the builder, and at that offset a chunk of its own with the length.
pub open spec fn prefixed<B>(written: Builder<B>, start: int, chunks: Seq<Seq<u8>>) -> bool {
    let all = flushed(written.finished(), written.pending());
    let len = written@.len() as int;
    chunks == clipped(all, 0, start).push(big_endian((len - start) as nat, 8)) + clipped(
        all,
        start,
        len,
    )
}

/// A builder as it is when a framed write starts: what was written before is there, none of it
/// pending.
pub open spec fn prepared<B>(builder: Builder<B>, before: Builder<B>) -> bool {
    &&& builder@ == before@
    &&& builder.finished() == flushed(before.finished(), before.pending())
    &&& builder.pending() == Seq::<u8>::empty()
    &&& same_policy(builder, before)
}

impl From<ByteRope> for Builder<DefaultBehavior> {
    fn from(chunks: ByteRope) -> (builder: Self)
        ensures
            builder.finished() == chunks.chunk_list(),
            builder.pending() == Seq::<u8>::empty(),
            builder.capacity() == DEFAULT_CAPACITY,
            builder.threshold() == 0,
    {
        Builder {
            chunks,
            head: BytesMut::new(),
            capacity: DEFAULT_CAPACITY,
            inline_threshold: 0,
            behavior: DefaultBehavior,
        }
    }
}

impl FromSpecImpl<ByteRope> for Builder<DefaultBehavior> {
    open spec fn obeys_from_spec() -> bool {
        false
    }

    open spec fn from_spec(chunks: ByteRope) -> Self {
        vstd::pervasive::arbitrary()
    }
}

impl<B: Behavior> writer::Buffer for Builder<B> {
    const SPECIALIZES_BYTES: bool = true;

    const SPECIALIZES_BYTES_MUT: bool = true;

    open spec fn written(&self) -> Seq<u8> {
        self@
    }

    open spec fn space(&self) -> int {
        usize::MAX - self@.len()
    }

    open spec fn reported(&self) -> nat {
        usize::MAX as nat
    }

    open spec fn honest(&self) -> bool {
        false
    }

    open spec fn tally(&self) -> nat {
        self@.len()
    }

    open spec fn may_expose(&self, n: nat) -> bool {
        n <= isize::MAX && self@.len() + n <= usize::MAX
    }

    open spec fn exposes(&self, n: nat) -> bool {
        true
    }

    fn put_slice(&mut self, bytes: &[u8])
        ensures
            bytes@.len() <= isize::MAX ==> copied(*old(self), bytes@, *final(self)),
            same_policy(*final(self), *old(self)),
    {
        let ghost before = self@;
        let total: usize = bytes.len();
        let first: usize = shorter(total, self.room());
        let mut done: usize = first;
        if first > 0 {
            self.head.extend_from_slice(slice_subrange(bytes, 0, first));
        }
        proof {
            assert(self@ =~= before + bytes@.take(first as int));
            assert(self.pending() =~= old(self).pending() + bytes@.take(first as int));
            if first == total {
                assert(bytes@.take(first as int) =~= bytes@);
                assert(copied_at(*old(self), bytes@, first as int, *self));
            }
        }
        while done < total
            invariant
                done <= total,
                total == bytes@.len(),
                before.len() + total <= usize::MAX,
                self@ == before + bytes@.take(done as int),
                same_policy(*self, *old(self)),
                first <= done,
                done == first ==> {
                    &&& self.finished() == old(self).finished()
                    &&& self.pending() == old(self).pending() + bytes@.take(first as int)
                },
                done == total && total <= isize::MAX ==> copied(*old(self), bytes@, *self),
                done > first && total <= isize::MAX ==> done == total,
            decreases total - done,
        {
            let next: usize = shorter(total - done, isize::MAX as usize);
            self.flush_and_reserve(next);
            let ghost held = self@;
            self.head.extend_from_slice(slice_subrange(bytes, done, done + next));
            proof {
                assert(self@ =~= held + bytes@.subrange(done as int, done + next));
                assert(bytes@.take(done + next) =~= bytes@.take(done as int) + bytes@.subrange(
                    done as int,
                    done + next,
                ));
                assert(self@ =~= before + bytes@.take(done + next));
                if done == first && done + next == total {
                    assert(self.pending() =~= bytes@.skip(first as int));
                    assert(copied_at(*old(self), bytes@, first as int, *self));
                }
            }
            done = done + next;
        }
        assert(bytes@.take(total as int) =~= bytes@);
    }

    fn put_uninit_slice<F, E>(&mut self, payload_len: usize, f: F) -> (result: Result<
        Option<usize>,
        E,
    >) where F: FnOnce(&mut [u8]) -> Result<usize, E>
        ensures
            extended(
                *old(self),
                final(self)@.skip(old(self)@.len() as int),
                *final(self),
            ),
            same_policy(*final(self), *old(self)),
    {
        let ghost before = self@;
        if payload_len > self.room() {
            self.flush_and_reserve(payload_len);
        }
        let ghost ready = *self;
        match filled_by(payload_len, f) {
            Ok(exposed) => {
                let count: usize = exposed.len();
                if count > 0 {
                    self.head.extend_from_slice(exposed.as_slice());
                }
                proof {
                    assert(self@ =~= before + exposed@);
                    assert(self@.skip(before.len() as int) =~= exposed@);
                    assert(self.pending() =~= ready.pending() + exposed@);
                    assert(Seq::<u8>::empty() + exposed@ =~= exposed@);
                }
                Ok(Some(count))
            },
            Err(error) => {
                proof {
                    assert(self@.skip(before.len() as int) =~= Seq::<u8>::empty());
                    assert(old(self).pending() + Seq::<u8>::empty() =~= old(self).pending());
                }
                Err(error)
            },
        }
    }

    fn remaining_capacity(&self) -> (capacity: usize)
        ensures
            capacity == usize::MAX,
    {
        usize::MAX
    }

    fn has_remaining_capacity(&self) -> (has: bool) {
        true
    }

    fn put_bytes(&mut self, bytes: Bytes)
        ensures
            adopted(*old(self), contents(bytes), *final(self)),
            same_policy(*final(self), *old(self)),
    {
        if bytes.is_empty() {
            assert(self@ + contents(bytes) =~= self@);
            return;
        }
        if bytes.len() <= self.inline_threshold {
            self.put_slice(chunk_slice(&bytes));
            return;
        }
        let ghost before = self@;
        let ghost added = contents(bytes);
        self.flush();
        self.chunks.push_back(bytes);
        assert(self@ =~= before + added);
    }

    fn put_bytes_mut(&mut self, bytes: BytesMut)
        ensures
            adopted(*old(self), buffered(bytes), *final(self)),
            buffered(bytes).len() > old(self).threshold() ==> froze(
                old(self).behavior(),
                buffered(bytes),
            ),
            same_policy(*final(self), *old(self)),
    {
        if bytes.is_empty() {
            assert(self@ + buffered(bytes) =~= self@);
            return;
        }
        if bytes.len() <= self.inline_threshold {
            self.put_slice(buffer_slice(&bytes));
            return;
        }
        let ghost before = self@;
        let ghost added = buffered(bytes);
        self.flush();
        let chunk = self.behavior.freeze(bytes);
        assert(froze(self.behavior, added));
        self.chunks.push_back(chunk);
        assert(self@ =~= before + added);
    }

    fn put_chunk(&mut self, chunk: Chunk<'_>)
        ensures
            match chunk {
                Chunk::Slice(slice) => slice@.len() <= isize::MAX ==> copied(
                    *old(self),
                    slice@,
                    *final(self),
                ),
                _ => adopted(*old(self), chunk@, *final(self)),
            },
            chunk is BytesMut && chunk@.len() > old(self).threshold() ==> froze(
                old(self).behavior(),
                chunk@,
            ),
            same_policy(*final(self), *old(self)),
    {
        match chunk {
            Chunk::Slice(slice) => self.put_slice(slice),
            Chunk::Bytes(bytes) => self.put_bytes(bytes),
            Chunk::BytesMut(bytes) => self.put_bytes_mut(bytes),
        }
    }
}

impl<B: Behavior> reader::Buffer for Builder<B> {
    type Error = Infallible;

    open spec fn remaining(&self) -> Seq<u8> {
        self@
    }

    open spec fn runs(&self) -> Seq<Seq<u8>> {
        solid(flushed(self.finished(), self.pending()))
    }

    open spec fn hands_back(&self) -> bool {
        true
    }

    proof fn lemma_runs(&self) {
        lemma_solid(flushed(self.finished(), self.pending()));
        lemma_flushed(self.finished(), self.pending());
    }

    open spec fn fails(&self) -> bool {
        false
    }

    open spec fn origin(&self) -> nat {
        0
    }

    fn buffered_len(&self) -> (len: usize) {
        self.len()
    }

    fn buffer_is_empty(&self) -> (empty: bool) {
        self.is_empty()
    }

    fn read_chunk(&mut self, watermark: usize) -> (result: Result<Chunk<'_>, Infallible>)
        ensures
            result matches Ok(chunk) && chunk@ == front_piece(
                flushed(old(self).finished(), old(self).pending()),
                watermark as int,
            ),
    {
        let ghost first = self.chunks@;
        let ghost second = buffered(self.head);
        // The count also tells that no chunk is empty.
        let count: usize = self.chunks.chunk_count();
        proof {
            lemma_chained(self.chunks, self.head);
            lemma_flushed_runs(self.finished(), second);
            lemma_solid(self.finished());
            lemma_all_flushed_runs();
        }
        if count == 0 {
            proof {
                assert(first + second =~= second);
                assert forall|c: Seq<u8>, r: Seq<u8>| second == #[trigger] (c + r) implies second
                    == c + (first + r) by {
                    assert(first + r =~= r);
                }
            }
            self.head.read_chunk(watermark)
        } else {
            proof {
                assert forall|c: Seq<u8>, r: Seq<u8>| first == #[trigger] (c + r) implies first
                    + second == c + (r + second) by {
                    assert((c + r) + second =~= c + (r + second));
                }
            }
            self.chunks.read_chunk(watermark)
        }
    }

    #[verifier::rlimit(40)]
    fn partial_copy_into<Dest>(&mut self, dest: &mut Dest) -> (result: Result<
        Chunk<'_>,
        Infallible,
    >) where Dest: writer::Buffer
        ensures
            result matches Ok(chunk) && handed_back(
                flushed(old(self).finished(), old(self).pending()),
                *old(dest),
                *final(dest),
                chunk@,
            ),
            flushed(final(self).finished(), final(self).pending()) == clipped(
                flushed(old(self).finished(), old(self).pending()),
                old(self)@.len() - final(self)@.len(),
                old(self)@.len() as int,
            ),
    {
        let ghost first = self.chunks@;
        let ghost second = buffered(self.head);
        let ghost before = dest.written();
        let ghost start = *dest;
        let ghost early_runs = self.chunks.runs();
        let ghost late_runs = self.head.runs();
        // The count also tells that no chunk is empty.
        let _count: usize = self.chunks.chunk_count();
        proof {
            lemma_chained(self.chunks, self.head);
            lemma_flushed_runs(self.finished(), second);
            lemma_solid(self.finished());
            lemma_all_flushed_runs();
            let list = self.finished();
            assert forall|at: int| 0 <= at implies none_empty(
                #[trigger] clipped(list, at, first.len() as int),
            ) && solid(clipped(list, at, first.len() as int)) == clipped(
                list,
                at,
                first.len() as int,
            ) by {
                lemma_clipped_full(list, at, first.len() as int);
                lemma_solid(clipped(list, at, first.len() as int));
            }
            assert(gained(before, before) =~= Seq::<u8>::empty());
            assert(before + Seq::<u8>::empty() =~= before);
            assert(first =~= Seq::<u8>::empty() + Seq::<u8>::empty() + first);
        }
        if !self.chunks.is_empty() {
            match self.chunks.partial_copy_into(dest) {
                Ok(chunk) => {
                    let ghost held = chunk@;
                    let ghost middle = dest.written();
                    let full = dest.remaining_capacity() == chunk.len();
                    if full || self.head.is_empty() {
                        proof {
                            lemma_carry(gained(before, middle), held, first, second);
                            lemma_ends_early(early_runs, late_runs, start, *dest, held);
                        }
                        return Ok(chunk);
                    }
                    let ghost reached = *dest;
                    if !chunk.is_empty() {
                        dest.put_chunk(chunk);
                    }
                    proof {
                        let onward = *dest;
                        assert forall|after: Dest, tail: Seq<u8>|
                            #[trigger] handed_back(late_runs, onward, after, tail) implies
                            handed_back(early_runs + late_runs, start, after, tail) by {
                            lemma_goes_on(
                                early_runs,
                                late_runs,
                                start,
                                reached,
                                onward,
                                after,
                                held,
                                tail,
                            );
                        }
                        assert(gained(before, dest.written()) =~= gained(before, middle) + held);
                        assert(dest.written() =~= before + gained(before, dest.written()));
                        if held.len() == 0 {
                            assert(dest.written() =~= middle);
                        }
                    }
                },
                Err(error) => {
                    return Err(error);
                },
            }
        }
        let ghost middle = dest.written();
        let ghost early = gained(before, middle);
        assert(first =~= early);
        proof {
            assert forall|rest: Seq<Seq<u8>>| #[trigger] (Seq::<Seq<u8>>::empty() + rest) == rest by {
                assert(Seq::<Seq<u8>>::empty() + rest =~= rest);
            }
            assert forall|after: Seq<u8>, held: Seq<u8>, rest: Seq<u8>| #[trigger]
                flowed(second, middle, held, rest, after) implies {
                &&& after == before + gained(before, after)
                &&& first + second == gained(before, after) + held + rest
                &&& after.len() - before.len() == (after.len() - middle.len()) + early.len()
            } by {
                assert(gained(before, after) =~= early + gained(middle, after));
                assert(after =~= before + gained(before, after));
                assert(first + (gained(middle, after) + held + rest) =~= gained(before, after)
                    + held + rest);
            }
            assert forall|rest: Seq<u8>| rest == #[trigger] (Seq::<u8>::empty() + rest) by {
                assert(rest =~= Seq::<u8>::empty() + rest);
            }
        }
        self.head.partial_copy_into(dest)
    }
}

impl<B: Behavior> Steady for Builder<B> {
    proof fn lemma_never_fails(&self) {
    }
}

} // verus!
