//! What each source still has to give, and what a transfer does to both ends.

use core::convert::Infallible;

use bytes::Bytes;
use bytes::BytesMut;

use vstd::prelude::*;

use crate::buffer::fallible::Fallible;
use crate::buffer::reader::fed;
use crate::buffer::reader::flowed;
use crate::buffer::reader::gained;
use crate::buffer::reader::io_slice::slice_views;
use crate::buffer::reader::Buffer;
use crate::buffer::reader::Chain;
use crate::buffer::reader::Chunk;
use crate::buffer::reader::FullCopy;
use crate::buffer::reader::IoSlice;
use crate::buffer::reader::Steady;
use crate::buffer::reader::TrackedReader;
use crate::chunks::joined;
use crate::chunks::lemma_solid_one;
use crate::chunks::solid;
use crate::shared::buffered;
use crate::shared::contents;

verus! {

/// What a transfer means, offset by offset: the destination keeps what it had and has the first
/// `moved` bytes of the source behind it, the next bytes of the source are those that were held back,
/// and the source is left with the rest.
pub proof fn law_flow(
    source: Seq<u8>,
    dest: Seq<u8>,
    held: Seq<u8>,
    source_after: Seq<u8>,
    dest_after: Seq<u8>,
)
    ensures
        ({
            let moved = dest_after.len() - dest.len();
            flowed(source, dest, held, source_after, dest_after) <==> {
                &&& 0 <= moved
                &&& moved + held.len() + source_after.len() == source.len()
                &&& dest_after == dest + source.subrange(0, moved)
                &&& held == source.subrange(moved, moved + held.len())
                &&& source_after == source.subrange(moved + held.len(), source.len() as int)
            }
        }),
{
    let moved = dest_after.len() - dest.len();
    let gain = gained(dest, dest_after);
    if flowed(source, dest, held, source_after, dest_after) {
        assert(gain.len() == moved);
        assert(source.subrange(0, moved) =~= gain);
        assert(held =~= source.subrange(moved, moved + held.len()));
        assert(source_after =~= source.subrange(moved + held.len(), source.len() as int));
    }
    if 0 <= moved && moved + held.len() + source_after.len() == source.len() && dest_after == dest
        + source.subrange(0, moved) && held == source.subrange(moved, moved + held.len())
        && source_after == source.subrange(moved + held.len(), source.len() as int) {
        assert(gain =~= source.subrange(0, moved));
        assert(dest_after =~= dest + gain);
        assert(source =~= gain + held + source_after);
    }
}

/// What a transfer does to a destination: its space shrinks by the bytes that it gained, it stays
/// honest, it stays as it was and asks for nothing where it asked for nothing, and its count grows by
/// the bytes that it gained as long as that fits into a `usize`.
pub proof fn law_fed(
    dest: Seq<u8>,
    space: int,
    reported: nat,
    honest: bool,
    tally: nat,
    dest_after: Seq<u8>,
    space_after: int,
    reported_after: nat,
    honest_after: bool,
    tally_after: nat,
)
    ensures
        ({
            let gain = dest_after.len() - dest.len();
            fed(
                dest,
                space,
                reported,
                honest,
                tally,
                dest_after,
                space_after,
                reported_after,
                honest_after,
                tally_after,
            ) <==> {
                &&& space_after + gain == space
                &&& honest ==> honest_after
                &&& reported == 0 ==> dest_after == dest && reported_after == 0
                &&& tally + gain <= usize::MAX ==> tally_after == tally + gain
            }
        }),
{
}

/// What a destination gained is what lies behind the bytes that it had.
pub proof fn law_gained(before: Seq<u8>, added: Seq<u8>)
    ensures
        gained(before, before + added) == added,
{
    assert(gained(before, before + added) =~= added);
}

/// A borrowed slice, a shared chunk, a growable buffer and a chunk that a reader handed out each have
/// their own bytes to give, in one run, and never fail.
pub proof fn law_plain_sources(slice: &[u8], bytes: Bytes, buffer: BytesMut, chunk: Chunk<'_>)
    ensures
        slice.remaining() == slice@,
        bytes.remaining() == contents(bytes),
        buffer.remaining() == buffered(buffer),
        chunk.remaining() == chunk@,
        slice@.len() > 0 ==> slice.runs() == seq![slice@],
        contents(bytes).len() > 0 ==> bytes.runs() == seq![contents(bytes)],
        buffered(buffer).len() > 0 ==> buffer.runs() == seq![buffered(buffer)],
        chunk@.len() > 0 ==> chunk.runs() == seq![chunk@],
        slice@.len() == 0 ==> slice.runs().len() == 0,
        contents(bytes).len() == 0 ==> bytes.runs().len() == 0,
        buffered(buffer).len() == 0 ==> buffer.runs().len() == 0,
        chunk@.len() == 0 ==> chunk.runs().len() == 0,
        slice.hands_back() && bytes.hands_back() && buffer.hands_back() && chunk.hands_back(),
        !slice.fails() && !bytes.fails() && !buffer.fails() && !chunk.fails(),
{
    lemma_solid_one(slice@);
    lemma_solid_one(contents(bytes));
    lemma_solid_one(buffered(buffer));
    lemma_solid_one(chunk@);
}

/// A chunk holds the bytes of what it was made of.
pub proof fn law_chunk_bytes(slice: &[u8], bytes: Bytes, buffer: BytesMut)
    ensures
        Chunk::Slice(slice)@ == slice@,
        Chunk::Bytes(bytes)@ == contents(bytes),
        Chunk::BytesMut(buffer)@ == buffered(buffer),
{
}

/// Two sources in a row give the bytes of the first, then those of the second, in the runs that each
/// of them has. A read can fail where one of either can, and the last run is handed back where both
/// hand theirs back.
pub proof fn law_chain<A, B>(chain: Chain<A, B>) where
    A: Buffer<Error = Infallible>,
    B: Buffer<Error = Infallible>,

    ensures
        chain.remaining() == chain.first.remaining() + chain.second.remaining(),
        chain.runs() == chain.first.runs() + chain.second.runs(),
        chain.hands_back() <==> chain.first.hands_back() && chain.second.hands_back(),
        chain.fails() <==> chain.first.fails() || chain.second.fails(),
{
}

/// A list of slices gives what is left of the one that is being read, then the others, each in a run
/// of its own unless it is empty.
pub proof fn law_io_slice(source: IoSlice<'_>)
    ensures
        source.remaining() == source.head@ + joined(slice_views(source.parts@)),
        source.runs() == solid(seq![source.head@] + slice_views(source.parts@)),
        source.hands_back(),
        !source.fails(),
        slice_views(source.parts@).len() == source.parts@.len(),
        forall|i: int|
            0 <= i < source.parts@.len() ==> #[trigger] slice_views(source.parts@)[i]
                == source.parts@[i]@,
{
}

/// A source that is copied in full gives what the source behind it gives, and hands nothing back.
pub proof fn law_full_copy<S: Buffer>(copy: FullCopy<'_, S>)
    ensures
        copy.remaining() == old(copy.storage).remaining(),
        copy.runs() == old(copy.storage).runs(),
        !copy.hands_back(),
        copy.fails() == old(copy.storage).fails(),
{
}

/// A counting source gives what the source behind it gives. It has counted what that source had at
/// first, less what it has left.
pub proof fn law_tracked_reader<S: Buffer>(t: TrackedReader<'_, S>)
    ensures
        t.remaining() == old(t.storage).remaining(),
        t.runs() == old(t.storage).runs(),
        t.hands_back() == old(t.storage).hands_back(),
        t.fails() == old(t.storage).fails(),
        t.origin() == t.start,
        t.consumed() + t.remaining().len() == t.start,
{
}

/// A source that can be made to fail gives what the source behind it gives, and fails exactly while an
/// error is armed.
pub proof fn law_fallible<R, E>(f: Fallible<'_, R, E>) where R: Steady, E: 'static + Clone
    ensures
        f.remaining() == old(f.inner).remaining(),
        f.runs() == old(f.inner).runs(),
        f.hands_back() == old(f.inner).hands_back(),
        f.fails() <==> f.error is Some,
{
}

} // verus!
