//! The read side: sources that yield their bytes as borrowed or owned chunks.

use vstd::prelude::*;

use crate::buffer::reader::runs::handed_back;
use crate::buffer::writer;
use crate::chunks::clipped;
use crate::chunks::front_piece;
use crate::chunks::joined;
use crate::chunks::none_empty;

pub mod chain;
pub mod chunk;
pub mod full_copy;
pub mod infallible;
pub mod io_slice;
pub mod laws;
pub mod runs;
pub mod sources;
pub mod track;

pub use chain::Chain;
pub use chunk::Chunk;
pub use full_copy::FullCopy;
pub use infallible::Infallible;
pub use infallible::Steady;
pub use io_slice::IoSlice;
pub use track::TrackedReader;

verus! {

/// What a destination gained between two states.
pub open spec fn gained(before: Seq<u8>, after: Seq<u8>) -> Seq<u8> {
    after.skip(before.len() as int)
}

/// Bytes went from the front of a source to the back of a destination, in order and without a gap;
/// `held` are those between what the destination gained and what the source still has.
pub open spec fn flowed(
    source: Seq<u8>,
    dest: Seq<u8>,
    held: Seq<u8>,
    source_after: Seq<u8>,
    dest_after: Seq<u8>,
) -> bool {
    &&& dest_after == dest + gained(dest, dest_after)
    &&& source == gained(dest, dest_after) + held + source_after
}

/// A destination whose contents went from `dest` to `dest_after`: its space shrank by what it
/// gained, it is honest about its capacity if it was so before, it gained nothing if it asked for
/// nothing, and its count grew by what it gained as long as that fits into a `usize`.
pub open spec fn fed(
    dest: Seq<u8>,
    space: int,
    reported: nat,
    honest: bool,
    tally: nat,
    dest_after: Seq<u8>,
    space_after: int,
    reported_after: nat,
    honest_after: bool,
    tally_after: nat,
) -> bool {
    &&& space_after == space - (dest_after.len() - dest.len())
    &&& honest ==> honest_after
    &&& reported == 0 ==> dest_after == dest && reported_after == 0
    &&& tally + (dest_after.len() - dest.len()) <= usize::MAX ==> tally_after == tally + (
    dest_after.len() - dest.len())
}

/// A byte source that hands out its bytes one contiguous [`Chunk`] at a time.
pub trait Buffer {
    /// The error that a read may fail with.
    type Error: 'static;

    /// The bytes that are still to be read, in order.
    spec fn remaining(&self) -> Seq<u8>;

    /// The contiguous runs that these bytes lie in. None of them is empty.
    spec fn runs(&self) -> Seq<Seq<u8>>;

    /// Whether [`partial_copy_into`](Buffer::partial_copy_into) hands the last run back instead of
    /// writing it.
    spec fn hands_back(&self) -> bool;

    /// The runs hold the bytes that are still to be read.
    proof fn lemma_runs(&self)
        ensures
            none_empty(self.runs()),
            joined(self.runs()) == self.remaining(),
    ;

    /// Whether a read can fail.
    spec fn fails(&self) -> bool;

    /// A number that reads leave as it is. A source that counts what is read from it keeps here how
    /// many bytes it had at first.
    spec fn origin(&self) -> nat;

    /// The number of bytes that are still to be read.
    fn buffered_len(&self) -> (len: usize)
        requires
            self.remaining().len() <= usize::MAX,
        ensures
            len == self.remaining().len(),
    ;

    /// Whether no bytes are left to read.
    fn buffer_is_empty(&self) -> (empty: bool)
        ensures
            empty == (self.remaining().len() == 0),
    ;

    /// Takes the next contiguous chunk off the source, of at most `watermark` bytes.
    ///
    /// The chunk is the front of the first run. It is empty only if no bytes were asked for or none
    /// were left.
    fn read_chunk(&mut self, watermark: usize) -> (result: Result<Chunk<'_>, Self::Error>)
        ensures
            match result {
                Ok(chunk) => {
                    &&& old(self).remaining() == chunk@ + final(self).remaining()
                    &&& chunk@.len() <= watermark
                    &&& chunk@.len() == 0 ==> watermark == 0 || old(self).remaining().len() == 0
                    &&& chunk@ == front_piece(old(self).runs(), watermark as int)
                },
                Err(_) => {
                    &&& old(self).fails()
                    &&& final(self).remaining() == old(self).remaining()
                },
            },
            final(self).runs() == clipped(
                old(self).runs(),
                old(self).remaining().len() - final(self).remaining().len(),
                old(self).remaining().len() as int,
            ),
            final(self).hands_back() == old(self).hands_back(),
            final(self).fails() == old(self).fails(),
            final(self).origin() == old(self).origin(),
    ;

    /// Moves bytes into `dest` until it asks for no more or the source is drained, but returns the
    /// last contiguous run as a chunk instead of writing it. The chunk fits into `dest`.
    ///
    /// A source that [hands back](Buffer::hands_back) writes whole runs only, each shorter than what
    /// `dest` asks for at that point. The chunk is what `dest` asks for of the run after them.
    fn partial_copy_into<Dest>(&mut self, dest: &mut Dest) -> (result: Result<
        Chunk<'_>,
        Self::Error,
    >) where Dest: writer::Buffer
        requires
            old(self).remaining().len() <= usize::MAX,
            old(dest).honest() || old(self).remaining().len() <= old(dest).space(),
        ensures
            match result {
                Ok(chunk) => {
                    &&& flowed(
                        old(self).remaining(),
                        old(dest).written(),
                        chunk@,
                        final(self).remaining(),
                        final(dest).written(),
                    )
                    &&& chunk@.len() <= final(dest).reported()
                    &&& chunk@.len() <= final(dest).space()
                    &&& final(self).remaining().len() > 0 ==> chunk@.len() == final(dest).reported()
                    &&& old(self).hands_back() ==> handed_back(
                        old(self).runs(),
                        *old(dest),
                        *final(dest),
                        chunk@,
                    )
                },
                Err(_) => {
                    &&& old(self).fails()
                    &&& flowed(
                        old(self).remaining(),
                        old(dest).written(),
                        Seq::empty(),
                        final(self).remaining(),
                        final(dest).written(),
                    )
                },
            },
            fed(
                old(dest).written(),
                old(dest).space(),
                old(dest).reported(),
                old(dest).honest(),
                old(dest).tally(),
                final(dest).written(),
                final(dest).space(),
                final(dest).reported(),
                final(dest).honest(),
                final(dest).tally(),
            ),
            final(self).runs() == clipped(
                old(self).runs(),
                old(self).remaining().len() - final(self).remaining().len(),
                old(self).remaining().len() as int,
            ),
            final(self).hands_back() == old(self).hands_back(),
            final(self).fails() == old(self).fails(),
            final(self).origin() == old(self).origin(),
    ;
}

/// What every source offers on top of [`Buffer`].
pub trait BufferExt: Buffer + Sized {
    /// Moves bytes into `dest` until it asks for no more or the source is drained.
    fn copy_into<Dest>(&mut self, dest: &mut Dest) -> (result: Result<(), Self::Error>) where
        Dest: writer::Buffer,

        requires
            old(self).remaining().len() <= usize::MAX,
            old(dest).honest() || old(self).remaining().len() <= old(dest).space(),
        ensures
            flowed(
                old(self).remaining(),
                old(dest).written(),
                Seq::empty(),
                final(self).remaining(),
                final(dest).written(),
            ),
            result is Ok && final(self).remaining().len() > 0 ==> final(dest).reported() == 0,
            result is Ok ==> final(dest).space() >= 0,
            result is Err ==> old(self).fails(),
            fed(
                old(dest).written(),
                old(dest).space(),
                old(dest).reported(),
                old(dest).honest(),
                old(dest).tally(),
                final(dest).written(),
                final(dest).space(),
                final(dest).reported(),
                final(dest).honest(),
                final(dest).tally(),
            ),
            final(self).runs() == clipped(
                old(self).runs(),
                old(self).remaining().len() - final(self).remaining().len(),
                old(self).remaining().len() as int,
            ),
            final(self).hands_back() == old(self).hands_back(),
            final(self).fails() == old(self).fails(),
            final(self).origin() == old(self).origin(),
    {
        let ghost before = dest.written();
        match self.partial_copy_into(dest) {
            Ok(chunk) => {
                let ghost held = chunk@;
                let ghost middle = dest.written();
                if !chunk.is_empty() {
                    dest.put_chunk(chunk);
                }
                proof {
                    assert(gained(before, dest.written()) =~= gained(before, middle) + held);
                    assert(dest.written() =~= before + gained(before, dest.written()));
                    assert(gained(before, dest.written()) + Seq::<u8>::empty() =~= gained(
                        before,
                        middle,
                    ) + held);
                    if held.len() == 0 {
                        assert(dest.written() =~= middle);
                    }
                }
                Ok(())
            },
            Err(error) => Err(error),
        }
    }

    /// Wraps the source so that its trailing chunk is always written too.
    fn full_copy(&mut self) -> (copy: FullCopy<'_, Self>)
        ensures
            *copy.storage == *old(self),
            *final(copy.storage) == *final(self),
    {
        FullCopy::new(self)
    }

    /// Wraps the source to count the bytes read through it.
    fn track_read(&mut self) -> (tracker: TrackedReader<'_, Self>)
        requires
            old(self).remaining().len() <= usize::MAX,
        ensures
            *tracker.storage == *old(self),
            *final(tracker.storage) == *final(self),
            tracker.consumed() == 0,
    {
        TrackedReader::new(self)
    }

    /// Chains the source with another, which is read once this one is drained.
    fn chain<Other>(self, other: Other) -> (chain: Chain<Self, Other>) where
        Self: Sized + Buffer<Error = core::convert::Infallible>,
        Other: Buffer<Error = core::convert::Infallible>,

        ensures
            chain.first == self,
            chain.second == other,
    {
        Chain::new(self, other)
    }
}

impl<T> BufferExt for T where T: Buffer {

}

} // verus!
