//! Reads without a `Result` for sources that cannot fail.

use vstd::prelude::*;

use crate::buffer::reader::fed;
use crate::buffer::reader::flowed;
use crate::buffer::reader::runs::handed_back;
use crate::buffer::reader::Buffer;
use crate::buffer::reader::BufferExt;
use crate::buffer::reader::Chunk;
use crate::buffer::writer;
use crate::chunks::clipped;
use crate::chunks::front_piece;

verus! {

/// A source that never fails.
pub trait Steady: Buffer<Error = core::convert::Infallible> {
    /// No read of this source fails.
    proof fn lemma_never_fails(&self)
        ensures
            !self.fails(),
    ;
}

/// Reads without a `Result` for a source that never fails.
pub trait Infallible: Steady + Sized {
    /// [`Buffer::read_chunk`] without the `Result`.
    fn infallible_read_chunk(&mut self, watermark: usize) -> (chunk: Chunk<'_>)
        ensures
            old(self).remaining() == chunk@ + final(self).remaining(),
            chunk@.len() <= watermark,
            chunk@.len() == 0 ==> watermark == 0 || old(self).remaining().len() == 0,
            chunk@ == front_piece(old(self).runs(), watermark as int),
            final(self).runs() == clipped(
                old(self).runs(),
                old(self).remaining().len() - final(self).remaining().len(),
                old(self).remaining().len() as int,
            ),
            final(self).hands_back() == old(self).hands_back(),
            final(self).origin() == old(self).origin(),
    {
        proof {
            self.lemma_never_fails();
        }
        match self.read_chunk(watermark) {
            Ok(chunk) => chunk,
            Err(_) => vstd::pervasive::unreached(),
        }
    }

    /// [`Buffer::partial_copy_into`] without the `Result`.
    fn infallible_partial_copy_into<Dest>(&mut self, dest: &mut Dest) -> (chunk: Chunk<'_>) where
        Dest: writer::Buffer,

        requires
            old(self).remaining().len() <= usize::MAX,
            old(dest).honest() || old(self).remaining().len() <= old(dest).space(),
        ensures
            flowed(
                old(self).remaining(),
                old(dest).written(),
                chunk@,
                final(self).remaining(),
                final(dest).written(),
            ),
            chunk@.len() <= final(dest).reported(),
            chunk@.len() <= final(dest).space(),
            final(self).remaining().len() > 0 ==> chunk@.len() == final(dest).reported(),
            old(self).hands_back() ==> handed_back(
                old(self).runs(),
                *old(dest),
                *final(dest),
                chunk@,
            ),
            fed(
                old(dest).written(),
                old(dest).space(),
                old(dest).reported(),
                old(dest).honest(),
                old(dest).tally(),
                final(dest).written(),
                final(dest).space(),
                final(dest).reported(),
                final(dest).honest(),
                final(dest).tally(),
            ),
            final(self).runs() == clipped(
                old(self).runs(),
                old(self).remaining().len() - final(self).remaining().len(),
                old(self).remaining().len() as int,
            ),
            final(self).hands_back() == old(self).hands_back(),
            final(self).origin() == old(self).origin(),
    {
        proof {
            self.lemma_never_fails();
        }
        match self.partial_copy_into(dest) {
            Ok(chunk) => chunk,
            Err(_) => vstd::pervasive::unreached(),
        }
    }

    /// [`BufferExt::copy_into`] without the `Result`.
    fn infallible_copy_into<Dest>(&mut self, dest: &mut Dest) where Dest: writer::Buffer
        requires
            old(self).remaining().len() <= usize::MAX,
            old(dest).honest() || old(self).remaining().len() <= old(dest).space(),
        ensures
            flowed(
                old(self).remaining(),
                old(dest).written(),
                Seq::empty(),
                final(self).remaining(),
                final(dest).written(),
            ),
            final(self).remaining().len() > 0 ==> final(dest).reported() == 0,
            fed(
                old(dest).written(),
                old(dest).space(),
                old(dest).reported(),
                old(dest).honest(),
                old(dest).tally(),
                final(dest).written(),
                final(dest).space(),
                final(dest).reported(),
                final(dest).honest(),
                final(dest).tally(),
            ),
            final(self).runs() == clipped(
                old(self).runs(),
                old(self).remaining().len() - final(self).remaining().len(),
                old(self).remaining().len() as int,
            ),
            final(self).hands_back() == old(self).hands_back(),
            final(self).origin() == old(self).origin(),
    {
        proof {
            self.lemma_never_fails();
        }
        match self.copy_into(dest) {
            Ok(()) => (),
            Err(_) => vstd::pervasive::unreached(),
        }
    }
}

impl<T> Infallible for T where T: Steady {

}

} // verus!
