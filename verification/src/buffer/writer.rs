//! The write side: destinations that accept bytes as slices or owned chunks.

use bytes::Bytes;
use bytes::BytesMut;

use vstd::prelude::*;

use crate::buffer::reader::Chunk;
use crate::shared::buffered;
use crate::shared::contents;

pub mod buf;
pub mod laws;
pub mod limit;
pub mod slice;
pub mod track;
pub mod vec_deque;
pub mod write_once;

pub use buf::BufMut;
pub use limit::Limit;
pub use slice::SliceWriter;
pub use track::TrackedWriter;
pub use write_once::WriteOnce;

verus! {

/// `n` zero bytes.
pub open spec fn zero_bytes(n: nat) -> Seq<u8> {
    Seq::new(n, |i: int| 0u8)
}

/// What a write of `bytes` does to a destination. It had written `before`, could take `space` more
/// bytes, reported a remaining capacity of `reported`, was `honest` about it and had counted up to
/// `tally`; the same with `after` are those values afterwards.
///
/// An honest destination stays so, and a write of exactly what was reported leaves nothing
/// reported. The count grows by what was written, as long as it fits into a `usize`.
pub open spec fn took(
    before: Seq<u8>,
    space: int,
    reported: nat,
    honest: bool,
    tally: nat,
    bytes: Seq<u8>,
    after: Seq<u8>,
    space_after: int,
    reported_after: nat,
    honest_after: bool,
    tally_after: nat,
) -> bool {
    &&& after == before + bytes
    &&& space_after == space - bytes.len()
    &&& honest ==> honest_after
    &&& bytes.len() == reported && reported < usize::MAX ==> reported_after == 0
    &&& tally + bytes.len() <= usize::MAX ==> tally_after == tally + bytes.len()
}

/// A closure that was handed `n` zero bytes refused them with `error`.
pub open spec fn refused<F, E>(f: F, n: nat, error: E) -> bool where
    F: FnOnce(&mut [u8]) -> Result<usize, E>,
 {
    exists|slice: &mut [u8]|
        slice@ == zero_bytes(n) && #[trigger] f.ensures((slice,), Err(error))
}

/// What a closure leaves in a slice of `payload_len` zero bytes, cut to the length that it reports.
pub(crate) fn filled_by<F, E>(payload_len: usize, f: F) -> (result: Result<Vec<u8>, E>) where
    F: FnOnce(&mut [u8]) -> Result<usize, E>,

    requires
        forall|slice: &mut [u8]| slice@.len() == payload_len ==> #[trigger] f.requires((slice,)),
    ensures
        result matches Ok(bytes) ==> exists|slice: &mut [u8], claimed: usize|
            {
                &&& slice@ == zero_bytes(payload_len as nat)
                &&& #[trigger] f.ensures((slice,), Ok(claimed))
                &&& final(slice)@.len() == payload_len ==> {
                    &&& bytes@.len() == if claimed <= payload_len {
                        claimed
                    } else {
                        payload_len
                    }
                    &&& bytes@ == final(slice)@.take(bytes@.len() as int)
                }
            },
        result matches Ok(bytes) ==> bytes@.len() <= payload_len,
        result matches Err(error) ==> refused(f, payload_len as nat, error),
{
    let mut exposed: Vec<u8> = Vec::new();
    exposed.resize(payload_len, 0);
    let slice: &mut [u8] = exposed.as_mut_slice();
    assert(slice@ =~= zero_bytes(payload_len as nat));
    let claim: Result<usize, E> = f(slice);
    match claim {
        Err(error) => {
            assert(refused(f, payload_len as nat, error));
            Err(error)
        },
        Ok(claimed) => {
            let count: usize = if claimed <= payload_len {
                claimed
            } else {
                payload_len
            };
            let ghost full = exposed@;
            assert(exists|slice: &mut [u8]|
                slice@ == zero_bytes(payload_len as nat) && #[trigger] f.ensures(
                    (slice,),
                    Ok(claimed),
                ) && final(slice)@ == full);
            exposed.resize(count, 0);
            proof {
                if full.len() == payload_len {
                    assert(exposed@ =~= full.take(count as int));
                }
            }
            Ok(exposed)
        },
    }
}

/// A byte destination that accepts writes as slices or owned chunks.
///
/// A destination can take [`space`](Buffer::space) more bytes. What it reports as its remaining
/// capacity is often the same number; it may be less (it asks for no more in this round) or, for a
/// destination without a limit of its own, more.
pub trait Buffer {
    /// `true` if [`put_bytes`](Buffer::put_bytes) adopts an owned chunk without copying.
    const SPECIALIZES_BYTES: bool = false;

    /// `true` if [`put_bytes_mut`](Buffer::put_bytes_mut) adopts an owned buffer without copying.
    const SPECIALIZES_BYTES_MUT: bool = false;

    /// Every byte written so far, in order.
    spec fn written(&self) -> Seq<u8>;

    /// How many more bytes can be written.
    spec fn space(&self) -> int;

    /// What [`remaining_capacity`](Buffer::remaining_capacity) answers.
    spec fn reported(&self) -> nat;

    /// Whether the destination reports no more than it can take, now and after any write.
    spec fn honest(&self) -> bool;

    /// How many bytes the destination has counted.
    spec fn tally(&self) -> nat;

    /// Appends `bytes`.
    fn put_slice(&mut self, bytes: &[u8])
        requires
            bytes@.len() <= old(self).space(),
        ensures
            took(
                old(self).written(),
                old(self).space(),
                old(self).reported(),
                old(self).honest(),
                old(self).tally(),
                bytes@,
                final(self).written(),
                final(self).space(),
                final(self).reported(),
                final(self).honest(),
                final(self).tally(),
            ),
    ;

    /// Whether a slice of `n` bytes can be asked for.
    spec fn may_expose(&self, n: nat) -> bool;

    /// Whether the destination serves a slice of `n` bytes.
    spec fn exposes(&self, n: nat) -> bool;

    /// Lets `f` fill a slice of `payload_len` zero bytes and appends the first bytes of it, as many
    /// as `f` reports to have filled and no more than the slice has.
    ///
    /// Returns how many were appended, `None` if the destination serves no slice of that length,
    /// or the error of `f`. In the last two cases nothing is written.
    fn put_uninit_slice<F, E>(&mut self, payload_len: usize, f: F) -> (result: Result<
        Option<usize>,
        E,
    >) where F: FnOnce(&mut [u8]) -> Result<usize, E>
        requires
            old(self).may_expose(payload_len as nat),
            forall|slice: &mut [u8]|
                slice@.len() == payload_len ==> #[trigger] f.requires((slice,)),
        ensures
            result matches Ok(Some(count)) ==> exists|slice: &mut [u8], claimed: usize|
                {
                    &&& slice@ == zero_bytes(payload_len as nat)
                    &&& #[trigger] f.ensures((slice,), Ok(claimed))
                    &&& final(slice)@.len() == payload_len ==> {
                        &&& count == if claimed <= payload_len {
                            claimed
                        } else {
                            payload_len
                        }
                        &&& final(self).written() == old(self).written() + final(slice)@.take(
                            count as int,
                        )
                    }
                },
            result matches Ok(Some(count)) ==> {
                &&& count <= payload_len
                &&& final(self).written().len() == old(self).written().len() + count
                &&& took(
                    old(self).written(),
                    old(self).space(),
                    old(self).reported(),
                    old(self).honest(),
                    old(self).tally(),
                    final(self).written().skip(old(self).written().len() as int),
                    final(self).written(),
                    final(self).space(),
                    final(self).reported(),
                    final(self).honest(),
                    final(self).tally(),
                )
            },
            result matches Ok(None) ==> !old(self).exposes(payload_len as nat),
            !old(self).exposes(payload_len as nat) ==> result matches Ok(None),
            result matches Err(error) ==> refused(f, payload_len as nat, error),
            !(result matches Ok(Some(_))) ==> {
                &&& final(self).written() == old(self).written()
                &&& final(self).space() == old(self).space()
                &&& final(self).reported() == old(self).reported()
                &&& final(self).honest() == old(self).honest()
                &&& final(self).tally() == old(self).tally()
            },
    ;

    /// How many more bytes the destination asks for.
    fn remaining_capacity(&self) -> (capacity: usize)
        ensures
            capacity == self.reported(),
            self.honest() ==> capacity <= self.space(),
    ;

    /// Whether the destination asks for any more bytes.
    fn has_remaining_capacity(&self) -> (has: bool)
        ensures
            has == (self.reported() > 0),
    ;

    /// Appends the bytes of a chunk.
    fn put_bytes(&mut self, bytes: Bytes)
        requires
            contents(bytes).len() <= old(self).space(),
        ensures
            took(
                old(self).written(),
                old(self).space(),
                old(self).reported(),
                old(self).honest(),
                old(self).tally(),
                contents(bytes),
                final(self).written(),
                final(self).space(),
                final(self).reported(),
                final(self).honest(),
                final(self).tally(),
            ),
    ;

    /// Appends the bytes of a buffer.
    fn put_bytes_mut(&mut self, bytes: BytesMut)
        requires
            buffered(bytes).len() <= old(self).space(),
        ensures
            took(
                old(self).written(),
                old(self).space(),
                old(self).reported(),
                old(self).honest(),
                old(self).tally(),
                buffered(bytes),
                final(self).written(),
                final(self).space(),
                final(self).reported(),
                final(self).honest(),
                final(self).tally(),
            ),
    ;

    /// Appends the bytes of a chunk that a reader handed out.
    fn put_chunk(&mut self, chunk: Chunk<'_>)
        requires
            chunk@.len() <= old(self).space(),
        ensures
            took(
                old(self).written(),
                old(self).space(),
                old(self).reported(),
                old(self).honest(),
                old(self).tally(),
                chunk@,
                final(self).written(),
                final(self).space(),
                final(self).reported(),
                final(self).honest(),
                final(self).tally(),
            ),
    ;
}

/// The adapters that every destination has.
pub trait BufferExt: Buffer + Sized {
    /// Limits how many bytes can be written to the storage.
    fn with_write_limit(&mut self, max_len: usize) -> (limit: Limit<'_, Self>)
        ensures
            *limit.storage == *old(self),
            *final(limit.storage) == *final(self),
            limit.remaining_capacity == if max_len <= old(self).reported() {
                max_len as nat
            } else {
                old(self).reported()
            },
    {
        Limit::new(self, max_len)
    }

    /// Counts the bytes written to the storage.
    fn track_write(&mut self) -> (tracker: TrackedWriter<'_, Self>)
        ensures
            *tracker.storage == *old(self),
            *final(tracker.storage) == *final(self),
            tracker.written == 0,
    {
        TrackedWriter::new(self)
    }

    /// Asks for no more bytes once something was written.
    fn write_once(&mut self) -> (once: WriteOnce<'_, Self>)
        ensures
            *once.storage == *old(self),
            *final(once.storage) == *final(self),
            !once.did_write,
    {
        WriteOnce::new(self)
    }
}

impl<T> BufferExt for T where T: Buffer {

}

} // verus!
