//! What each destination holds, asks for and can take, and what a write does to it.

use std::collections::VecDeque;

use bytes::Bytes;
use bytes::BytesMut;

use vstd::prelude::*;

use crate::buffer::laws::law_transfer_moves_a_prefix;
use crate::buffer::reader::flowed;
use crate::buffer::writer::limit::least;
use crate::buffer::writer::refused;
use crate::buffer::writer::took;
use crate::buffer::writer::track::counted;
use crate::buffer::writer::zero_bytes;
use crate::buffer::writer::BufMut;
use crate::buffer::writer::Buffer;
use crate::buffer::writer::Limit;
use crate::buffer::writer::SliceWriter;
use crate::buffer::writer::TrackedWriter;
use crate::buffer::writer::WriteOnce;
use crate::chunks::chunk_views;
use crate::chunks::joined;
use crate::shared::buffered;

verus! {

/// What a write means: the bytes are behind those from before, the space shrinks by their number, an
/// honest destination stays so, a write of exactly what was asked for leaves nothing asked for, and
/// the count grows by their number as long as it fits into a `usize`.
pub proof fn law_write_appends(
    before: Seq<u8>,
    space: int,
    reported: nat,
    honest: bool,
    tally: nat,
    bytes: Seq<u8>,
    after: Seq<u8>,
    space_after: int,
    reported_after: nat,
    honest_after: bool,
    tally_after: nat,
)
    ensures
        took(
            before,
            space,
            reported,
            honest,
            tally,
            bytes,
            after,
            space_after,
            reported_after,
            honest_after,
            tally_after,
        ) <==> {
            &&& after.len() == before.len() + bytes.len()
            &&& forall|i: int| 0 <= i < before.len() ==> after[i] == #[trigger] before[i]
            &&& forall|i: int| 0 <= i < bytes.len() ==> after[before.len() + i] == #[trigger] bytes[i]
            &&& space_after + bytes.len() == space
            &&& honest ==> honest_after
            &&& bytes.len() == reported && reported < usize::MAX ==> reported_after == 0
            &&& tally + bytes.len() <= usize::MAX ==> tally_after == tally + bytes.len()
        },
{
    if after.len() == before.len() + bytes.len() && (forall|i: int|
        0 <= i < before.len() ==> after[i] == #[trigger] before[i]) && (forall|i: int|
        0 <= i < bytes.len() ==> after[before.len() + i] == #[trigger] bytes[i]) {
        assert forall|i: int| 0 <= i < after.len() implies after[i] == (before + bytes)[i] by {
            if i < before.len() {
                assert(after[i] == before[i]);
            } else {
                assert(after[before.len() + (i - before.len())] == bytes[i - before.len()]);
            }
        }
        assert(after =~= before + bytes);
    }
}

/// A slice that is exposed to be filled holds as many zero bytes as were asked for.
pub proof fn law_zero_bytes(n: nat)
    ensures
        zero_bytes(n).len() == n,
        forall|i: int| 0 <= i < n ==> #[trigger] zero_bytes(n)[i] == 0,
{
}

/// A closure that refused was handed as many zero bytes as were asked for, and answered with the error.
pub proof fn law_refused<F, E>(f: F, n: nat, error: E) where F: FnOnce(&mut [u8]) -> Result<usize, E>
    requires
        refused(f, n, error),
    ensures
        exists|slice: &mut [u8]|
            {
                &&& slice@.len() == n
                &&& forall|i: int| 0 <= i < n ==> slice@[i] == 0
                &&& #[trigger] f.ensures((slice,), Err(error))
            },
{
    let slice = choose|slice: &mut [u8]|
        slice@ == zero_bytes(n) && #[trigger] f.ensures((slice,), Err(error));
    assert(f.ensures((slice,), Err(error)));
}

/// A vector holds what was written to it. It can take, asks for and exposes whatever is left up to
/// `isize::MAX` bytes, however many it holds, and counts what it holds.
pub proof fn law_vec(v: &Vec<u8>, n: nat)
    ensures
        v.written() == v@,
        v.space() + v@.len() == isize::MAX,
        v@.len() <= isize::MAX ==> v.reported() + v@.len() == isize::MAX && v.honest(),
        v@.len() > isize::MAX ==> v.reported() == 0 && !v.honest(),
        v.tally() == v@.len(),
        v.may_expose(n) <==> v@.len() + n <= isize::MAX,
        v.exposes(n),
{
}

/// A growable buffer does as a vector does.
pub proof fn law_bytes_mut(b: &BytesMut, n: nat)
    ensures
        b.written() == buffered(*b),
        b.space() + buffered(*b).len() == isize::MAX,
        buffered(*b).len() <= isize::MAX ==> b.reported() + buffered(*b).len() == isize::MAX
            && b.honest(),
        buffered(*b).len() > isize::MAX ==> b.reported() == 0 && !b.honest(),
        b.tally() == buffered(*b).len(),
        b.may_expose(n) <==> buffered(*b).len() + n <= isize::MAX,
        b.exposes(n),
{
}

/// A queue of chunks holds their bytes. It always asks for as much as can be asked for, takes what a
/// `usize` can count, and exposes no slice.
pub proof fn law_vec_deque(q: &VecDeque<Bytes>, n: nat)
    ensures
        q.written() == joined(chunk_views(q@)),
        q.space() + joined(chunk_views(q@)).len() == usize::MAX,
        q.reported() == usize::MAX,
        !q.honest(),
        q.tally() == joined(chunk_views(q@)).len(),
        q.may_expose(n),
        q.exposes(n) <==> n == 0,
{
}

/// A slice holds what was filled of it. It can take, asks for and exposes the rest of it.
pub proof fn law_slice_writer(w: SliceWriter<'_>, n: nat)
    requires
        w.filled <= w.slot@.len(),
    ensures
        w.written() == old(w.slot)@.subrange(0, w.filled as int),
        w.space() + w.filled == old(w.slot)@.len(),
        w.reported() + w.filled == old(w.slot)@.len(),
        w.honest(),
        w.tally() == w.filled,
        w.may_expose(n),
        w.exposes(n) <==> w.filled + n <= old(w.slot)@.len(),
{
    assert(w.slot@.take(w.filled as int) =~= w.slot@.subrange(0, w.filled as int));
}

/// A limit asks for and takes no more than the storage behind it and no more than is left of the
/// limit, but all of the smaller one.
pub proof fn law_limit<S: Buffer>(l: Limit<'_, S>, n: nat)
    ensures
        l.written() == old(l.storage).written(),
        l.space() <= l.remaining_capacity && l.space() <= old(l.storage).space(),
        l.space() == l.remaining_capacity || l.space() == old(l.storage).space(),
        l.reported() <= l.remaining_capacity && l.reported() <= old(l.storage).reported(),
        l.reported() == l.remaining_capacity || l.reported() == old(l.storage).reported(),
        l.honest() <==> old(l.storage).honest() || l.remaining_capacity <= old(l.storage).space(),
        l.tally() == old(l.storage).tally(),
        l.may_expose(n) <==> n <= l.remaining_capacity && old(l.storage).may_expose(n),
        l.exposes(n) <==> old(l.storage).exposes(n),
{
}

/// The smaller of two numbers is one of them and exceeds neither.
pub proof fn law_least(a: int, b: int)
    ensures
        least(a, b) <= a,
        least(a, b) <= b,
        least(a, b) == a || least(a, b) == b,
{
}

/// A counting destination changes nothing but the count.
pub proof fn law_tracked_writer<S: Buffer>(t: TrackedWriter<'_, S>, n: nat)
    ensures
        t.written() == old(t.storage).written(),
        t.space() == old(t.storage).space(),
        t.reported() == old(t.storage).reported(),
        t.honest() == old(t.storage).honest(),
        t.tally() == t.written,
        t.may_expose(n) == old(t.storage).may_expose(n),
        t.exposes(n) == old(t.storage).exposes(n),
{
}

/// A count rises by what was written, and stops at the largest number there is.
pub proof fn law_counted(count: usize, n: nat)
    ensures
        count + n <= usize::MAX ==> counted(count, n) == count + n,
        count + n > usize::MAX ==> counted(count, n) == usize::MAX,
{
}

/// A one-round destination asks for what the storage behind it asks for until something was written
/// to it, and for nothing from then on.
pub proof fn law_write_once<S: Buffer>(w: WriteOnce<'_, S>, n: nat)
    ensures
        w.written() == old(w.storage).written(),
        w.space() == old(w.storage).space(),
        !w.did_write ==> w.reported() == old(w.storage).reported(),
        w.did_write ==> w.reported() == 0,
        w.honest() == old(w.storage).honest(),
        w.tally() == old(w.storage).tally(),
        w.may_expose(n) == old(w.storage).may_expose(n),
        w.exposes(n) == old(w.storage).exposes(n),
{
}

/// A destination that always copies holds, takes and asks for what the one behind it does.
pub proof fn law_buf_mut<T: Buffer>(b: BufMut<'_, T>, n: nat)
    ensures
        b.written() == old(b.buf_mut).written(),
        b.space() == old(b.buf_mut).space(),
        b.reported() == old(b.buf_mut).reported(),
        b.honest() == old(b.buf_mut).honest(),
        b.tally() == old(b.buf_mut).tally(),
        b.may_expose(n) == old(b.buf_mut).may_expose(n),
        b.exposes(n) == old(b.buf_mut).exposes(n),
{
}

/// A copy into a destination that still asks for bytes afterwards has drained the source: the
/// destination has all of its bytes.
pub proof fn law_hungry_destination_drains<D: Buffer>(
    source: Seq<u8>,
    before: D,
    source_after: Seq<u8>,
    after: D,
)
    requires
        flowed(source, before.written(), Seq::empty(), source_after, after.written()),
        source_after.len() > 0 ==> after.reported() == 0,
        after.reported() > 0,
    ensures
        source_after.len() == 0,
        after.written() == before.written() + source,
{
    law_transfer_moves_a_prefix(source, before.written(), source_after, after.written());
    assert(source.take(source.len() as int) =~= source);
}

/// A copy of a source that fits into a vector drains the source, however many bytes the vector holds
/// already.
pub proof fn law_fitting_source_drains_into_vec(
    source: Seq<u8>,
    before: &Vec<u8>,
    source_after: Seq<u8>,
    after: &Vec<u8>,
)
    requires
        flowed(source, before.written(), Seq::empty(), source_after, after.written()),
        source_after.len() > 0 ==> after.reported() == 0,
        before@.len() + source.len() <= isize::MAX,
    ensures
        source_after.len() == 0,
        after@ == before@ + source,
{
    law_transfer_moves_a_prefix(source, before.written(), source_after, after.written());
    assert(source.take(source.len() as int) =~= source);
}

/// A copy of a source that fits into a growable buffer drains the source.
pub proof fn law_fitting_source_drains_into_bytes_mut(
    source: Seq<u8>,
    before: &BytesMut,
    source_after: Seq<u8>,
    after: &BytesMut,
)
    requires
        flowed(source, before.written(), Seq::empty(), source_after, after.written()),
        source_after.len() > 0 ==> after.reported() == 0,
        buffered(*before).len() + source.len() <= isize::MAX,
    ensures
        source_after.len() == 0,
        buffered(*after) == buffered(*before) + source,
{
    law_transfer_moves_a_prefix(source, before.written(), source_after, after.written());
    assert(source.take(source.len() as int) =~= source);
}

/// A copy of a source that fits into the rest of a slice drains the source.
pub proof fn law_fitting_source_drains_into_slice(
    source: Seq<u8>,
    before: SliceWriter<'_>,
    source_after: Seq<u8>,
    after: SliceWriter<'_>,
)
    requires
        flowed(source, before.written(), Seq::empty(), source_after, after.written()),
        source_after.len() > 0 ==> after.reported() == 0,
        before.filled + source.len() <= before.slot@.len(),
        after.filled <= after.slot@.len() == before.slot@.len(),
    ensures
        source_after.len() == 0,
        old(after.slot)@.take(after.filled as int) == old(before.slot)@.take(before.filled as int) + source,
{
    law_transfer_moves_a_prefix(source, before.written(), source_after, after.written());
    assert(source.take(source.len() as int) =~= source);
}

/// A copy of a source that fits a limit drains the source, where the storage behind the limit asks
/// for enough.
pub proof fn law_fitting_source_drains_into_limit<S: Buffer>(
    source: Seq<u8>,
    before: Limit<'_, S>,
    source_after: Seq<u8>,
    after: Limit<'_, S>,
)
    requires
        flowed(source, before.written(), Seq::empty(), source_after, after.written()),
        source_after.len() > 0 ==> after.reported() == 0,
        source.len() <= before.remaining_capacity,
        after.remaining_capacity + (source.len() - source_after.len())
            == before.remaining_capacity,
        after.remaining_capacity > 0 ==> after.storage.reported() > 0,
    ensures
        source_after.len() == 0,
        old(after.storage).written() == old(before.storage).written() + source,
{
    law_transfer_moves_a_prefix(source, before.written(), source_after, after.written());
    assert(source.take(source.len() as int) =~= source);
}

} // verus!
