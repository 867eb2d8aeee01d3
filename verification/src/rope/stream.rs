//! Ropes as byte sources and destinations.

use core::convert::Infallible;

use bytes::Bytes;
use bytes::BytesMut;

use vstd::prelude::*;

use crate::buffer::reader;
use crate::buffer::reader::fed;
use crate::buffer::reader::gained;
use crate::buffer::reader::io_slice::slice_views;
use crate::buffer::reader::runs::handed_back;
use crate::buffer::reader::runs::lemma_walk_on;
use crate::buffer::reader::runs::run_by_run;
use crate::buffer::reader::runs::walked;
use crate::buffer::reader::sources::shorter;
use crate::buffer::reader::Buffer;
use crate::buffer::reader::Chunk;
use crate::buffer::reader::Infallible as _;
use crate::buffer::reader::IoSlice;
use crate::buffer::reader::Steady;
use crate::buffer::writer;
use crate::buffer::writer::filled_by;
use crate::buffer::writer::slice::overwrite_slice;
use crate::chunks::clipped;
use crate::chunks::front_piece;
use crate::chunks::joined;
use crate::chunks::lemma_clipped_drop;
use crate::chunks::lemma_clipped_full;
use crate::chunks::lemma_clipped_twice;
use crate::chunks::lemma_clipped_whole;
use crate::chunks::lemma_joined_at;
use crate::chunks::lemma_joined_step;
use crate::chunks::lemma_none_empty_concat;
use crate::chunks::lemma_solid;
use crate::chunks::none_empty;
use crate::chunks::solid;
use crate::rope::byte_rope::ByteRope;
use crate::shared::buffered;
use crate::shared::chunk_slice;
use crate::shared::contents;
use crate::shared::frozen;

verus! {

/// The run that a transfer has come to, with `at` runs behind it.
proof fn lemma_run_at(runs: Seq<Seq<u8>>, at: int)
    requires
        none_empty(runs),
        0 <= at < runs.len(),
    ensures
        runs.skip(at)[0] == runs[at],
        runs.skip(at).skip(1) == runs.skip(at + 1),
        runs[at].len() > 0,
        at + 1 < runs.len() ==> runs[at].len() < joined(runs.skip(at)).len(),
        joined(runs.take(at + 1)) == joined(runs.take(at)) + runs[at],
{
    let left = runs.skip(at);
    assert(left.skip(1) =~= runs.skip(at + 1));
    assert(left.take(0) =~= Seq::<Seq<u8>>::empty());
    lemma_joined_at(left, 0);
    lemma_joined_step(runs, at);
    if at + 1 < runs.len() {
        lemma_joined_at(left.skip(1), 0);
        assert(left.skip(1)[0] == runs[at + 1]);
    }
}

/// What a transfer leaves of the runs that it has come to, with `at` runs behind it, when it takes
/// `count` more bytes.
proof fn lemma_runs_left(runs: Seq<Seq<u8>>, at: int, count: int)
    requires
        none_empty(runs),
        0 <= at <= runs.len(),
        0 <= count <= joined(runs.skip(at)).len(),
    ensures
        solid(runs) == runs,
        joined(runs).len() == joined(runs.take(at)).len() + joined(runs.skip(at)).len(),
        ({
            let left = clipped(runs.skip(at), count, joined(runs.skip(at)).len() as int);
            &&& left == clipped(
                runs,
                joined(runs.take(at)).len() + count,
                joined(runs).len() as int,
            )
            &&& solid(left) == left
        }),
        count == 0 ==> clipped(runs.skip(at), 0, joined(runs.skip(at)).len() as int) == runs.skip(
            at,
        ),
{
    let rest = runs.skip(at);
    lemma_solid(runs);
    lemma_clipped_drop(runs, at, count);
    lemma_clipped_full(rest, count, joined(rest).len() as int);
    lemma_solid(clipped(rest, count, joined(rest).len() as int));
    lemma_none_empty_concat(runs.take(at), rest);
    assert(runs.take(at) + rest =~= runs);
    lemma_clipped_whole(rest);
}

impl reader::Buffer for ByteRope {
    type Error = Infallible;

    open spec fn remaining(&self) -> Seq<u8> {
        self@
    }

    open spec fn runs(&self) -> Seq<Seq<u8>> {
        solid(self.chunk_list())
    }

    open spec fn hands_back(&self) -> bool {
        true
    }

    proof fn lemma_runs(&self) {
        lemma_solid(self.chunk_list());
    }

    open spec fn fails(&self) -> bool {
        false
    }

    open spec fn origin(&self) -> nat {
        0
    }

    fn buffered_len(&self) -> (len: usize) {
        self.len()
    }

    fn buffer_is_empty(&self) -> (empty: bool) {
        self.is_empty()
    }

    fn read_chunk(&mut self, watermark: usize) -> (result: Result<Chunk<'_>, Infallible>)
        ensures
            match result {
                Ok(Chunk::Bytes(chunk)) => {
                    &&& contents(chunk) == front_piece(old(self).chunk_list(), watermark as int)
                    &&& final(self).chunk_list() == clipped(
                        old(self).chunk_list(),
                        contents(chunk).len() as int,
                        old(self)@.len() as int,
                    )
                },
                _ => false,
            },
    {
        // The count also tells that no chunk is empty.
        let _count: usize = self.chunk_count();
        let ghost list = self.chunk_list();
        let chunk = self.read_chunk_bytes(watermark);
        proof {
            lemma_solid(list);
            lemma_clipped_full(list, contents(chunk).len() as int, joined(list).len() as int);
            lemma_solid(self.chunk_list());
        }
        Ok(Chunk::Bytes(chunk))
    }

    #[verifier::rlimit(40)]
    fn partial_copy_into<Dest>(&mut self, dest: &mut Dest) -> (result: Result<
        Chunk<'_>,
        Infallible,
    >) where Dest: writer::Buffer
        ensures
            result matches Ok(chunk) && handed_back(
                old(self).chunk_list(),
                *old(dest),
                *final(dest),
                chunk@,
            ),
            final(self).chunk_list() == clipped(
                old(self).chunk_list(),
                old(self)@.len() - final(self)@.len(),
                old(self)@.len() as int,
            ),
    {
        let ghost source = self@;
        let ghost first = dest.written();
        let ghost mut moved = Seq::<u8>::empty();
        let ghost runs = self.chunk_list();
        let ghost mut stops = seq![*dest];
        // The count also tells that no chunk is empty.
        let _count: usize = self.chunk_count();
        proof {
            assert(first + moved =~= first);
            assert(moved + self@ =~= source);
            assert(runs.skip(0) =~= runs);
            assert(runs.take(0) =~= Seq::<Seq<u8>>::empty());
        }
        loop
            invariant
                source.len() <= usize::MAX,
                source == moved + self@,
                dest.written() == first + moved,
                dest.honest() || self@.len() <= dest.space(),
                first == old(dest).written(),
                source == old(self)@,
                fed(
                    old(dest).written(),
                    old(dest).space(),
                    old(dest).reported(),
                    old(dest).honest(),
                    old(dest).tally(),
                    dest.written(),
                    dest.space(),
                    dest.reported(),
                    dest.honest(),
                    dest.tally(),
                ),
                runs == old(self).chunk_list(),
                none_empty(runs),
                joined(runs) == source,
                walked(runs, stops),
                stops.first() == *old(dest),
                stops.last() == *dest,
                stops.len() <= runs.len() || runs.len() == 0,
                self.chunk_list() == runs.skip(stops.len() - 1),
                joined(runs.take(stops.len() - 1)) == moved,
            decreases self@.len(),
        {
            assert(gained(first, dest.written()) =~= moved);
            let ghost before = self@;
            let ghost at = stops.len() - 1;
            let capacity: usize = dest.remaining_capacity();
            let front: usize = match self.front_chunk_len() {
                Some(len) => len,
                None => {
                    proof {
                        assert(self@ =~= Seq::<u8>::empty());
                        assert(moved + Seq::<u8>::empty() + self@ =~= source);
                        lemma_runs_left(runs, at, 0);
                        assert(run_by_run(runs, stops, Seq::<u8>::empty()));
                    }
                    return Ok(Chunk::empty());
                },
            };
            proof {
                lemma_run_at(runs, at);
            }
            if front >= capacity || front == self.len() {
                let chunk = self.read_chunk_bytes(capacity);
                proof {
                    assert(moved + contents(chunk) + self@ =~= source);
                    assert(run_by_run(runs, stops, contents(chunk)));
                    lemma_runs_left(runs, at, contents(chunk).len() as int);
                }
                return Ok(Chunk::Bytes(chunk));
            }
            if let Some(chunk) = self.pop_front() {
                proof {
                    assert(contents(chunk).len() == front);
                    assert(moved + contents(chunk) + self@ =~= moved + before);
                    assert(first + (moved + contents(chunk)) =~= first + moved + contents(chunk));
                    moved = moved + contents(chunk);
                    assert(contents(chunk) == runs[at]);
                    assert(self.chunk_list() =~= runs.skip(at + 1));
                }
                dest.put_bytes(chunk);
                proof {
                    lemma_walk_on(runs, stops, *dest);
                    stops = stops.push(*dest);
                    if self.chunk_list().len() == 0 {
                        assert(self@.len() == 0);
                        assert(false);
                    }
                }
            }
        }
    }
}

impl Steady for ByteRope {
    proof fn lemma_never_fails(&self) {
    }
}

impl writer::Buffer for ByteRope {
    const SPECIALIZES_BYTES: bool = true;

    open spec fn written(&self) -> Seq<u8> {
        self@
    }

    open spec fn space(&self) -> int {
        usize::MAX - self@.len()
    }

    open spec fn reported(&self) -> nat {
        usize::MAX as nat
    }

    open spec fn honest(&self) -> bool {
        false
    }

    open spec fn tally(&self) -> nat {
        self@.len()
    }

    open spec fn may_expose(&self, n: nat) -> bool {
        true
    }

    open spec fn exposes(&self, n: nat) -> bool {
        n == 0
    }

    fn put_slice(&mut self, bytes: &[u8])
        ensures
            final(self).chunk_list() == if bytes@.len() == 0 {
                old(self).chunk_list()
            } else {
                old(self).chunk_list().push(bytes@)
            },
    {
        if bytes.len() == 0 {
            assert(self@ + bytes@ =~= self@);
            return;
        }
        self.push_back(Bytes::copy_from_slice(bytes));
    }

    fn put_uninit_slice<F, E>(&mut self, payload_len: usize, f: F) -> (result: Result<
        Option<usize>,
        E,
    >) where F: FnOnce(&mut [u8]) -> Result<usize, E> {
        if payload_len > 0 {
            return Ok(None);
        }
        match filled_by(payload_len, f) {
            Ok(exposed) => {
                assert(self@.skip(self@.len() as int) =~= Seq::<u8>::empty());
                assert(self@ + exposed@ =~= self@);
                Ok(Some(0))
            },
            Err(error) => Err(error),
        }
    }

    fn remaining_capacity(&self) -> (capacity: usize)
        ensures
            capacity == usize::MAX,
    {
        usize::MAX
    }

    fn has_remaining_capacity(&self) -> (has: bool) {
        true
    }

    fn put_bytes(&mut self, bytes: Bytes)
        ensures
            final(self).chunk_list() == if contents(bytes).len() == 0 {
                old(self).chunk_list()
            } else {
                old(self).chunk_list().push(contents(bytes))
            },
    {
        self.push_back(bytes);
    }

    fn put_bytes_mut(&mut self, bytes: BytesMut)
        ensures
            final(self).chunk_list() == if buffered(bytes).len() == 0 {
                old(self).chunk_list()
            } else {
                old(self).chunk_list().push(buffered(bytes))
            },
    {
        self.push_back(frozen(bytes));
    }

    fn put_chunk(&mut self, chunk: Chunk<'_>)
        ensures
            final(self).chunk_list() == if chunk@.len() == 0 {
                old(self).chunk_list()
            } else {
                old(self).chunk_list().push(chunk@)
            },
    {
        match chunk {
            Chunk::Slice(slice) => self.put_slice(slice),
            Chunk::Bytes(bytes) => self.put_bytes(bytes),
            Chunk::BytesMut(bytes) => self.put_bytes_mut(bytes),
        }
    }
}

impl ByteRope {
    /// Moves bytes from the front of the rope to the front of `out`, as many as there are and fit.
    /// Returns how many.
    pub fn read(&mut self, out: &mut [u8]) -> (count: usize)
        ensures
            count == if old(self)@.len() <= old(out)@.len() {
                old(self)@.len()
            } else {
                old(out)@.len()
            },
            final(out)@ == old(self)@.take(count as int) + old(out)@.skip(count as int),
            final(self)@ == old(self)@.skip(count as int),
            final(self).chunk_list() == clipped(
                old(self).chunk_list(),
                count as int,
                old(self)@.len() as int,
            ),
    {
        let ghost whole = self@;
        let ghost list = self.chunk_list();
        // The count also tells that no chunk is empty.
        let _count: usize = self.chunk_count();
        let ghost before = out@;
        let want: usize = shorter(self.len(), out.len());
        let mut done: usize = 0;
        proof {
            assert(whole.take(0) + before.skip(0) =~= before);
            assert(whole.skip(0) =~= whole);
            lemma_clipped_whole(list);
        }
        while done < want
            invariant
                done <= want,
                want <= whole.len(),
                want <= before.len(),
                out@ == whole.take(done as int) + before.skip(done as int),
                self@ == whole.skip(done as int),
                whole == joined(list),
                self.chunk_list() == clipped(list, done as int, whole.len() as int),
            decreases want - done,
        {
            let ghost left = self@;
            let ghost target = out@;
            let chunk = self.read_chunk_bytes(want - done);
            let size: usize = chunk.len();
            proof {
                assert(0 < size <= want - done);
            }
            let (_, rest) = out.split_at_mut(done);
            let (slot, _) = rest.split_at_mut(size);
            overwrite_slice(slot, chunk_slice(&chunk));
            proof {
                assert(out@ =~= target.take(done as int) + contents(chunk) + target.skip(
                    done + size,
                ));
                assert(contents(chunk) =~= left.take(size as int));
                assert(out@ =~= whole.take(done + size) + before.skip(done + size));
                assert(self@ =~= left.skip(size as int));
                assert(self@ =~= whole.skip(done + size));
                lemma_clipped_twice(
                    list,
                    done as int,
                    whole.len() as int,
                    size as int,
                    whole.len() - done,
                );
            }
            done = done + size;
        }
        done
    }

    /// Appends the bytes of several slices as one chunk. Returns how many.
    pub fn write_vectored(&mut self, parts: &[&[u8]]) -> (count: usize)
        requires
            joined(slice_views(parts@)).len() <= isize::MAX,
            old(self)@.len() + joined(slice_views(parts@)).len() <= usize::MAX,
        ensures
            count == joined(slice_views(parts@)).len(),
            final(self)@ == old(self)@ + joined(slice_views(parts@)),
            final(self).chunk_list() == if count == 0 {
                old(self).chunk_list()
            } else {
                old(self).chunk_list().push(joined(slice_views(parts@)))
            },
    {
        let ghost added = joined(slice_views(parts@));
        let mut source = IoSlice::new(parts);
        let len: usize = source.buffered_len();
        let mut buffer = BytesMut::with_capacity(len);
        let ghost empty = buffered(buffer);
        source.infallible_copy_into(&mut buffer);
        proof {
            let moved = gained(empty, buffered(buffer));
            assert(empty + moved =~= moved);
            assert(moved + Seq::<u8>::empty() + source.remaining() =~= moved + source.remaining());
            if source.remaining().len() > 0 {
                assert(buffered(buffer).len() < added.len());
                assert(false);
            }
            assert(moved + source.remaining() =~= moved);
        }
        self.push_back(frozen(buffer));
        len
    }

    /// A source over the rope's bytes that leaves the rope as it is.
    pub fn reader(&self) -> (reader: Reader)
        ensures
            reader.remaining() == self@,
            reader.inner.chunk_list() == self.chunk_list(),
    {
        Reader { inner: self.clone() }
    }
}

/// Reads the bytes of a rope without taking them from it.
pub struct Reader {
    /// A rope over the same chunks, from which the bytes are taken.
    pub inner: ByteRope,
}

impl Reader {
    /// The number of bytes that are still to be read.
    pub fn len(&self) -> (len: usize)
        ensures
            len == self.remaining().len(),
    {
        self.inner.len()
    }

    /// Whether no bytes are left to read.
    pub fn is_empty(&self) -> (empty: bool)
        ensures
            empty == (self.remaining().len() == 0),
    {
        self.inner.is_empty()
    }

    /// Takes the next chunk, or `None` if none are left.
    pub fn next(&mut self) -> (chunk: Option<Bytes>)
        ensures
            match chunk {
                Some(chunk) => {
                    &&& contents(chunk).len() > 0
                    &&& old(self).inner.chunk_list() == seq![contents(chunk)]
                        + final(self).inner.chunk_list()
                    &&& old(self).remaining() == contents(chunk) + final(self).remaining()
                },
                None => {
                    &&& old(self).remaining().len() == 0
                    &&& final(self).remaining() == old(self).remaining()
                },
            },
    {
        self.inner.pop_front()
    }
}

impl reader::Buffer for Reader {
    type Error = Infallible;

    open spec fn remaining(&self) -> Seq<u8> {
        self.inner@
    }

    open spec fn runs(&self) -> Seq<Seq<u8>> {
        solid(self.inner.chunk_list())
    }

    open spec fn hands_back(&self) -> bool {
        true
    }

    proof fn lemma_runs(&self) {
        lemma_solid(self.inner.chunk_list());
    }

    open spec fn fails(&self) -> bool {
        false
    }

    open spec fn origin(&self) -> nat {
        0
    }

    fn buffered_len(&self) -> (len: usize) {
        self.inner.len()
    }

    fn buffer_is_empty(&self) -> (empty: bool) {
        self.inner.is_empty()
    }

    fn read_chunk(&mut self, watermark: usize) -> (result: Result<Chunk<'_>, Infallible>)
        ensures
            match result {
                Ok(Chunk::Bytes(chunk)) => {
                    &&& contents(chunk) == front_piece(
                        old(self).inner.chunk_list(),
                        watermark as int,
                    )
                    &&& final(self).inner.chunk_list() == clipped(
                        old(self).inner.chunk_list(),
                        contents(chunk).len() as int,
                        old(self).inner@.len() as int,
                    )
                },
                _ => false,
            },
    {
        self.inner.read_chunk(watermark)
    }

    fn partial_copy_into<Dest>(&mut self, dest: &mut Dest) -> (result: Result<
        Chunk<'_>,
        Infallible,
    >) where Dest: writer::Buffer
        ensures
            result matches Ok(chunk) && handed_back(
                old(self).inner.chunk_list(),
                *old(dest),
                *final(dest),
                chunk@,
            ),
            final(self).inner.chunk_list() == clipped(
                old(self).inner.chunk_list(),
                old(self).inner@.len() - final(self).inner@.len(),
                old(self).inner@.len() as int,
            ),
    {
        self.inner.partial_copy_into(dest)
    }
}

impl Steady for Reader {
    proof fn lemma_never_fails(&self) {
    }
}

} // verus!
