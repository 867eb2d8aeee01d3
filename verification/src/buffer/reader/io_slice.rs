//! A list of slices as one source.

use core::convert::Infallible;

use vstd::prelude::*;

use crate::buffer::reader::flowed;
use crate::buffer::reader::gained;
use crate::buffer::reader::sources::shorter;
use crate::buffer::reader::runs::lemma_cut_run;
use crate::buffer::reader::runs::lemma_runs_in_a_row;
use crate::buffer::reader::runs::lemma_walk_on;
use crate::buffer::reader::runs::run_by_run;
use crate::buffer::reader::runs::walked;
use crate::buffer::reader::Buffer;
use crate::buffer::reader::Chunk;
use crate::buffer::reader::Steady;
use crate::buffer::writer;
use crate::chunks::clipped;
use crate::chunks::front_piece;
use crate::chunks::joined;
use crate::chunks::least;
use crate::chunks::lemma_clipped_drop;
use crate::chunks::lemma_joined_concat;
use crate::chunks::lemma_joined_count;
use crate::chunks::lemma_joined_cut;
use crate::chunks::lemma_joined_one;
use crate::chunks::lemma_joined_step;
use crate::chunks::lemma_solid;
use crate::chunks::lemma_solid_concat;
use crate::chunks::lemma_solid_one;
use crate::chunks::none_empty;
use crate::chunks::solid;

verus! {

/// The bytes of each slice in a list.
pub open spec fn slice_views(slices: Seq<&[u8]>) -> Seq<Seq<u8>> {
    Seq::new(slices.len(), |i: int| slices[i]@)
}

/// Reads a list of slices, one after the other.
pub struct IoSlice<'a> {
    /// What is left of the slice that is being read.
    pub head: &'a [u8],
    /// The slices after it.
    pub parts: &'a [&'a [u8]],
}

/// A list of slices spells what its first slice holds, then what the others spell.
proof fn lemma_first_part(parts: Seq<&[u8]>)
    requires
        parts.len() > 0,
    ensures
        joined(slice_views(parts)) == parts[0]@ + joined(slice_views(parts.skip(1))),
{
    let views = slice_views(parts);
    lemma_joined_cut(views, 1);
    assert(views.take(1) =~= seq![parts[0]@]);
    lemma_joined_one(parts[0]@);
    assert(views.skip(1) =~= slice_views(parts.skip(1)));
}

/// The runs of a slice that is followed by other slices, with `at` bytes of the first slice read.
proof fn lemma_head_run(head: Seq<u8>, parts: Seq<Seq<u8>>, at: int)
    requires
        0 <= at <= head.len(),
        head.len() == 0 ==> joined(parts).len() == 0,
    ensures
        solid(seq![head] + parts) == solid(seq![head]) + solid(parts),
        joined(seq![head] + parts) == head + joined(parts),
        head.len() > 0 ==> solid(seq![head] + parts) == seq![head] + solid(parts),
        head.len() == 0 ==> solid(seq![head] + parts).len() == 0,
        forall|most: int|
            least(most, head.len() as int) == at ==> #[trigger] front_piece(
                solid(seq![head] + parts),
                most,
            ) == head.take(at),
        solid(seq![head.skip(at)] + parts) == clipped(
            solid(seq![head] + parts),
            at,
            (head.len() + joined(parts).len()) as int,
        ),
{
    let one = seq![head];
    lemma_solid_concat(one, parts);
    lemma_solid_concat(seq![head.skip(at)], parts);
    lemma_solid(one);
    lemma_solid(parts);
    lemma_solid_one(head);
    lemma_joined_concat(one, parts);
    lemma_cut_run(head, at);
    lemma_runs_in_a_row(solid(one), solid(parts));
    if head.len() == 0 {
        lemma_joined_count(solid(parts));
        assert(solid(one) + solid(parts) =~= solid(one));
    }
}

impl<'a> IoSlice<'a> {
    /// Reads `parts` from the first byte of the first slice.
    pub fn new(parts: &'a [&'a [u8]]) -> (source: Self)
        ensures
            source.remaining() == joined(slice_views(parts@)),
            source.runs() == solid(slice_views(parts@)),
    {
        if parts.len() == 0 {
            let head: &'a [u8] = &[];
            proof {
                assert(head@ + joined(slice_views(parts@)) =~= joined(slice_views(parts@)));
                assert(slice_views(parts@) =~= Seq::<Seq<u8>>::empty());
                lemma_solid_one(head@);
                lemma_solid(slice_views(parts@));
                assert(seq![head@] + slice_views(parts@) =~= seq![head@]);
            }
            IoSlice { head, parts }
        } else {
            let (first, rest) = parts.split_at(1);
            proof {
                lemma_first_part(parts@);
                assert(rest@ =~= parts@.skip(1));
                assert(seq![parts@[0]@] + slice_views(rest@) =~= slice_views(parts@));
            }
            IoSlice { head: first[0], parts: rest }
        }
    }

    /// Steps over slices that have nothing left.
    fn settle(&mut self)
        ensures
            final(self).remaining() == old(self).remaining(),
            final(self).head@.len() == 0 ==> final(self).remaining().len() == 0,
            final(self).parts@.len() <= old(self).parts@.len(),
            final(self).runs() == old(self).runs(),
    {
        while self.head.len() == 0 && self.parts.len() > 0
            invariant
                self.remaining() == old(self).remaining(),
                self.parts@.len() <= old(self).parts@.len(),
                self.runs() == old(self).runs(),
            decreases self.parts@.len(),
        {
            let (first, rest) = self.parts.split_at(1);
            proof {
                lemma_first_part(self.parts@);
                assert(rest@ =~= self.parts@.skip(1));
                assert(seq![self.parts@[0]@] + slice_views(rest@) =~= slice_views(self.parts@));
                lemma_solid_concat(seq![self.head@], slice_views(self.parts@));
                lemma_solid_one(self.head@);
                assert(Seq::<Seq<u8>>::empty() + solid(slice_views(self.parts@)) =~= solid(
                    slice_views(self.parts@),
                ));
                assert(self.head@ + joined(slice_views(self.parts@)) =~= joined(
                    slice_views(self.parts@),
                ));
            }
            self.head = first[0];
            self.parts = rest;
        }
        proof {
            if self.head@.len() == 0 {
                assert(self.remaining() =~= Seq::<u8>::empty());
            }
        }
    }

    /// Whether the slices after the current one are all empty.
    fn is_last(&self) -> (last: bool)
        ensures
            last == (joined(slice_views(self.parts@)).len() == 0),
    {
        let ghost views = slice_views(self.parts@);
        let mut i: usize = 0;
        assert(views.take(0) =~= Seq::<Seq<u8>>::empty());
        while i < self.parts.len()
            invariant
                i <= self.parts.len(),
                views == slice_views(self.parts@),
                joined(views.take(i as int)).len() == 0,
            decreases self.parts.len() - i,
        {
            proof {
                lemma_joined_step(views, i as int);
            }
            if self.parts[i].len() > 0 {
                return false;
            }
            i = i + 1;
        }
        assert(views.take(i as int) =~= views);
        true
    }
}

impl<'b> Buffer for IoSlice<'b> {
    type Error = Infallible;

    open spec fn remaining(&self) -> Seq<u8> {
        self.head@ + joined(slice_views(self.parts@))
    }

    open spec fn runs(&self) -> Seq<Seq<u8>> {
        solid(seq![self.head@] + slice_views(self.parts@))
    }

    open spec fn hands_back(&self) -> bool {
        true
    }

    proof fn lemma_runs(&self) {
        let parts = slice_views(self.parts@);
        lemma_solid(seq![self.head@] + parts);
        lemma_joined_concat(seq![self.head@], parts);
        lemma_joined_one(self.head@);
    }

    open spec fn fails(&self) -> bool {
        false
    }

    open spec fn origin(&self) -> nat {
        0
    }

    fn buffered_len(&self) -> (len: usize) {
        let ghost views = slice_views(self.parts@);
        let mut len: usize = self.head.len();
        let mut i: usize = 0;
        assert(views.take(0) =~= Seq::<Seq<u8>>::empty());
        while i < self.parts.len()
            invariant
                i <= self.parts.len(),
                views == slice_views(self.parts@),
                self.head@.len() + joined(views).len() <= usize::MAX,
                len == self.head@.len() + joined(views.take(i as int)).len(),
            decreases self.parts.len() - i,
        {
            proof {
                lemma_joined_step(views, i as int);
            }
            len = len + self.parts[i].len();
            i = i + 1;
        }
        assert(views.take(i as int) =~= views);
        len
    }

    fn buffer_is_empty(&self) -> (empty: bool) {
        self.head.len() == 0 && self.is_last()
    }

    fn read_chunk(&mut self, watermark: usize) -> (result: Result<Chunk<'_>, Infallible>) {
        self.settle();
        let at: usize = shorter(self.head.len(), watermark);
        proof {
            lemma_head_run(self.head@, slice_views(self.parts@), at as int);
        }
        let ghost whole = self.head@;
        let ghost tail = joined(slice_views(self.parts@));
        let (front, rest) = self.head.split_at(at);
        proof {
            assert(whole + tail =~= front@ + (rest@ + tail));
        }
        self.head = rest;
        Ok(Chunk::Slice(front))
    }

    fn partial_copy_into<Dest>(&mut self, dest: &mut Dest) -> (result: Result<
        Chunk<'_>,
        Infallible,
    >) where Dest: writer::Buffer {
        let ghost source = self.remaining();
        let ghost before = dest.written();
        proof {
            assert(gained(before, before) =~= Seq::<u8>::empty());
            assert(before + Seq::<u8>::empty() =~= before);
            assert(source =~= Seq::<u8>::empty() + Seq::<u8>::empty() + source);
        }
        let ghost runs = self.runs();
        let ghost mut stops = seq![*dest];
        proof {
            self.lemma_runs();
            assert(runs.skip(0) =~= runs);
            assert(runs.take(0) =~= Seq::<Seq<u8>>::empty());
        }
        self.settle();
        let mut last = self.is_last();
        let mut capacity: usize = dest.remaining_capacity();
        while !last && self.head.len() < capacity
            invariant
                flowed(source, before, Seq::empty(), self.remaining(), dest.written()),
                dest.honest() || self.remaining().len() <= dest.space(),
                dest.honest() ==> capacity <= dest.space(),
                crate::buffer::reader::fed(
                    old(dest).written(),
                    old(dest).space(),
                    old(dest).reported(),
                    old(dest).honest(),
                    old(dest).tally(),
                    dest.written(),
                    dest.space(),
                    dest.reported(),
                    dest.honest(),
                    dest.tally(),
                ),
                before == old(dest).written(),
                self.head@.len() == 0 ==> self.remaining().len() == 0,
                last == (joined(slice_views(self.parts@)).len() == 0),
                capacity == dest.reported(),
                old(dest).reported() == 0 ==> capacity == 0,
                walked(runs, stops),
                stops.first() == *old(dest),
                stops.last() == *dest,
                stops.len() <= runs.len() || runs.len() == 0,
                self.runs() == runs.skip(stops.len() - 1),
                none_empty(runs),
                joined(runs) == source,
                joined(runs.take(stops.len() - 1)) == gained(before, dest.written()),
            decreases self.parts@.len(),
        {
            proof {
                assert(self.parts@.len() > 0) by {
                    if self.parts@.len() == 0 {
                        assert(slice_views(self.parts@) =~= Seq::<Seq<u8>>::empty());
                    }
                }
            }
            let ghost middle = dest.written();
            let ghost whole = self.head@;
            let ghost tail = joined(slice_views(self.parts@));
            let ghost at = stops.len() - 1;
            proof {
                lemma_head_run(whole, slice_views(self.parts@), 0);
                lemma_solid(slice_views(self.parts@));
                assert(runs.skip(at)[0] == runs[at]);
                assert(runs.skip(at + 1) =~= runs.skip(at).skip(1));
                assert((seq![whole] + solid(slice_views(self.parts@))).skip(1) =~= solid(
                    slice_views(self.parts@),
                ));
                lemma_joined_step(runs, at);
                assert(solid(slice_views(self.parts@)).len() > 0);
            }
            dest.put_slice(self.head);
            let (first, rest) = self.parts.split_at(1);
            proof {
                lemma_walk_on(runs, stops, *dest);
                stops = stops.push(*dest);
                lemma_first_part(self.parts@);
                assert(rest@ =~= self.parts@.skip(1));
                assert(seq![self.parts@[0]@] + slice_views(rest@) =~= slice_views(self.parts@));
                assert(gained(before, dest.written()) =~= gained(before, middle) + whole);
                assert(dest.written() =~= before + gained(before, dest.written()));
                assert(gained(before, middle) + Seq::<u8>::empty() + (whole + tail) =~= gained(
                    before,
                    dest.written(),
                ) + Seq::<u8>::empty() + tail);
            }
            self.head = first[0];
            self.parts = rest;
            self.settle();
            last = self.is_last();
            capacity = dest.remaining_capacity();
        }
        let at: usize = shorter(self.head.len(), capacity);
        let ghost whole = self.head@;
        let ghost tail = joined(slice_views(self.parts@));
        proof {
            let passed = stops.len() - 1;
            lemma_head_run(whole, slice_views(self.parts@), at as int);
            lemma_solid(slice_views(self.parts@));
            lemma_joined_cut(runs, passed);
            lemma_clipped_drop(runs, passed, at as int);
            if joined(slice_views(self.parts@)).len() == 0 {
                lemma_joined_count(solid(slice_views(self.parts@)));
            }
            if passed < runs.len() {
                assert(runs.skip(passed)[0] == runs[passed]);
            }
            assert(run_by_run(runs, stops, whole.take(at as int)));
        }
        let (front, rest) = self.head.split_at(at);
        proof {
            let now = gained(before, dest.written());
            assert(now + Seq::<u8>::empty() + (whole + tail) =~= now + front@ + (rest@ + tail));
        }
        self.head = rest;
        Ok(Chunk::Slice(front))
    }
}

impl<'b> Steady for IoSlice<'b> {
    proof fn lemma_never_fails(&self) {
    }
}

} // verus!
