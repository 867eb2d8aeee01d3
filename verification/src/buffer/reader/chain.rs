//! Two sources, one after the other.

use core::convert::Infallible;

use vstd::prelude::*;

use crate::buffer::reader::gained;
use crate::buffer::reader::runs::handed_back;
use crate::buffer::reader::runs::lemma_ends_early;
use crate::buffer::reader::runs::lemma_goes_on;
use crate::buffer::reader::runs::lemma_runs_in_a_row;
use crate::buffer::reader::Buffer;
use crate::buffer::reader::Chunk;
use crate::buffer::reader::Steady;
use crate::buffer::writer;
use crate::chunks::clipped;
use crate::chunks::front_piece;
use crate::chunks::joined;
use crate::chunks::lemma_joined_concat;
use crate::chunks::lemma_joined_count;
use crate::chunks::lemma_none_empty_concat;
use crate::chunks::none_empty;

verus! {

/// Reads the first source, then the second.
pub struct Chain<A, B> {
    /// The source that is read first.
    pub first: A,
    /// The source that is read once the first is drained.
    pub second: B,
}

impl<A, B> Chain<A, B> where A: Buffer<Error = Infallible>, B: Buffer<Error = Infallible> {
    /// Chains two sources.
    pub fn new(first: A, second: B) -> (chain: Self)
        ensures
            chain.first == first,
            chain.second == second,
    {
        Chain { first, second }
    }
}

impl<A, B> Buffer for Chain<A, B> where
    A: Buffer<Error = Infallible>,
    B: Buffer<Error = Infallible>,
 {
    type Error = Infallible;

    open spec fn remaining(&self) -> Seq<u8> {
        self.first.remaining() + self.second.remaining()
    }

    open spec fn runs(&self) -> Seq<Seq<u8>> {
        self.first.runs() + self.second.runs()
    }

    open spec fn hands_back(&self) -> bool {
        self.first.hands_back() && self.second.hands_back()
    }

    proof fn lemma_runs(&self) {
        self.first.lemma_runs();
        self.second.lemma_runs();
        lemma_none_empty_concat(self.first.runs(), self.second.runs());
        lemma_joined_concat(self.first.runs(), self.second.runs());
    }

    open spec fn fails(&self) -> bool {
        self.first.fails() || self.second.fails()
    }

    open spec fn origin(&self) -> nat {
        0
    }

    fn buffered_len(&self) -> (len: usize) {
        self.first.buffered_len() + self.second.buffered_len()
    }

    fn buffer_is_empty(&self) -> (empty: bool) {
        self.first.buffer_is_empty() && self.second.buffer_is_empty()
    }

    fn read_chunk(&mut self, watermark: usize) -> (result: Result<Chunk<'_>, Infallible>) {
        let ghost first = self.first.remaining();
        let ghost second = self.second.remaining();
        proof {
            lemma_chained(self.first, self.second);
        }
        if self.first.buffer_is_empty() {
            proof {
                assert(first + second =~= second);
                assert forall|c: Seq<u8>, r: Seq<u8>| second == #[trigger] (c + r) implies second
                    == c + (first + r) by {
                    assert(first + r =~= r);
                }
            }
            self.second.read_chunk(watermark)
        } else {
            proof {
                assert forall|c: Seq<u8>, r: Seq<u8>| first == #[trigger] (c + r) implies first
                    + second == c + (r + second) by {
                    assert((c + r) + second =~= c + (r + second));
                }
                assert(first + second =~= first + second);
            }
            self.first.read_chunk(watermark)
        }
    }

    fn partial_copy_into<Dest>(&mut self, dest: &mut Dest) -> (result: Result<
        Chunk<'_>,
        Infallible,
    >) where Dest: writer::Buffer {
        let ghost first = self.first.remaining();
        let ghost second = self.second.remaining();
        let ghost before = dest.written();
        let ghost start = *dest;
        let ghost early_runs = self.first.runs();
        let ghost late_runs = self.second.runs();
        proof {
            lemma_chained(self.first, self.second);
            assert(gained(before, before) =~= Seq::<u8>::empty());
            assert(before + Seq::<u8>::empty() =~= before);
            assert(first =~= Seq::<u8>::empty() + Seq::<u8>::empty() + first);
        }
        if !self.first.buffer_is_empty() {
            match self.first.partial_copy_into(dest) {
                Ok(chunk) => {
                    let ghost held = chunk@;
                    let ghost middle = dest.written();
                    let full = dest.remaining_capacity() == chunk.len();
                    if full || self.second.buffer_is_empty() {
                        proof {
                            lemma_carry(gained(before, middle), held, first, second);
                            if handed_back(early_runs, start, *dest, held) {
                                lemma_ends_early(early_runs, late_runs, start, *dest, held);
                            }
                        }
                        return Ok(chunk);
                    }
                    let ghost reached = *dest;
                    if !chunk.is_empty() {
                        dest.put_chunk(chunk);
                    }
                    proof {
                        if handed_back(early_runs, start, reached, held) {
                            let onward = *dest;
                            assert forall|after: Dest, tail: Seq<u8>|
                                #[trigger] handed_back(late_runs, onward, after, tail) implies
                                handed_back(early_runs + late_runs, start, after, tail) by {
                                lemma_goes_on(
                                    early_runs,
                                    late_runs,
                                    start,
                                    reached,
                                    onward,
                                    after,
                                    held,
                                    tail,
                                );
                            }
                        }
                        assert(gained(before, dest.written()) =~= gained(before, middle) + held);
                        assert(dest.written() =~= before + gained(before, dest.written()));
                        if held.len() == 0 {
                            assert(dest.written() =~= middle);
                        }
                    }
                },
                Err(error) => {
                    proof {
                        lemma_carry(
                            gained(before, dest.written()),
                            Seq::empty(),
                            first,
                            second,
                        );
                    }
                    return Err(error);
                },
            }
        }
        let ghost middle = dest.written();
        let ghost early = gained(before, middle);
        assert(first =~= early);
        proof {
            assert forall|after: Seq<u8>, held: Seq<u8>, rest: Seq<u8>|
                #[trigger] crate::buffer::reader::flowed(second, middle, held, rest, after) implies {
                &&& after == before + gained(before, after)
                &&& first + second == gained(before, after) + held + rest
                &&& after.len() - before.len() == (after.len() - middle.len()) + early.len()
            } by {
                assert(gained(before, after) =~= early + gained(middle, after));
                assert(after =~= before + gained(before, after));
                assert(first + (gained(middle, after) + held + rest) =~= gained(before, after)
                    + held + rest);
            }
            assert forall|rest: Seq<u8>| rest == #[trigger] (Seq::<u8>::empty() + rest) by {
                assert(rest =~= Seq::<u8>::empty() + rest);
            }
        }
        self.second.partial_copy_into(dest)
    }
}

/// The runs of two sources, one after the other.
pub(crate) proof fn lemma_chained<A: Buffer, B: Buffer>(first: A, second: B)
    ensures
        none_empty(first.runs()),
        none_empty(second.runs()),
        joined(first.runs()) == first.remaining(),
        joined(second.runs()) == second.remaining(),
        first.remaining().len() > 0 ==> first.runs().len() > 0,
        second.remaining().len() > 0 ==> second.runs().len() > 0,
        first.remaining().len() == 0 ==> first.runs() + second.runs() == second.runs(),
        second.remaining().len() == 0 ==> second.runs().len() == 0,
        first.runs().len() > 0 ==> forall|most: int| #[trigger]
            front_piece(first.runs() + second.runs(), most) == front_piece(first.runs(), most),
        forall|at: int|
            0 <= at <= first.remaining().len() ==> #[trigger] clipped(
                first.runs() + second.runs(),
                at,
                (first.remaining().len() + second.remaining().len()) as int,
            ) == clipped(first.runs(), at, first.remaining().len() as int) + second.runs(),
        forall|at: int|
            0 <= at <= second.remaining().len() ==> clipped(
                first.runs() + second.runs(),
                first.remaining().len() + at,
                (first.remaining().len() + second.remaining().len()) as int,
            ) == #[trigger] clipped(second.runs(), at, second.remaining().len() as int),
{
    first.lemma_runs();
    second.lemma_runs();
    lemma_runs_in_a_row(first.runs(), second.runs());
    lemma_joined_count(first.runs());
    lemma_joined_count(second.runs());
    if first.runs().len() == 0 {
        assert(first.runs() + second.runs() =~= second.runs());
    }
}

/// What the first source keeps is followed by the second source.
pub(crate) proof fn lemma_carry(gain: Seq<u8>, held: Seq<u8>, first: Seq<u8>, second: Seq<u8>)
    ensures
        forall|rest: Seq<u8>|
            first == #[trigger] (gain + held + rest) ==> first + second == gain + held + (rest
                + second),
{
    assert forall|rest: Seq<u8>| first == #[trigger] (gain + held + rest) implies first + second
        == gain + held + (rest + second) by {
        assert(first + second =~= gain + held + (rest + second));
    }
}

impl<A, B> Steady for Chain<A, B> where A: Steady, B: Steady {
    proof fn lemma_never_fails(&self) {
        self.first.lemma_never_fails();
        self.second.lemma_never_fails();
    }
}

} // verus!
