//! How a transfer goes over the contiguous runs of a source.

use vstd::prelude::*;

use crate::buffer::writer;
use crate::buffer::writer::took;
use crate::chunks::clipped;
use crate::chunks::front_piece;
use crate::chunks::joined;
use crate::chunks::least;
use crate::chunks::lemma_clipped_concat;
use crate::chunks::lemma_clipped_one;
use crate::chunks::lemma_clipped_past;
use crate::chunks::lemma_clipped_whole;
use crate::chunks::lemma_joined_concat;
use crate::chunks::lemma_solid_one;
use crate::chunks::none_empty;
use crate::chunks::solid;

verus! {

/// A destination that took the bytes of one run.
pub open spec fn took_run<Dest: writer::Buffer>(before: Dest, run: Seq<u8>, after: Dest) -> bool {
    took(
        before.written(),
        before.space(),
        before.reported(),
        before.honest(),
        before.tally(),
        run,
        after.written(),
        after.space(),
        after.reported(),
        after.honest(),
        after.tally(),
    )
}

/// A destination that goes from each of `stops` to the next by taking the next of `runs`, whole.
/// Each of these runs is shorter than what the destination asks for when it takes the run.
pub open spec fn walked<Dest: writer::Buffer>(runs: Seq<Seq<u8>>, stops: Seq<Dest>) -> bool {
    &&& 0 < stops.len() <= runs.len() + 1
    &&& forall|i: int|
        0 <= i < stops.len() - 1 ==> {
            &&& took_run(stops[i], #[trigger] runs[i], stops[i + 1])
            &&& runs[i].len() < stops[i].reported()
        }
}

/// A destination takes runs whole until it asks for no more than the next run has, or that run is
/// the last one. What it still asks for of that run is `chunk`.
pub open spec fn run_by_run<Dest: writer::Buffer>(
    runs: Seq<Seq<u8>>,
    stops: Seq<Dest>,
    chunk: Seq<u8>,
) -> bool {
    let at = stops.len() - 1;
    &&& walked(runs, stops)
    &&& at < runs.len() || runs.len() == 0
    &&& at + 1 < runs.len() ==> stops[at].reported() <= runs[at].len()
    &&& chunk == front_piece(runs.skip(at), stops[at].reported() as int)
}

/// A source with these runs is drained into a destination that goes from `before` to `after`, run by
/// run, and `chunk` is handed back: it is not written, and is the front of the run that comes next.
pub open spec fn handed_back<Dest: writer::Buffer>(
    runs: Seq<Seq<u8>>,
    before: Dest,
    after: Dest,
    chunk: Seq<u8>,
) -> bool {
    exists|stops: Seq<Dest>|
        {
            &&& #[trigger] run_by_run(runs, stops, chunk)
            &&& stops.first() == before
            &&& stops.last() == after
        }
}

/// A walk goes on by one run.
pub(crate) proof fn lemma_walk_on<Dest: writer::Buffer>(
    runs: Seq<Seq<u8>>,
    stops: Seq<Dest>,
    next: Dest,
)
    requires
        walked(runs, stops),
        stops.len() <= runs.len(),
        took_run(stops.last(), runs[stops.len() - 1], next),
        runs[stops.len() - 1].len() < stops.last().reported(),
    ensures
        walked(runs, stops.push(next)),
        stops.push(next).first() == stops.first(),
        stops.push(next).last() == next,
{
    let onward = stops.push(next);
    assert forall|i: int| 0 <= i < onward.len() - 1 implies {
        &&& took_run(onward[i], #[trigger] runs[i], onward[i + 1])
        &&& runs[i].len() < onward[i].reported()
    } by {
        if i < stops.len() - 1 {
            assert(onward[i] == stops[i]);
            assert(onward[i + 1] == stops[i + 1]);
        }
    }
}

/// The whole of a contiguous source is its one run: the destination takes nothing.
pub(crate) proof fn lemma_one_run<Dest: writer::Buffer>(bytes: Seq<u8>, dest: Dest)
    ensures
        handed_back(
            solid(seq![bytes]),
            dest,
            dest,
            bytes.take(least(bytes.len() as int, dest.reported() as int)),
        ),
{
    let runs = solid(seq![bytes]);
    let chunk = bytes.take(least(bytes.len() as int, dest.reported() as int));
    lemma_solid_one(bytes);
    assert(runs.skip(0) =~= runs);
    assert(chunk =~= front_piece(runs, dest.reported() as int));
    assert(run_by_run(runs, seq![dest], chunk));
}

/// A contiguous source cut in two.
pub(crate) proof fn lemma_cut_run(bytes: Seq<u8>, at: int)
    requires
        0 <= at <= bytes.len(),
    ensures
        front_piece(solid(seq![bytes]), at) == bytes.take(at),
        forall|most: int|
            least(most, bytes.len() as int) == at ==> #[trigger] front_piece(
                solid(seq![bytes]),
                most,
            ) == bytes.take(at),
        solid(seq![bytes.skip(at)]) == clipped(solid(seq![bytes]), at, bytes.len() as int),
{
    let runs = solid(seq![bytes]);
    lemma_solid_one(bytes);
    lemma_solid_one(bytes.skip(at));
    assert(bytes.take(bytes.len() as int) =~= bytes);
    if bytes.len() == 0 {
        assert(bytes.take(at) =~= Seq::<u8>::empty());
    } else if at < bytes.len() {
        lemma_clipped_one(bytes, at, bytes.len() as int);
        assert(bytes.subrange(at, bytes.len() as int) =~= bytes.skip(at));
    }
}

/// A transfer that ends within the first of two lists of runs.
pub(crate) proof fn lemma_ends_early<Dest: writer::Buffer>(
    first: Seq<Seq<u8>>,
    second: Seq<Seq<u8>>,
    before: Dest,
    after: Dest,
    chunk: Seq<u8>,
)
    requires
        handed_back(first, before, after, chunk),
        first.len() > 0,
        second.len() == 0 || after.reported() == chunk.len(),
    ensures
        handed_back(first + second, before, after, chunk),
{
    let stops = choose|stops: Seq<Dest>|
        {
            &&& #[trigger] run_by_run(first, stops, chunk)
            &&& stops.first() == before
            &&& stops.last() == after
        };
    let at = stops.len() - 1;
    assert((first + second).skip(at)[0] == first[at]);
    assert(first.skip(at)[0] == first[at]);
    assert(walked(first + second, stops)) by {
        assert forall|i: int| 0 <= i < at implies {
            &&& took_run(stops[i], #[trigger] (first + second)[i], stops[i + 1])
            &&& (first + second)[i].len() < stops[i].reported()
        } by {
            assert((first + second)[i] == first[i]);
        }
    }
    assert(run_by_run(first + second, stops, chunk));
}

/// A transfer of two lists of runs, the last run of the first list written too.
pub(crate) proof fn lemma_goes_on<Dest: writer::Buffer>(
    first: Seq<Seq<u8>>,
    second: Seq<Seq<u8>>,
    before: Dest,
    middle: Dest,
    onward: Dest,
    after: Dest,
    held: Seq<u8>,
    chunk: Seq<u8>,
)
    requires
        handed_back(first, before, middle, held),
        first.len() > 0,
        held.len() < middle.reported(),
        took_run(middle, held, onward),
        handed_back(second, onward, after, chunk),
        second.len() > 0,
    ensures
        handed_back(first + second, before, after, chunk),
{
    let early = choose|stops: Seq<Dest>|
        {
            &&& #[trigger] run_by_run(first, stops, held)
            &&& stops.first() == before
            &&& stops.last() == middle
        };
    let late = choose|stops: Seq<Dest>|
        {
            &&& #[trigger] run_by_run(second, stops, chunk)
            &&& stops.first() == onward
            &&& stops.last() == after
        };
    let runs = first + second;
    let stops = early + late;
    let split = early.len() as int;
    assert(first.skip(split - 1)[0] == first[split - 1]);
    assert(split == first.len());
    assert(held == first[split - 1]);
    assert(walked(runs, stops)) by {
        assert forall|i: int| 0 <= i < stops.len() - 1 implies {
            &&& took_run(stops[i], #[trigger] runs[i], stops[i + 1])
            &&& runs[i].len() < stops[i].reported()
        } by {
            if i < split - 1 {
                assert(runs[i] == first[i]);
            } else if i >= split {
                assert(runs[i] == second[i - split]);
                assert(stops[i + 1] == late[i - split + 1]);
            }
        }
    }
    let at = late.len() - 1;
    assert(runs.skip(stops.len() - 1) =~= second.skip(at));
    assert(runs[stops.len() - 1] == second[at]);
    assert(run_by_run(runs, stops, chunk));
    assert(stops.first() == before);
    assert(stops.last() == after);
}

/// Two lists of runs in a row, read from the front.
pub(crate) proof fn lemma_runs_in_a_row(first: Seq<Seq<u8>>, second: Seq<Seq<u8>>)
    requires
        none_empty(first),
        none_empty(second),
    ensures
        joined(first + second) == joined(first) + joined(second),
        first.len() > 0 ==> forall|most: int| #[trigger]
            front_piece(first + second, most) == front_piece(first, most),
        forall|at: int|
            0 <= at <= joined(first).len() ==> #[trigger] clipped(
                first + second,
                at,
                (joined(first).len() + joined(second).len()) as int,
            ) == clipped(first, at, joined(first).len() as int) + second,
        forall|at: int|
            0 <= at <= joined(second).len() ==> clipped(
                first + second,
                joined(first).len() + at,
                (joined(first).len() + joined(second).len()) as int,
            ) == #[trigger] clipped(second, at, joined(second).len() as int),
{
    let end = (joined(first).len() + joined(second).len()) as int;
    lemma_joined_concat(first, second);
    lemma_clipped_whole(second);
    assert forall|at: int| 0 <= at <= joined(first).len() implies #[trigger] clipped(
        first + second,
        at,
        end,
    ) == clipped(first, at, joined(first).len() as int) + second by {
        lemma_clipped_concat(first, second, at, end);
        lemma_clipped_past(first, at, end);
    }
    assert forall|at: int| 0 <= at <= joined(second).len() implies clipped(
        first + second,
        joined(first).len() + at,
        end,
    ) == #[trigger] clipped(second, at, joined(second).len() as int) by {
        lemma_clipped_concat(first, second, joined(first).len() + at, end);
        lemma_clipped_past(first, joined(first).len() + at, end);
        assert(clipped(first, joined(first).len() + at, end) =~= Seq::<Seq<u8>>::empty());
        assert(Seq::<Seq<u8>>::empty() + clipped(second, at, joined(second).len() as int)
            =~= clipped(second, at, joined(second).len() as int));
    }
}

} // verus!
