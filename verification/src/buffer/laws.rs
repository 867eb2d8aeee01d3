//! What holds of every transfer between a source and a destination.

use vstd::prelude::*;

use crate::buffer::reader::fed;
use crate::buffer::reader::flowed;
use crate::buffer::reader;
use crate::buffer::reader::Buffer as _;
use crate::buffer::reader::gained;
use crate::buffer::reader::runs::handed_back;
use crate::buffer::reader::runs::run_by_run;
use crate::buffer::reader::runs::took_run;
use crate::buffer::reader::runs::walked;
use crate::buffer::reader::TrackedReader;
use crate::buffer::writer::Buffer;
use crate::buffer::writer::Limit;
use crate::buffer::writer::TrackedWriter;
use crate::buffer::writer::WriteOnce;
use crate::chunks::front_piece;
use crate::chunks::joined;
use crate::chunks::lemma_joined_step;
use crate::chunks::none_empty;

verus! {

/// A transfer moves the first bytes of the source to the end of the destination: none is lost, none
/// is made up, and their order stays.
pub proof fn law_transfer_moves_a_prefix(
    source: Seq<u8>,
    dest: Seq<u8>,
    source_after: Seq<u8>,
    dest_after: Seq<u8>,
)
    requires
        flowed(source, dest, Seq::empty(), source_after, dest_after),
    ensures
        ({
            let moved = source.len() - source_after.len();
            &&& 0 <= moved
            &&& source_after == source.skip(moved)
            &&& dest_after == dest + source.take(moved)
        }),
{
    let moved = source.len() - source_after.len();
    let gain = gained(dest, dest_after);
    assert(gain + Seq::<u8>::empty() + source_after =~= gain + source_after);
    assert(source.take(moved) =~= gain);
    assert(source_after =~= source.skip(moved));
}

/// A partial copy, followed by a write of the chunk that it returns, is a copy.
pub proof fn law_partial_copy_then_write(
    source: Seq<u8>,
    dest: Seq<u8>,
    held: Seq<u8>,
    source_after: Seq<u8>,
    dest_after: Seq<u8>,
)
    requires
        flowed(source, dest, held, source_after, dest_after),
    ensures
        flowed(source, dest, Seq::empty(), source_after, dest_after + held),
{
    let all = dest_after + held;
    assert(gained(dest, all) =~= gained(dest, dest_after) + held);
    assert(all =~= dest + gained(dest, all));
    assert(gained(dest, all) + Seq::<u8>::empty() + source_after =~= gained(dest, dest_after) + held
        + source_after);
}

/// A destination that asks for nothing gets nothing, and the source keeps everything.
pub proof fn law_no_demand_no_transfer(
    source: Seq<u8>,
    dest: Seq<u8>,
    source_after: Seq<u8>,
    dest_after: Seq<u8>,
    space: int,
    honest: bool,
    tally: nat,
    space_after: int,
    reported_after: nat,
    honest_after: bool,
    tally_after: nat,
)
    requires
        flowed(source, dest, Seq::empty(), source_after, dest_after),
        fed(
            dest,
            space,
            0,
            honest,
            tally,
            dest_after,
            space_after,
            reported_after,
            honest_after,
            tally_after,
        ),
    ensures
        dest_after == dest,
        source_after == source,
{
    law_transfer_moves_a_prefix(source, dest, source_after, dest_after);
    assert(dest_after.len() == dest.len() + (source.len() - source_after.len()));
    assert(source.skip(0) =~= source);
}

/// No transfer gets more bytes past a limit than the limit allows.
pub proof fn law_limit_holds<S: Buffer>(before: Limit<'_, S>, after: Limit<'_, S>)
    requires
        fed(
            before.written(),
            before.space(),
            before.reported(),
            before.honest(),
            before.tally(),
            after.written(),
            after.space(),
            after.reported(),
            after.honest(),
            after.tally(),
        ),
        after.space() >= 0,
    ensures
        after.written().len() - before.written().len() <= before.remaining_capacity,
{
}

/// A counting destination counts exactly what a transfer writes to it.
pub proof fn law_tracker_counts<S: Buffer>(before: TrackedWriter<'_, S>, after: TrackedWriter<'_, S>)
    requires
        fed(
            before.written(),
            before.space(),
            before.reported(),
            before.honest(),
            before.tally(),
            after.written(),
            after.space(),
            after.reported(),
            after.honest(),
            after.tally(),
        ),
        before.written + (after.written().len() - before.written().len()) <= usize::MAX,
    ensures
        after.written - before.written == after.written().len() - before.written().len(),
{
}

/// A counting source counts exactly what a transfer moves out of it: what the destination gained, and
/// the chunk that was handed out instead of being written.
pub proof fn law_reader_counts<S: reader::Buffer>(
    before: TrackedReader<'_, S>,
    after: TrackedReader<'_, S>,
    dest: Seq<u8>,
    held: Seq<u8>,
    dest_after: Seq<u8>,
)
    requires
        flowed(before.remaining(), dest, held, after.remaining(), dest_after),
        after.origin() == before.origin(),
    ensures
        after.consumed() - before.consumed() == (dest_after.len() - dest.len()) + held.len(),
{
    assert(dest_after.len() == dest.len() + gained(dest, dest_after).len());
}

/// What one call takes out of a source.
pub enum Outflow {
    /// A chunk, by [`read_chunk`](reader::Buffer::read_chunk). A read that fails takes none.
    Chunk(Seq<u8>),
    /// What a destination gains, by a transfer that hands `held` out instead of writing it.
    Transfer { dest: Seq<u8>, held: Seq<u8>, dest_after: Seq<u8> },
}

/// A call that takes `outflow` out of a counting source.
pub open spec fn drew<S: reader::Buffer>(
    before: TrackedReader<'_, S>,
    outflow: Outflow,
    after: TrackedReader<'_, S>,
) -> bool {
    &&& after.origin() == before.origin()
    &&& match outflow {
        Outflow::Chunk(chunk) => before.remaining() == chunk + after.remaining(),
        Outflow::Transfer { dest, held, dest_after } => flowed(
            before.remaining(),
            dest,
            held,
            after.remaining(),
            dest_after,
        ),
    }
}

/// How many bytes the calls take out of a source: those written to a destination, and those of the
/// chunks that were handed out.
pub open spec fn drawn(outflows: Seq<Outflow>) -> int
    decreases outflows.len(),
{
    if outflows.len() == 0 {
        0
    } else {
        drawn(outflows.drop_last()) + match outflows.last() {
            Outflow::Chunk(chunk) => chunk.len() as int,
            Outflow::Transfer { dest, held, dest_after } => dest_after.len() - dest.len()
                + held.len(),
        }
    }
}

/// Over any run of reads and transfers a counting source counts exactly what they take out of it.
pub proof fn law_reader_counts_every_call<S: reader::Buffer>(
    readers: Seq<TrackedReader<'_, S>>,
    outflows: Seq<Outflow>,
)
    requires
        readers.len() == outflows.len() + 1,
        forall|i: int|
            0 <= i < outflows.len() ==> drew(readers[i], #[trigger] outflows[i], readers[i + 1]),
    ensures
        readers.last().consumed() - readers.first().consumed() == drawn(outflows),
    decreases outflows.len(),
{
    if outflows.len() > 0 {
        let n = outflows.len() - 1;
        let front = outflows.drop_last();
        let early = readers.drop_last();
        assert forall|i: int| 0 <= i < front.len() implies drew(
            early[i],
            #[trigger] front[i],
            early[i + 1],
        ) by {
            assert(front[i] == outflows[i]);
        }
        law_reader_counts_every_call(early, front);
        assert(drew(readers[n], outflows[n], readers[n + 1]));
        match outflows[n] {
            Outflow::Chunk(_) => {},
            Outflow::Transfer { dest, held, dest_after } => {
                law_reader_counts(readers[n], readers[n + 1], dest, held, dest_after);
            },
        }
    }
}

/// What a destination has taken after each step of a walk over runs.
proof fn lemma_walked_written<Dest: Buffer>(runs: Seq<Seq<u8>>, stops: Seq<Dest>, at: int)
    requires
        walked(runs, stops),
        0 <= at < stops.len(),
    ensures
        stops[at].written() == stops[0].written() + joined(runs.take(at)),
    decreases at,
{
    if at == 0 {
        assert(runs.take(0) =~= Seq::<Seq<u8>>::empty());
        assert(stops[0].written() + Seq::<u8>::empty() =~= stops[0].written());
    } else {
        lemma_walked_written(runs, stops, at - 1);
        lemma_joined_step(runs, at - 1);
        assert(took_run(stops[at - 1], runs[at - 1], stops[at]));
        assert(stops[0].written() + joined(runs.take(at - 1)) + runs[at - 1] =~= stops[0].written()
            + (joined(runs.take(at - 1)) + runs[at - 1]));
    }
}

/// A transfer that hands its last run back writes whole runs only, and at least one run fewer than
/// the source has. The chunk that it hands back is the front of the run that comes next. It is empty
/// only if the source was drained already or the destination asks for nothing.
pub proof fn law_last_run_is_handed_back<Dest: Buffer>(
    runs: Seq<Seq<u8>>,
    before: Dest,
    after: Dest,
    chunk: Seq<u8>,
) -> (count: int)
    requires
        none_empty(runs),
        handed_back(runs, before, after, chunk),
    ensures
        0 <= count <= runs.len(),
        after.written() == before.written() + joined(runs.take(count)),
        runs.len() > 0 ==> count < runs.len(),
        chunk == front_piece(runs.skip(count), after.reported() as int),
        chunk.len() == 0 ==> runs.len() == 0 || after.reported() == 0,
        count + 1 < runs.len() ==> after.reported() <= runs[count].len(),
        count > 0 ==> runs[0].len() < before.reported(),
{
    let stops = choose|stops: Seq<Dest>|
        {
            &&& #[trigger] run_by_run(runs, stops, chunk)
            &&& stops.first() == before
            &&& stops.last() == after
        };
    let count = stops.len() - 1;
    lemma_walked_written(runs, stops, count);
    if runs.len() > 0 {
        assert(runs.skip(count)[0] == runs[count]);
    }
    count
}

/// A transfer that hands its last run back writes run after run: each of them whole, in order, and
/// shorter than what the destination asked for when its turn came. The states that the destination
/// went through are returned.
pub proof fn law_runs_are_written_whole<Dest: Buffer>(
    runs: Seq<Seq<u8>>,
    before: Dest,
    after: Dest,
    chunk: Seq<u8>,
) -> (stops: Seq<Dest>)
    requires
        handed_back(runs, before, after, chunk),
    ensures
        0 < stops.len() <= runs.len() + 1,
        stops[0] == before,
        stops[stops.len() - 1] == after,
        forall|i: int|
            0 <= i < stops.len() - 1 ==> {
                &&& stops[i + 1].written() == stops[i].written() + #[trigger] runs[i]
                &&& stops[i + 1].space() + runs[i].len() == stops[i].space()
                &&& runs[i].len() < stops[i].reported()
            },
        stops.len() < runs.len() ==> after.reported() <= runs[stops.len() - 1].len(),
{
    let stops = choose|stops: Seq<Dest>|
        {
            &&& #[trigger] run_by_run(runs, stops, chunk)
            &&& stops.first() == before
            &&& stops.last() == after
        };
    assert forall|i: int| 0 <= i < stops.len() - 1 implies {
        &&& stops[i + 1].written() == stops[i].written() + #[trigger] runs[i]
        &&& stops[i + 1].space() + runs[i].len() == stops[i].space()
        &&& runs[i].len() < stops[i].reported()
    } by {
        assert(took_run(stops[i], runs[i], stops[i + 1]));
    }
    stops
}

/// A one-round destination asks for nothing once something was written to it.
pub proof fn law_one_round_only<S: Buffer>(once: WriteOnce<'_, S>)
    requires
        once.did_write,
    ensures
        once.reported() == 0,
{
}

} // verus!
