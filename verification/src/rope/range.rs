//! Byte ranges with inclusive, exclusive or missing bounds.

use core::ops::Range;
use core::ops::RangeInclusive;

use vstd::prelude::*;

use crate::rope::error::ByteRopeError;

verus! {

/// One end of a range.
#[derive(Debug, Clone, Copy, PartialEq, Eq, Structural)]
pub enum Bound {
    /// The end lies at this offset and belongs to the range.
    Included(usize),
    /// The end lies at this offset and does not belong to the range.
    Excluded(usize),
    /// There is no end on this side.
    Unbounded,
}

/// The first offset of a range that starts at `bound`.
pub open spec fn first_offset(bound: Bound) -> int {
    match bound {
        Bound::Included(at) => at as int,
        Bound::Excluded(at) => at + 1,
        Bound::Unbounded => 0,
    }
}

/// The offset after the last of a range that ends at `bound`, in a rope of `len` bytes.
pub open spec fn end_offset(bound: Bound, len: nat) -> int {
    match bound {
        Bound::Included(at) => at + 1,
        Bound::Excluded(at) => at as int,
        Bound::Unbounded => len as int,
    }
}

/// A range of byte offsets.
pub trait ByteRange {
    /// Where the range starts.
    spec fn lower(&self) -> Bound;

    /// Where the range ends.
    spec fn upper(&self) -> Bound;

    /// Whether the ends can be told. They always can, but for an inclusive range that was walked over
    /// to its end.
    spec fn settled(&self) -> bool;

    /// Where the range starts.
    fn start_bound(&self) -> (bound: Bound)
        requires
            self.settled(),
        ensures
            bound == self.lower(),
    ;

    /// Where the range ends.
    fn end_bound(&self) -> (bound: Bound)
        requires
            self.settled(),
        ensures
            bound == self.upper(),
    ;
}

impl ByteRange for Range<usize> {
    open spec fn lower(&self) -> Bound {
        Bound::Included(self.start)
    }

    open spec fn upper(&self) -> Bound {
        Bound::Excluded(self.end)
    }

    open spec fn settled(&self) -> bool {
        true
    }

    fn start_bound(&self) -> (bound: Bound) {
        Bound::Included(self.start)
    }

    fn end_bound(&self) -> (bound: Bound) {
        Bound::Excluded(self.end)
    }
}

/// `core::ops::RangeFull`, the range without ends.
#[verifier::external_type_specification]
#[verifier::external_body]
pub struct ExRangeFull(core::ops::RangeFull);

impl ByteRange for core::ops::RangeFull {
    open spec fn lower(&self) -> Bound {
        Bound::Unbounded
    }

    open spec fn upper(&self) -> Bound {
        Bound::Unbounded
    }

    open spec fn settled(&self) -> bool {
        true
    }

    fn start_bound(&self) -> (bound: Bound) {
        Bound::Unbounded
    }

    fn end_bound(&self) -> (bound: Bound) {
        Bound::Unbounded
    }
}

/// `RangeInclusive::start`: the lower end of an inclusive range. After the range was walked over to its
/// end it is left open.
pub assume_specification<Idx>[ RangeInclusive::<Idx>::start ](range: &RangeInclusive<Idx>) -> (start:
    &Idx)
    ensures
        !range@.exhausted ==> *start == range@.start,
;

/// `RangeInclusive::end`: the upper end of an inclusive range. After the range was walked over to its
/// end it is left open.
pub assume_specification<Idx>[ RangeInclusive::<Idx>::end ](range: &RangeInclusive<Idx>) -> (end:
    &Idx)
    ensures
        !range@.exhausted ==> *end == range@.end,
;

impl ByteRange for RangeInclusive<usize> {
    open spec fn lower(&self) -> Bound {
        Bound::Included(self@.start)
    }

    open spec fn upper(&self) -> Bound {
        Bound::Included(self@.end)
    }

    open spec fn settled(&self) -> bool {
        !self@.exhausted
    }

    fn start_bound(&self) -> (bound: Bound) {
        Bound::Included(*self.start())
    }

    fn end_bound(&self) -> (bound: Bound) {
        Bound::Included(*self.end())
    }
}

impl ByteRange for (Bound, Bound) {
    open spec fn lower(&self) -> Bound {
        self.0
    }

    open spec fn upper(&self) -> Bound {
        self.1
    }

    open spec fn settled(&self) -> bool {
        true
    }

    fn start_bound(&self) -> (bound: Bound) {
        self.0
    }

    fn end_bound(&self) -> (bound: Bound) {
        self.1
    }
}

/// Whether a range lies within a rope of `len` bytes.
pub open spec fn within(lower: Bound, upper: Bound, len: nat) -> bool {
    first_offset(lower) <= end_offset(upper, len) <= len
}

/// The offset that is reported for a range that does not lie within a rope: the larger of its two
/// ends, as far as a `usize` can say.
pub open spec fn blamed_offset(lower: Bound, upper: Bound, len: nat) -> int {
    let start = first_offset(lower);
    let end = end_offset(upper, len);
    let larger = if start >= end {
        start
    } else {
        end
    };
    if larger <= usize::MAX {
        larger
    } else {
        usize::MAX as int
    }
}

/// The offset that follows `at`, or `None` where no `usize` follows.
fn following(at: usize) -> (next: Option<usize>)
    ensures
        match next {
            Some(offset) => offset == at + 1,
            None => at == usize::MAX,
        },
{
    if at == usize::MAX {
        None
    } else {
        Some(at + 1)
    }
}

/// The first offset of a range and the offset after its last, if it lies within a rope of `len`
/// bytes.
pub fn resolve_range<B: ByteRange>(range: &B, len: usize) -> (ends: Result<
    (usize, usize),
    ByteRopeError,
>)
    requires
        range.settled(),
    ensures
        match ends {
            Ok((start, end)) => {
                &&& within(range.lower(), range.upper(), len as nat)
                &&& start == first_offset(range.lower())
                &&& end == end_offset(range.upper(), len as nat)
            },
            Err(error) => {
                &&& !within(range.lower(), range.upper(), len as nat)
                &&& error == ByteRopeError::OutOfBounds(
                    blamed_offset(range.lower(), range.upper(), len as nat) as usize,
                )
            },
        },
{
    let start: Option<usize> = match range.start_bound() {
        Bound::Included(at) => Some(at),
        Bound::Excluded(at) => following(at),
        Bound::Unbounded => Some(0),
    };
    let end: Option<usize> = match range.end_bound() {
        Bound::Included(at) => following(at),
        Bound::Excluded(at) => Some(at),
        Bound::Unbounded => Some(len),
    };
    match (start, end) {
        (Some(first), Some(last)) => {
            if first <= last && last <= len {
                Ok((first, last))
            } else if first >= last {
                Err(ByteRopeError::OutOfBounds(first))
            } else {
                Err(ByteRopeError::OutOfBounds(last))
            }
        },
        _ => Err(ByteRopeError::OutOfBounds(usize::MAX)),
    }
}

/// Where a range begins and ends: at a bound that belongs to it, next to one that does not, and at the
/// end of the rope where there is none.
pub proof fn law_bounds(at: usize, len: nat)
    ensures
        first_offset(Bound::Included(at)) == at,
        first_offset(Bound::Excluded(at)) == at + 1,
        first_offset(Bound::Unbounded) == 0,
        end_offset(Bound::Included(at), len) == at + 1,
        end_offset(Bound::Excluded(at), len) == at,
        end_offset(Bound::Unbounded, len) == len,
{
}

/// The bounds of each form in which a range can be written.
pub proof fn law_range_forms(
    range: Range<usize>,
    inclusive: RangeInclusive<usize>,
    all: core::ops::RangeFull,
    pair: (Bound, Bound),
)
    ensures
        range.lower() == Bound::Included(range.start),
        range.upper() == Bound::Excluded(range.end),
        range.settled(),
        inclusive.lower() == Bound::Included(inclusive@.start),
        inclusive.upper() == Bound::Included(inclusive@.end),
        inclusive.settled() <==> !inclusive@.exhausted,
        all.lower() == Bound::Unbounded,
        all.upper() == Bound::Unbounded,
        all.settled(),
        pair.lower() == pair.0,
        pair.upper() == pair.1,
        pair.settled(),
{
}

/// A range lies within a rope exactly when it does not end before it begins and not behind the rope.
/// Where it does not, the larger of its ends is reported, or the largest number there is.
pub proof fn law_within(lower: Bound, upper: Bound, len: nat)
    ensures
        within(lower, upper, len) <==> first_offset(lower) <= end_offset(upper, len)
            && end_offset(upper, len) <= len,
        first_offset(lower) <= usize::MAX && end_offset(upper, len) <= usize::MAX ==> {
            &&& blamed_offset(lower, upper, len) >= first_offset(lower)
            &&& blamed_offset(lower, upper, len) >= end_offset(upper, len)
            &&& blamed_offset(lower, upper, len) == first_offset(lower) || blamed_offset(
                lower,
                upper,
                len,
            ) == end_offset(upper, len)
        },
        first_offset(lower) > usize::MAX || end_offset(upper, len) > usize::MAX ==> blamed_offset(
            lower,
            upper,
            len,
        ) == usize::MAX,
{
}

} // verus!
