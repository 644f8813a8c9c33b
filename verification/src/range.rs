//! Ranges of sentence lengths.

use std::ops::{Range, RangeInclusive};
use vstd::prelude::*;

verus! {

/// `RangeInclusive::start`: the lower bound the range was made with, as long
/// as the range has not been iterated to its end.
pub assume_specification<Idx>[ RangeInclusive::<Idx>::start ](
    range: &RangeInclusive<Idx>,
) -> (start: &Idx)
    ensures
        !range@.exhausted ==> *start == range@.start,
;

/// `RangeInclusive::end`: the upper bound the range was made with, as long
/// as the range has not been iterated to its end.
pub assume_specification<Idx>[ RangeInclusive::<Idx>::end ](
    range: &RangeInclusive<Idx>,
) -> (end: &Idx)
    ensures
        !range@.exhausted ==> *end == range@.end,
;

/// A range of `usize` with a least and a greatest element, which can be
/// written as a half-open range.
pub trait ClosedRange {
    /// The least value of the range.
    spec fn lower(&self) -> int;

    /// The greatest value of the range; below `lower()` where the range is
    /// empty.
    spec fn upper(&self) -> int;

    /// Whether the half-open form exists: the bounds are known and the
    /// successor of the greatest value is a `usize`.
    spec fn is_bounded(&self) -> bool;

    /// The same range in half-open form.
    fn as_open_range(&self) -> (open: Range<usize>)
        requires
            self.is_bounded(),
        ensures
            open.start == self.lower(),
            open.end == self.upper() + 1,
    ;
}

impl ClosedRange for Range<usize> {
    open spec fn lower(&self) -> int {
        self.start as int
    }

    open spec fn upper(&self) -> int {
        self.end - 1
    }

    open spec fn is_bounded(&self) -> bool {
        true
    }

    fn as_open_range(&self) -> (open: Range<usize>) {
        Range { start: self.start, end: self.end }
    }
}

impl ClosedRange for RangeInclusive<usize> {
    open spec fn lower(&self) -> int {
        self@.start as int
    }

    open spec fn upper(&self) -> int {
        self@.end as int
    }

    open spec fn is_bounded(&self) -> bool {
        !self@.exhausted && self@.end < usize::MAX
    }

    fn as_open_range(&self) -> (open: Range<usize>) {
        let lower: usize = *self.start();
        let upper: usize = *self.end();
        Range { start: lower, end: upper + 1 }
    }
}

} // verus!
