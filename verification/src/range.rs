//! Inclusive positional intervals on a reference sequence.

use vstd::prelude::*;

verus! {

/// An inclusive interval `[start, end]` of 1-based reference positions.
#[derive(Clone, Copy, PartialEq, Eq, Structural, Debug)]
pub struct PosRange {
    pub start: u64,
    pub end: u64,
}

impl PosRange {
    /// A range is well formed when it contains at least one position.
    pub open spec fn wf(self) -> bool {
        self.start <= self.end
    }
}

/// Two inclusive integer intervals overlap when some position lies in both:
/// `max(start1, start2) <= min(end1, end2)`.
pub open spec fn spec_overlaps(lo1: int, hi1: int, lo2: int, hi2: int) -> bool {
    (if lo1 >= lo2 {
        lo1
    } else {
        lo2
    }) <= (if hi1 <= hi2 {
        hi1
    } else {
        hi2
    })
}

/// Check whether two positional ranges overlap.
pub fn is_range_overlapping(r1: &PosRange, r2: &PosRange) -> (b: bool)
    requires
        r1.wf(),
        r2.wf(),
    ensures
        b == spec_overlaps(r1.start as int, r1.end as int, r2.start as int, r2.end as int),
{
    let (left, right) = if r2.start < r1.start {
        (r2, r1)
    } else {
        (r1, r2)
    };
    left.start <= right.start && right.start <= left.end
}

/// Merge two positional ranges into their convex hull:
/// `[min(start1, start2), max(end1, end2)]`.
pub fn merge_range(r1: &PosRange, r2: &PosRange) -> (r: PosRange)
    ensures
        r.start == if r1.start <= r2.start {
            r1.start
        } else {
            r2.start
        },
        r.end == if r1.end >= r2.end {
            r1.end
        } else {
            r2.end
        },
        r1.wf() && r2.wf() ==> r.wf(),
{
    let start = if r1.start <= r2.start {
        r1.start
    } else {
        r2.start
    };
    let end = if r1.end >= r2.end {
        r1.end
    } else {
        r2.end
    };
    PosRange { start, end }
}

} // verus!
