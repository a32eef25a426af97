//! Predicates on half-open ranges of buffer offsets.

use std::ops::Range;
use vstd::prelude::*;

verus! {

/// Two half-open ranges overlap when each starts before the other ends.
pub open spec fn overlap(a: Range<usize>, b: Range<usize>) -> bool {
    a.end > b.start && a.start < b.end
}

/// `a` reaches at least as far as `b` on both sides.
pub open spec fn fully_contains(a: Range<usize>, b: Range<usize>) -> bool {
    a.start <= b.start && a.end >= b.end
}

/// `a` starts after `b` starts and ends after `b` ends.
pub open spec fn starts_overlapping(a: Range<usize>, b: Range<usize>) -> bool {
    a.start > b.start && a.end > b.end
}

/// Whether the half-open ranges `a` and `b` overlap.
pub fn ranges_overlap(a: Range<usize>, b: Range<usize>) -> (r: bool)
    ensures
        r == overlap(a, b),
{
    if a.end <= b.start {
        return false;
    }
    if a.start >= b.end {
        return false;
    }
    true
}

/// Whether `a` reaches at least as far as `b` on both sides.
pub fn range_fully_conatins(a: &Range<usize>, b: &Range<usize>) -> (r: bool)
    ensures
        r == fully_contains(*a, *b),
{
    a.start <= b.start && a.end >= b.end
}

/// Whether `a` starts after `b` starts and ends after `b` ends.
pub fn range_starts_overlapping(a: &Range<usize>, b: &Range<usize>) -> (r: bool)
    ensures
        r == starts_overlapping(*a, *b),
{
    a.start > b.start && a.end > b.end
}

/// Whether `a` starts before `b` starts and ends before `b` ends.
pub fn range_ends_overlapping(a: &Range<usize>, b: &Range<usize>) -> (r: bool)
    ensures
        r == starts_overlapping(*b, *a),
{
    range_starts_overlapping(b, a)
}

} // verus!
