//! Bounds on priorities, for searches from one end of a range.

use vstd::prelude::*;

verus! {

/// One end of a range of priorities.
#[derive(Clone, Copy, Debug)]
pub enum Bound {
    /// The range ends at the priority and holds it.
    Included(u64),
    /// The range ends at the priority and does not hold it.
    Excluded(u64),
    /// The range has no end on this side.
    Unbounded,
}

/// The priority is not below the lower end of a range.
pub open spec fn above_lower(bound: Bound, priority: u64) -> bool {
    match bound {
        Bound::Unbounded => true,
        Bound::Included(key) => priority >= key,
        Bound::Excluded(key) => priority > key,
    }
}

/// The priority is not above the upper end of a range.
pub open spec fn below_upper(bound: Bound, priority: u64) -> bool {
    match bound {
        Bound::Unbounded => true,
        Bound::Included(key) => priority <= key,
        Bound::Excluded(key) => priority < key,
    }
}

/// Whether `other` is not below the lower bound.
pub fn above_lower_bound(bound: &Bound, other: u64) -> (above: bool)
    ensures
        above == above_lower(*bound, other),
{
    match *bound {
        Bound::Unbounded => true,
        Bound::Included(key) => other >= key,
        Bound::Excluded(key) => other > key,
    }
}

/// Whether `other` is not above the upper bound.
pub fn below_upper_bound(bound: &Bound, other: u64) -> (below: bool)
    ensures
        below == below_upper(*bound, other),
{
    match *bound {
        Bound::Unbounded => true,
        Bound::Included(key) => other <= key,
        Bound::Excluded(key) => other < key,
    }
}

} // verus!
