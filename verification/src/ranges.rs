//! Section-assignment pairs: decide whether one numeric range contains or
//! overlaps another.

use vstd::prelude::*;

verus! {

/// Does one of the two closed ranges fully contain the other?
pub open spec fn spec_containment(pair1: (i32, i32), pair2: (i32, i32)) -> bool {
    (pair1.0 >= pair2.0 && pair1.1 <= pair2.1) || (pair1.0 <= pair2.0 && pair1.1 >= pair2.1)
}

/// Do the two closed ranges share at least one point, assuming each pair is
/// ordered? The executable check also reports true in the degenerate cases
/// the containment test covers, which is what this predicate spells out.
pub open spec fn spec_overlap(pair1: (i32, i32), pair2: (i32, i32)) -> bool {
    (pair1.0 >= pair2.0 && pair1.0 <= pair2.1) || (pair1.1 >= pair2.0 && pair1.1 <= pair2.1)
        || spec_containment(pair1, pair2)
}

pub fn check_containment(pair1: (i32, i32), pair2: (i32, i32)) -> (r: bool)
    ensures
        r == spec_containment(pair1, pair2),
{
    if (pair1.0 >= pair2.0 && pair1.1 <= pair2.1) || (pair1.0 <= pair2.0 && pair1.1 >= pair2.1) {
        true
    } else {
        false
    }
}

pub fn check_overlap(pair1: (i32, i32), pair2: (i32, i32)) -> (r: bool)
    ensures
        r == spec_overlap(pair1, pair2),
{
    if (pair1.0 >= pair2.0 && pair1.0 <= pair2.1) || (pair1.1 >= pair2.0 && pair1.1 <= pair2.1)
        || check_containment(pair1, pair2) {
        true
    } else {
        false
    }
}

} // verus!
