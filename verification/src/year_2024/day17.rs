//! Constellations of stars connected by taxicab distance.

use vstd::prelude::*;

verus! {

/// A star position: row then column.
pub type Pos = (usize, usize);

/// The taxicab distance between two stars.
pub open spec fn dist_spec(p1: Pos, p2: Pos) -> int {
    (if p1.0 >= p2.0 {
        p1.0 - p2.0
    } else {
        p2.0 - p1.0
    }) + (if p1.1 >= p2.1 {
        p1.1 - p2.1
    } else {
        p2.1 - p1.1
    })
}

/// The taxicab distance between two stars.
pub fn compute_dist(pos1: Pos, pos2: Pos) -> (r: usize)
    requires
        dist_spec(pos1, pos2) <= usize::MAX,
    ensures
        r == dist_spec(pos1, pos2),
{
    let dr = if pos1.0 >= pos2.0 {
        pos1.0 - pos2.0
    } else {
        pos2.0 - pos1.0
    };
    let dc = if pos1.1 >= pos2.1 {
        pos1.1 - pos2.1
    } else {
        pos2.1 - pos1.1
    };
    dr + dc
}

} // verus!
