//! A dance of four columns of numbered dancers; after each round the
//! column heads shout a number together.

use std::collections::VecDeque;
use vstd::prelude::*;

verus! {

/// The number the four column heads shout: the heads are read side by side,
/// the first head deciding how much room the others get.
pub open spec fn shout_spec(c0: int, c1: int, c2: int, c3: int) -> int {
    if c0 < 10 {
        1000 * c0 + 100 * c1 + 10 * c2 + c3
    } else if c0 < 100 {
        1000000 * c0 + 10000 * c1 + 100 * c2 + c3
    } else {
        1000000000000 * c0 + 100000000 * c1 + 10000 * c2 + c3
    }
}

/// Reads the number the column heads shout.
pub fn shout_value(columns: &Vec<VecDeque<i64>>) -> (r: i64)
    requires
        columns@.len() == 4,
        forall|i: int| 0 <= i < 4 ==> (#[trigger] columns@[i])@.len() > 0,
        forall|i: int| 0 <= i < 4 ==> 0 <= #[trigger] columns@[i]@[0] < 100000,
    ensures
        r == shout_spec(
            columns@[0]@[0] as int,
            columns@[1]@[0] as int,
            columns@[2]@[0] as int,
            columns@[3]@[0] as int,
        ),
{
    let c0 = columns[0][0];
    let c1 = columns[1][0];
    let c2 = columns[2][0];
    let c3 = columns[3][0];
    if c0 < 10 {
        1000 * c0 + 100 * c1 + 10 * c2 + c3
    } else if c0 < 100 {
        1000000 * c0 + 10000 * c1 + 100 * c2 + c3
    } else {
        1000000000000 * c0 + 100000000 * c1 + 10000 * c2 + c3
    }
}

/// Where a clapper of value `clapper` joins a column of `n` dancers: it
/// walks down the column and back up, `clapper` places in all, and slots in
/// where it stops.
pub open spec fn dance_insert_index(clapper: int, n: int) -> int {
    let target = (clapper - 1) % (2 * n) + 1;
    if target <= n + 1 {
        target - 1
    } else {
        2 * n - target + 1
    }
}

/// One dance round: the head of the clapping column joins the next column,
/// at the place its own value picks.
pub fn dance_a_round(columns: &mut Vec<VecDeque<i64>>, col: usize)
    requires
        old(columns)@.len() == 4,
        col < 4,
        old(columns)@[col as int]@.len() > 0,
        1 <= old(columns)@[col as int]@[0] <= usize::MAX,
        1 <= old(columns)@[(col + 1) as int % 4]@.len() <= usize::MAX / 2,
    ensures
        final(columns)@.len() == 4,
        final(columns)@[col as int]@ == old(columns)@[col as int]@.subrange(
            1,
            old(columns)@[col as int]@.len() as int,
        ),
        final(columns)@[(col + 1) as int % 4]@ == old(columns)@[(col + 1) as int % 4]@.insert(
            dance_insert_index(
                old(columns)@[col as int]@[0] as int,
                old(columns)@[(col + 1) as int % 4]@.len() as int,
            ),
            old(columns)@[col as int]@[0],
        ),
        forall|i: int|
            0 <= i < 4 && i != col && i != (col + 1) as int % 4 ==> final(columns)@[i]
                == old(columns)@[i],
{
    let next_col = (col + 1) % 4;
    let n = columns[next_col].len();
    let clapper = match columns[col].pop_front() {
        Some(c) => c,
        None => {
            proof {
                assert(false);
            }
            0
        },
    };
    let target_pos = ((clapper as usize - 1) % (2 * n)) + 1;
    if target_pos <= n + 1 {
        columns[next_col].insert(target_pos - 1, clapper);
    } else {
        columns[next_col].insert(2 * n - target_pos + 1, clapper);
    }
}

} // verus!
