//! Digging out blocks: a block can be dug when it and its neighbors are
//! still standing, level by level.

use vstd::prelude::*;

verus! {

/// The level is a non-empty rectangle of blocks.
pub open spec fn level_wf(g: Seq<Seq<bool>>) -> bool {
    g.len() > 0 && g[0].len() > 0 && forall|i: int|
        0 <= i < g.len() ==> (#[trigger] g[i]).len() == g[0].len()
}

/// A block can be dug when it stands strictly inside the level and it and
/// its four side neighbors are all standing.
pub open spec fn can_dig_spec(g: Seq<Seq<bool>>, row: int, col: int) -> bool {
    1 <= row < g.len() - 1 && 1 <= col < g[0].len() - 1 && g[row - 1][col] && g[row][col - 1]
        && g[row][col] && g[row][col + 1] && g[row + 1][col]
}

/// A block can be dug diagonally when its four corner neighbors stand too.
pub open spec fn can_dig_diagonaly_spec(g: Seq<Seq<bool>>, row: int, col: int) -> bool {
    can_dig_spec(g, row, col) && g[row - 1][col - 1] && g[row - 1][col + 1] && g[row + 1][col - 1]
        && g[row + 1][col + 1]
}

/// Whether the block at `(row, col)` can be dug one level deeper.
#[verifier::loop_isolation(false)]
pub fn can_dig(grid: &Vec<Vec<bool>>, row: usize, col: usize) -> (r: bool)
    requires
        level_wf(grid.deep_view()),
    ensures
        r == can_dig_spec(grid.deep_view(), row as int, col as int),
{
    let ghost g = grid.deep_view();
    proof {
        assert forall|i: int| 0 <= i < g.len() implies (#[trigger] grid@[i])@.len() == g[0].len()
            && grid@[i]@ =~= g[i] by {
            assert(g[i] == grid@[i].deep_view());
        }
    }
    1 <= row && row < grid.len() - 1 && 1 <= col && col < grid[0].len() - 1 && grid[row - 1][col]
        && grid[row][col - 1] && grid[row][col] && grid[row][col + 1] && grid[row + 1][col]
}

/// Whether the block at `(row, col)` can be dug when corners count as
/// support too.
#[verifier::loop_isolation(false)]
pub fn can_dig_diagonaly(grid: &Vec<Vec<bool>>, row: usize, col: usize) -> (r: bool)
    requires
        level_wf(grid.deep_view()),
    ensures
        r == can_dig_diagonaly_spec(grid.deep_view(), row as int, col as int),
{
    let ghost g = grid.deep_view();
    proof {
        assert forall|i: int| 0 <= i < g.len() implies (#[trigger] grid@[i])@.len() == g[0].len()
            && grid@[i]@ =~= g[i] by {
            assert(g[i] == grid@[i].deep_view());
        }
    }
    if !can_dig(grid, row, col) {
        return false;
    }
    let m = grid.len();
    let n = grid[0].len();
    proof {
        assert(m == g.len() && n == g[0].len());
    }
    grid[row - 1][col - 1] && grid[row - 1][col + 1] && grid[row + 1][col - 1] && grid[row
        + 1][col + 1]
}

} // verus!
