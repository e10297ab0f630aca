//! Water flooding an island garden: water enters through openings on the
//! border and must reach every palm tree.

use vstd::prelude::*;

verus! {

/// A garden position: row then column.
pub type Pos = (usize, usize);

/// The map is a non-empty rectangle.
pub open spec fn map_rect(g: Seq<Seq<char>>) -> bool {
    g.len() > 0 && g[0].len() > 0 && forall|i: int|
        0 <= i < g.len() ==> (#[trigger] g[i]).len() == g[0].len()
}

/// A border cell that is open ground: water starts there.
pub open spec fn is_start(g: Seq<Seq<char>>, r: int, c: int) -> bool {
    (r == 0 || r == g.len() - 1 || c == 0 || c == g[0].len() - 1) && g[r][c] == '.'
}

/// The number of palm trees in row `row` from column `j` on.
pub open spec fn row_palms(row: Seq<char>, j: int) -> int
    decreases row.len() - j when j >= 0
{
    if j >= row.len() {
        0
    } else {
        (if row[j] == 'P' {
            1int
        } else {
            0int
        }) + row_palms(row, j + 1)
    }
}

/// The number of palm trees in the rows of `g` from row `i` on.
pub open spec fn palm_count(g: Seq<Seq<char>>, i: int) -> int
    decreases g.len() - i when i >= 0
{
    if i >= g.len() {
        0
    } else {
        row_palms(g[i], 0) + palm_count(g, i + 1)
    }
}

proof fn lemma_row_palms_bound(row: Seq<char>, j: int)
    requires
        0 <= j <= row.len(),
    ensures
        0 <= row_palms(row, j) <= row.len() - j,
    decreases row.len() - j,
{
    if j < row.len() {
        lemma_row_palms_bound(row, j + 1);
    }
}

/// Reads the flooding problem off the map: the border openings where water
/// starts, and how many palm trees there are.
#[verifier::loop_isolation(false)]
pub fn parse_map(map: &Vec<Vec<char>>) -> (r: (Vec<Pos>, u32))
    requires
        map_rect(map.deep_view()),
        map.deep_view().len() * map.deep_view()[0].len() <= u32::MAX,
    ensures
        r.1 == palm_count(map.deep_view(), 0),
        forall|k: int|
            0 <= k < r.0@.len() ==> is_start(
                map.deep_view(),
                (#[trigger] r.0@[k]).0 as int,
                r.0@[k].1 as int,
            ),
        forall|x: int, y: int|
            0 <= x < map.deep_view().len() && 0 <= y < map.deep_view()[0].len() && is_start(
                map.deep_view(),
                x,
                y,
            ) ==> r.0@.contains((x as usize, y as usize)),
        forall|k1: int, k2: int|
            0 <= k1 < k2 < r.0@.len() ==> #[trigger] r.0@[k1] != #[trigger] r.0@[k2],
{
    let ghost g = map.deep_view();
    proof {
        assert forall|i: int| 0 <= i < g.len() implies (#[trigger] map@[i])@.len() == g[0].len()
            && map@[i]@ =~= g[i] by {
            assert(g[i] == map@[i].deep_view());
        }
    }
    let m = map.len();
    let n = map[0].len();
    let mut start_positions: Vec<Pos> = Vec::new();
    let mut nb_palm_trees: u32 = 0;
    let mut row: usize = 0;
    while row < m
        invariant
            0 <= row <= m,
            nb_palm_trees == palm_count(g, 0) - palm_count(g, row as int),
            0 <= nb_palm_trees <= row * n,
            forall|k: int|
                0 <= k < start_positions@.len() ==> is_start(
                    g,
                    (#[trigger] start_positions@[k]).0 as int,
                    start_positions@[k].1 as int,
                ) && start_positions@[k].0 < row,
            forall|x: int, y: int|
                0 <= x < row && 0 <= y < n && is_start(g, x, y) ==> start_positions@.contains(
                    (x as usize, y as usize),
                ),
            forall|k1: int, k2: int|
                0 <= k1 < k2 < start_positions@.len() ==> #[trigger] start_positions@[k1]
                    != #[trigger] start_positions@[k2],
        decreases m - row,
    {
        proof {
            lemma_palm_count_step(g, row as int);
            lemma_row_palms_bound(g[row as int], 0);
        }
        let mut col: usize = 0;
        while col < n
            invariant
                0 <= col <= n,
                nb_palm_trees == palm_count(g, 0) - palm_count(g, row as int) + row_palms(
                    g[row as int],
                    0,
                ) - row_palms(g[row as int], col as int),
                0 <= nb_palm_trees <= row * n + col,
                forall|k: int|
                    0 <= k < start_positions@.len() ==> is_start(
                        g,
                        (#[trigger] start_positions@[k]).0 as int,
                        start_positions@[k].1 as int,
                    ) && (start_positions@[k].0 < row || (start_positions@[k].0 == row
                        && start_positions@[k].1 < col)),
                forall|x: int, y: int|
                    0 <= x < row && 0 <= y < n && is_start(g, x, y) ==> start_positions@.contains(
                        (x as usize, y as usize),
                    ),
                forall|y: int|
                    0 <= y < col && is_start(g, row as int, y) ==> start_positions@.contains(
                        (row as usize, y as usize),
                    ),
                forall|k1: int, k2: int|
                    0 <= k1 < k2 < start_positions@.len() ==> #[trigger] start_positions@[k1]
                        != #[trigger] start_positions@[k2],
            decreases n - col,
        {
            let ghost sp0 = start_positions@;
            let c = map[row][col];
            if (row == 0 || row == m - 1 || col == 0 || col == n - 1) && c == '.' {
                start_positions.push((row, col));
            }
            if c == 'P' {
                proof {
                    assert(row * n + col < m * n) by (nonlinear_arith)
                        requires
                            0 <= row < m,
                            0 <= col < n,
                    ;
                    assert(m * n <= u32::MAX);
                }
                nb_palm_trees = nb_palm_trees + 1;
            }
            proof {
                assert forall|x: int, y: int|
                    0 <= x < row && 0 <= y < n && is_start(g, x, y) implies start_positions@.contains(
                    (x as usize, y as usize),
                ) by {
                    assert(sp0.contains((x as usize, y as usize)));
                    let k = choose|k: int| 0 <= k < sp0.len() && sp0[k] == (x as usize, y as usize);
                    assert(start_positions@[k] == (x as usize, y as usize));
                }
                assert forall|y: int|
                    0 <= y < col + 1 && is_start(g, row as int, y) implies start_positions@.contains(
                    (row as usize, y as usize),
                ) by {
                    if y < col {
                        assert(sp0.contains((row as usize, y as usize)));
                        let k = choose|k: int|
                            0 <= k < sp0.len() && sp0[k] == (row as usize, y as usize);
                        assert(start_positions@[k] == (row as usize, y as usize));
                    } else {
                        assert(start_positions@[start_positions@.len() - 1] == (
                            row as usize,
                            y as usize,
                        ));
                    }
                }
            }
            col = col + 1;
        }
        proof {
            assert((row + 1) * n == row * n + n) by (nonlinear_arith);
        }
        row = row + 1;
    }
    (start_positions, nb_palm_trees)
}

proof fn lemma_palm_count_step(g: Seq<Seq<char>>, i: int)
    requires
        0 <= i < g.len(),
    ensures
        palm_count(g, i) == row_palms(g[i], 0) + palm_count(g, i + 1),
{
}

/// The cells water can flow to from `(x, y)`: the adjacent cells inside the
/// map that are not walls, in the order up, right, down, left.
pub open spec fn neighbors_spec(g: Seq<Seq<char>>, x: int, y: int) -> Seq<Pos> {
    (if x > 0 && g[x - 1][y] != '#' {
        seq![((x - 1) as usize, y as usize)]
    } else {
        Seq::<Pos>::empty()
    }) + (if y < g[0].len() - 1 && g[x][y + 1] != '#' {
        seq![(x as usize, (y + 1) as usize)]
    } else {
        Seq::<Pos>::empty()
    }) + (if x < g.len() - 1 && g[x + 1][y] != '#' {
        seq![((x + 1) as usize, y as usize)]
    } else {
        Seq::<Pos>::empty()
    }) + (if y > 0 && g[x][y - 1] != '#' {
        seq![(x as usize, (y - 1) as usize)]
    } else {
        Seq::<Pos>::empty()
    })
}

/// The open cells next to `(x, y)`.
#[verifier::loop_isolation(false)]
pub fn get_neighbors(map: &Vec<Vec<char>>, x: usize, y: usize) -> (r: Vec<Pos>)
    requires
        map_rect(map.deep_view()),
        x < map.deep_view().len(),
        y < map.deep_view()[0].len(),
    ensures
        r@ == neighbors_spec(map.deep_view(), x as int, y as int),
{
    let ghost g = map.deep_view();
    proof {
        assert forall|i: int| 0 <= i < g.len() implies (#[trigger] map@[i])@.len() == g[0].len()
            && map@[i]@ =~= g[i] by {
            assert(g[i] == map@[i].deep_view());
        }
    }
    let mut neighbors: Vec<Pos> = Vec::new();
    if x > 0 && map[x - 1][y] != '#' {
        neighbors.push((x - 1, y));
    }
    if y < map[0].len() - 1 && map[x][y + 1] != '#' {
        neighbors.push((x, y + 1));
    }
    if x < map.len() - 1 && map[x + 1][y] != '#' {
        neighbors.push((x + 1, y));
    }
    if y > 0 && map[x][y - 1] != '#' {
        neighbors.push((x, y - 1));
    }
    proof {
        assert(neighbors@ =~= neighbors_spec(g, x as int, y as int));
    }
    neighbors
}

} // verus!
